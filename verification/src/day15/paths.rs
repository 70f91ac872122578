//! Shortest ways through the cave over free squares.

use crate::day15::{free, open_at, Cell, Field, Cave, Point};
use vstd::prelude::*;
use vstd::set_lib::{lemma_int_range, lemma_len_subset, set_int_range};

verus! {

/// The square `p` can be reached from `from` in `k` steps or fewer, each
/// step to a square beside the last, over free squares; `from` itself need
/// not be free.
pub open spec fn reach(f: Field, from: (int, int), p: (int, int), k: nat) -> bool
    decreases k,
{
    if k == 0 {
        p == from
    } else {
        reach(f, from, p, (k - 1) as nat) || (free(f, p.0, p.1) && (reach(
            f,
            from,
            (p.0 + 1, p.1),
            (k - 1) as nat,
        ) || reach(f, from, (p.0 - 1, p.1), (k - 1) as nat) || reach(
            f,
            from,
            (p.0, p.1 + 1),
            (k - 1) as nat,
        ) || reach(f, from, (p.0, p.1 - 1), (k - 1) as nat)))
    }
}

/// The least number of steps, `n` at most, in which `p` can be reached from
/// `from`.
pub open spec fn least_steps(f: Field, from: (int, int), p: (int, int), n: nat) -> Option<nat>
    decreases n,
{
    if n == 0 {
        if p == from {
            Some(0)
        } else {
            None
        }
    } else {
        match least_steps(f, from, p, (n - 1) as nat) {
            Some(d) => Some(d),
            None => if reach(f, from, p, n) {
                Some(n)
            } else {
                None
            },
        }
    }
}

/// The greatest length of a row.
pub open spec fn widest(cells: Seq<Seq<Cell>>, n: nat) -> nat
    decreases n,
{
    if n == 0 {
        0
    } else if cells[n - 1].len() > widest(cells, (n - 1) as nat) {
        cells[n - 1].len()
    } else {
        widest(cells, (n - 1) as nat)
    }
}

/// How far ways are followed: as many steps as the cave has squares, rows
/// times the greatest length of a row, or as a `usize` counts if that is
/// less.
pub open spec fn horizon(f: Field) -> nat {
    if f.cells.len() * widest(f.cells, f.cells.len()) <= usize::MAX {
        f.cells.len() * widest(f.cells, f.cells.len())
    } else {
        usize::MAX as nat
    }
}

/// The distance from `from` to `p`: the least number of steps in which `p`
/// can be reached, within the horizon.
pub open spec fn distance(f: Field, from: (int, int), p: (int, int)) -> Option<nat> {
    least_steps(f, from, p, horizon(f))
}

/// What can be reached in some steps can be reached in more.
pub proof fn reach_grows(f: Field, from: (int, int), p: (int, int), j: nat, k: nat)
    requires
        j <= k,
        reach(f, from, p, j),
    ensures
        reach(f, from, p, k),
    decreases k - j,
{
    if j < k {
        reach_grows(f, from, p, j, (k - 1) as nat);
    }
}

/// `p` can be reached in `d` steps and in no fewer.
pub open spec fn exactly(f: Field, from: (int, int), p: (int, int), d: nat) -> bool {
    reach(f, from, p, d) && (d == 0 || !reach(f, from, p, (d - 1) as nat))
}

/// The least number of steps is the number in which the square can be
/// reached and in no fewer.
pub proof fn least_steps_exact(f: Field, from: (int, int), p: (int, int), d: nat, n: nat)
    requires
        exactly(f, from, p, d),
        d <= n,
    ensures
        least_steps(f, from, p, n) == Some(d),
    decreases n,
{
    if n > d {
        least_steps_exact(f, from, p, d, (n - 1) as nat);
    } else {
        if d > 0 {
            least_steps_none(f, from, p, (d - 1) as nat);
        }
    }
}

/// What cannot be reached in `n` steps has no least number of steps up to
/// `n`.
pub proof fn least_steps_none(f: Field, from: (int, int), p: (int, int), n: nat)
    requires
        !reach(f, from, p, n),
    ensures
        least_steps(f, from, p, n) is None,
    decreases n,
{
    if n > 0 {
        least_steps_none(f, from, p, (n - 1) as nat);
    }
}

/// Once a further step reaches nothing new, no number of steps does.
pub proof fn reach_settles(f: Field, from: (int, int), k: nat, j: nat)
    requires
        k <= j,
        forall|x: int, y: int| #[trigger] reach(f, from, (x, y), k + 1) ==> reach(f, from, (x, y), k),
    ensures
        forall|x: int, y: int| #[trigger] reach(f, from, (x, y), j) ==> reach(f, from, (x, y), k),
    decreases j - k,
{
    if k < j {
        reach_settles(f, from, k, (j - 1) as nat);
        assert forall|x: int, y: int| #[trigger] reach(f, from, (x, y), j) implies reach(
            f,
            from,
            (x, y),
            k,
        ) by {
            if reach(f, from, (x, y), (j - 1) as nat) {
            } else {
                let near = reach(f, from, (x + 1, y), (j - 1) as nat) || reach(
                    f,
                    from,
                    (x - 1, y),
                    (j - 1) as nat,
                ) || reach(f, from, (x, y + 1), (j - 1) as nat) || reach(
                    f,
                    from,
                    (x, y - 1),
                    (j - 1) as nat,
                );
                assert(near);
                assert(reach(f, from, (x + 1, y), k) || reach(f, from, (x - 1, y), k) || reach(
                    f,
                    from,
                    (x, y + 1),
                    k,
                ) || reach(f, from, (x, y - 1), k));
                assert(reach(f, from, (x, y), k + 1));
            }
        }
    }
}

/// The number of steps noted for the square at column `x`, row `y`.
pub open spec fn mark(dist: Seq<Vec<Option<usize>>>, x: int, y: int) -> Option<usize> {
    if 0 <= y < dist.len() && 0 <= x < dist[y].len() {
        dist[y][x]
    } else {
        None
    }
}

/// The number of steps noted for the square at column `x`, row `y`, the
/// start itself taken as noted with zero.
pub open spec fn noted(dist: Seq<Vec<Option<usize>>>, from: (int, int), x: int, y: int) -> Option<
    usize,
> {
    if (x, y) == from {
        Some(0usize)
    } else {
        mark(dist, x, y)
    }
}

/// Where the notes have a place for the start, it holds zero.
pub open spec fn anchored(dist: Seq<Vec<Option<usize>>>, from: (int, int)) -> bool {
    0 <= from.1 < dist.len() && 0 <= from.0 < dist[from.1].len() ==> mark(dist, from.0, from.1)
        == Some(0usize)
}

/// The notes have a place for every square of the cave and no other.
pub open spec fn same_shape(dist: Seq<Vec<Option<usize>>>, cells: Seq<Seq<Cell>>) -> bool {
    dist.len() == cells.len() && forall|y: int|
        0 <= y < dist.len() ==> (#[trigger] dist[y]).len() == cells[y].len()
}

/// The square `p` is beside the square `q`.
pub open spec fn beside(q: (int, int), p: (int, int)) -> bool {
    p == (q.0 + 1, q.1) || p == (q.0 - 1, q.1) || p == (q.0, q.1 + 1) || p == (q.0, q.1 - 1)
}

/// The list holds the square at column `x`, row `y`.
pub open spec fn listed(list: Seq<Point>, x: int, y: int) -> bool {
    exists|i: int| 0 <= i < list.len() && (#[trigger] list[i]).x == x && list[i].y == y
}

/// Every free square beside `q` has a note.
pub open spec fn served(f: Field, dist: Seq<Vec<Option<usize>>>, q: (int, int)) -> bool {
    &&& free(f, q.0 + 1, q.1) ==> mark(dist, q.0 + 1, q.1) is Some
    &&& free(f, q.0 - 1, q.1) ==> mark(dist, q.0 - 1, q.1) is Some
    &&& free(f, q.0, q.1 + 1) ==> mark(dist, q.0, q.1 + 1) is Some
    &&& free(f, q.0, q.1 - 1) ==> mark(dist, q.0, q.1 - 1) is Some
}

/// The notes `new` are the notes `old` and, on some free squares beside `q`
/// that had none, the note `d`; the list `next` holds those squares.
pub open spec fn extends(
    f: Field,
    old: Seq<Vec<Option<usize>>>,
    new: Seq<Vec<Option<usize>>>,
    q: (int, int),
    d: usize,
    next: Seq<Point>,
) -> bool {
    forall|x: int, y: int|
        #![trigger mark(new, x, y)]
        #![trigger mark(old, x, y)]
        mark(new, x, y) == mark(old, x, y) || (mark(old, x, y) is None && mark(new, x, y) == Some(d)
            && free(f, x, y) && beside(q, (x, y)) && listed(next, x, y))
}

/// Notes `d` for the square `p` if there is one, it is free and it has no
/// note yet, and adds it to the list.
fn visit_if(
    cave: &Cave,
    dist: &mut Vec<Vec<Option<usize>>>,
    next: &mut Vec<Point>,
    p: Option<Point>,
    d: usize,
    Ghost(q): Ghost<(int, int)>,
    Ghost(spot): Ghost<(int, int)>,
)
    requires
        same_shape(old(dist)@, cave.field().cells),
        beside(q, spot),
        match p {
            Some(pt) => (pt.x as int, pt.y as int) == spot,
            None => !free(cave.field(), spot.0, spot.1),
        },
    ensures
        same_shape(final(dist)@, cave.field().cells),
        extends(cave.field(), old(dist)@, final(dist)@, q, d, final(next)@),
        free(cave.field(), spot.0, spot.1) ==> mark(final(dist)@, spot.0, spot.1) is Some,
        final(next)@.len() >= old(next)@.len(),
        final(next)@.take(old(next)@.len() as int) == old(next)@,
        forall|j: int|
            old(next)@.len() <= j < final(next)@.len() ==> mark(
                old(dist)@,
                (#[trigger] final(next)@[j]).x as int,
                final(next)@[j].y as int,
            ) is None && mark(final(dist)@, final(next)@[j].x as int, final(next)@[j].y as int)
                == Some(d),
{
    match p {
        Some(pt) => visit(cave, dist, next, pt, d, Ghost(q)),
        None => {
            assert(next@.take(next@.len() as int) =~= next@);
        },
    }
}

/// Notes `d` for the square `p` if it is free and has no note yet, and adds
/// it to the list.
fn visit(
    cave: &Cave,
    dist: &mut Vec<Vec<Option<usize>>>,
    next: &mut Vec<Point>,
    p: Point,
    d: usize,
    Ghost(q): Ghost<(int, int)>,
)
    requires
        same_shape(old(dist)@, cave.field().cells),
        beside(q, (p.x as int, p.y as int)),
    ensures
        same_shape(final(dist)@, cave.field().cells),
        extends(cave.field(), old(dist)@, final(dist)@, q, d, final(next)@),
        free(cave.field(), p.x as int, p.y as int) ==> mark(final(dist)@, p.x as int, p.y as int)
            is Some,
        final(next)@.len() >= old(next)@.len(),
        final(next)@.take(old(next)@.len() as int) == old(next)@,
        forall|j: int|
            old(next)@.len() <= j < final(next)@.len() ==> mark(
                old(dist)@,
                (#[trigger] final(next)@[j]).x as int,
                final(next)@[j].y as int,
            ) is None && mark(final(dist)@, final(next)@[j].x as int, final(next)@[j].y as int)
                == Some(d),
{
    if cave.is_free(p) {
        assert(open_at(cave.field().cells, p.x as int, p.y as int));
        assert(cave.field().cells[p.y as int] == cave.cells[p.y as int]@);
        if dist[p.y][p.x].is_none() {
            let ghost before = dist@;
            let ghost listed_before = next@;
            dist[p.y][p.x] = Some(d);
            next.push(p);
            assert(next@[listed_before.len() as int] == p);
            assert(listed(next@, p.x as int, p.y as int));
            assert(next@.take(listed_before.len() as int) =~= listed_before);
            assert forall|x: int, y: int|
                #![trigger mark(dist@, x, y)]
                #![trigger mark(before, x, y)]
                mark(dist@, x, y) == mark(before, x, y) || (mark(before, x, y) is None && mark(
                    dist@,
                    x,
                    y,
                ) == Some(d) && free(cave.field(), x, y) && beside(q, (x, y)) && listed(next@, x, y)) by {
                if x == p.x && y == p.y {
                } else {
                    assert(mark(dist@, x, y) == mark(before, x, y));
                }
            }
        } else {
            assert(next@.take(next@.len() as int) =~= next@);
        }
    } else {
        assert(next@.take(next@.len() as int) =~= next@);
    }
}

/// Two extensions beside the same square make one.
pub proof fn extends_chain(
    f: Field,
    a: Seq<Vec<Option<usize>>>,
    b: Seq<Vec<Option<usize>>>,
    c: Seq<Vec<Option<usize>>>,
    q: (int, int),
    d: usize,
    n1: Seq<Point>,
    n2: Seq<Point>,
)
    requires
        extends(f, a, b, q, d, n1),
        extends(f, b, c, q, d, n2),
        n1.len() <= n2.len(),
        n2.take(n1.len() as int) == n1,
    ensures
        extends(f, a, c, q, d, n2),
{
    assert forall|x: int, y: int|
        #![trigger mark(c, x, y)]
        #![trigger mark(a, x, y)]
        mark(c, x, y) == mark(a, x, y) || (mark(a, x, y) is None && mark(c, x, y) == Some(d)
            && free(f, x, y) && beside(q, (x, y)) && listed(n2, x, y)) by {
        let mb = mark(b, x, y);
        if mark(c, x, y) != mark(a, x, y) {
            if mark(b, x, y) != mark(a, x, y) {
                assert(listed(n1, x, y));
                let i = choose|i: int| 0 <= i < n1.len() && (#[trigger] n1[i]).x == x && n1[i].y == y;
                assert(n2[i] == n2.take(n1.len() as int)[i]);
                assert(listed(n2, x, y));
            }
        }
    }
}

/// Notes `d` for the free squares beside `q` that have no note yet, and adds
/// them to the list.
pub fn expand(
    cave: &Cave,
    dist: &mut Vec<Vec<Option<usize>>>,
    next: &mut Vec<Point>,
    q: Point,
    d: usize,
)
    requires
        same_shape(old(dist)@, cave.field().cells),
    ensures
        same_shape(final(dist)@, cave.field().cells),
        extends(cave.field(), old(dist)@, final(dist)@, (q.x as int, q.y as int), d, final(next)@),
        served(cave.field(), final(dist)@, (q.x as int, q.y as int)),
        final(next)@.len() >= old(next)@.len(),
        final(next)@.take(old(next)@.len() as int) == old(next)@,
        forall|j: int|
            old(next)@.len() <= j < final(next)@.len() ==> mark(
                final(dist)@,
                (#[trigger] final(next)@[j]).x as int,
                final(next)@[j].y as int,
            ) == Some(d),
{
    let ghost f = cave.field();
    let ghost spot = (q.x as int, q.y as int);
    let ghost d0 = dist@;
    let ghost n0 = next@;
    let right = if q.x < usize::MAX {
        Some(Point { x: q.x + 1, y: q.y })
    } else {
        proof {
            unreachable_column(cave, q.x + 1, q.y as int);
        }
        None
    };
    let left = if q.x > 0 {
        Some(Point { x: q.x - 1, y: q.y })
    } else {
        None
    };
    let down = if q.y < usize::MAX {
        Some(Point { x: q.x, y: q.y + 1 })
    } else {
        assert(f.cells.len() == cave.cells.len());
        assert(!open_at(f.cells, q.x as int, q.y + 1));
        None
    };
    let up = if q.y > 0 {
        Some(Point { x: q.x, y: q.y - 1 })
    } else {
        None
    };
    visit_if(cave, dist, next, right, d, Ghost(spot), Ghost((q.x + 1, q.y as int)));
    let ghost d1 = dist@;
    let ghost n1 = next@;
    visit_if(cave, dist, next, left, d, Ghost(spot), Ghost((q.x - 1, q.y as int)));
    let ghost d2 = dist@;
    let ghost n2 = next@;
    visit_if(cave, dist, next, down, d, Ghost(spot), Ghost((q.x as int, q.y + 1)));
    let ghost d3 = dist@;
    let ghost n3 = next@;
    visit_if(cave, dist, next, up, d, Ghost(spot), Ghost((q.x as int, q.y - 1)));
    let ghost d4 = dist@;
    let ghost n4 = next@;
    proof {
        assert(n2.take(n1.len() as int) == n1);
        extends_chain(f, d0, d1, d2, spot, d, n1, n2);
        assert(n3.take(n2.len() as int) == n2);
        extends_chain(f, d0, d2, d3, spot, d, n2, n3);
        extends_chain(f, d0, d3, d4, spot, d, n3, n4);
        assert(n4.take(n0.len() as int) =~= n0) by {
            assert(n1 == n2.take(n1.len() as int));
            assert(n2 == n3.take(n2.len() as int));
            assert(n3 == n4.take(n3.len() as int));
            assert(n0 == n1.take(n0.len() as int));
        }
        assert(mark(d4, q.x + 1, q.y as int) is Some || !free(f, q.x + 1, q.y as int)) by {
            if free(f, q.x + 1, q.y as int) {
                assert(mark(d1, q.x + 1, q.y as int) is Some);
                kept(f, d1, d2, spot, d, n2, q.x + 1, q.y as int);
                kept(f, d2, d3, spot, d, n3, q.x + 1, q.y as int);
                kept(f, d3, d4, spot, d, n4, q.x + 1, q.y as int);
            }
        }
        assert(mark(d4, q.x - 1, q.y as int) is Some || !free(f, q.x - 1, q.y as int)) by {
            if free(f, q.x - 1, q.y as int) {
                kept(f, d2, d3, spot, d, n3, q.x - 1, q.y as int);
                kept(f, d3, d4, spot, d, n4, q.x - 1, q.y as int);
            }
        }
        assert(mark(d4, q.x as int, q.y + 1) is Some || !free(f, q.x as int, q.y + 1)) by {
            if free(f, q.x as int, q.y + 1) {
                kept(f, d3, d4, spot, d, n4, q.x as int, q.y + 1);
            }
        }
        assert forall|j: int| n0.len() <= j < n4.len() implies mark(
            d4,
            (#[trigger] n4[j]).x as int,
            n4[j].y as int,
        ) == Some(d) by {
            let x = n4[j].x as int;
            let y = n4[j].y as int;
            if j < n1.len() {
                assert(n4[j] == n1[j]) by {
                    assert(n1 == n2.take(n1.len() as int));
                    assert(n2 == n3.take(n2.len() as int));
                    assert(n3 == n4.take(n3.len() as int));
                }
                kept(f, d1, d2, spot, d, n2, x, y);
                kept(f, d2, d3, spot, d, n3, x, y);
                kept(f, d3, d4, spot, d, n4, x, y);
            } else if j < n2.len() {
                assert(n4[j] == n2[j]) by {
                    assert(n2 == n3.take(n2.len() as int));
                    assert(n3 == n4.take(n3.len() as int));
                }
                kept(f, d2, d3, spot, d, n3, x, y);
                kept(f, d3, d4, spot, d, n4, x, y);
            } else if j < n3.len() {
                assert(n4[j] == n3[j]) by {
                    assert(n3 == n4.take(n3.len() as int));
                }
                kept(f, d3, d4, spot, d, n4, x, y);
            }
        }
    }
}

/// No square of the cave lies in a column beyond those that a `usize`
/// names.
pub proof fn unreachable_column(cave: &Cave, x: int, y: int)
    requires
        x > usize::MAX,
    ensures
        !open_at(cave.field().cells, x, y),
{
    if 0 <= y < cave.cells.len() {
        assert(cave.field().cells[y] == cave.cells[y]@);
        assert(cave.cells[y].len() <= usize::MAX);
    }
}

/// An extension keeps every note there is.
pub proof fn kept(
    f: Field,
    a: Seq<Vec<Option<usize>>>,
    b: Seq<Vec<Option<usize>>>,
    q: (int, int),
    d: usize,
    n: Seq<Point>,
    x: int,
    y: int,
)
    requires
        extends(f, a, b, q, d, n),
    ensures
        mark(a, x, y) is Some ==> mark(b, x, y) == mark(a, x, y),
{
    assert(mark(b, x, y) == mark(a, x, y) || mark(a, x, y) is None);
}

/// Every note is at most `k` and is the least number of steps to its
/// square.
pub open spec fn sound(f: Field, from: (int, int), dist: Seq<Vec<Option<usize>>>, k: nat) -> bool {
    forall|x: int, y: int|
        (#[trigger] noted(dist, from, x, y)) is Some ==> noted(dist, from, x, y).unwrap() <= k
            && exactly(f, from, (x, y), noted(dist, from, x, y).unwrap() as nat)
}

/// Every square that can be reached in `k` steps has a note.
pub open spec fn complete(f: Field, from: (int, int), dist: Seq<Vec<Option<usize>>>, k: nat) -> bool {
    forall|x: int, y: int| #[trigger] reach(f, from, (x, y), k) ==> noted(dist, from, x, y) is Some
}

/// The list holds exactly the squares with the note `k`, all of them open
/// but for the start.
pub open spec fn is_layer(
    f: Field,
    from: (int, int),
    list: Seq<Point>,
    dist: Seq<Vec<Option<usize>>>,
    k: nat,
) -> bool {
    &&& forall|i: int|
        0 <= i < list.len() ==> noted(dist, from, (#[trigger] list[i]).x as int, list[i].y as int)
            == Some(k as usize) && (open_at(f.cells, list[i].x as int, list[i].y as int) || (
            list[i].x as int,
            list[i].y as int,
        ) == from)
    &&& forall|x: int, y: int|
        (#[trigger] noted(dist, from, x, y)) == Some(k as usize) ==> listed(list, x, y)
}

/// The notes while the squares `k + 1` steps away are being found: `frontier`
/// holds those `k` steps away, `next` those found so far.
pub open spec fn growing(
    f: Field,
    from: (int, int),
    dist: Seq<Vec<Option<usize>>>,
    k: nat,
    frontier: Seq<Point>,
    next: Seq<Point>,
) -> bool {
    &&& k < usize::MAX
    &&& sound(f, from, dist, k + 1)
    &&& complete(f, from, dist, k)
    &&& is_layer(f, from, frontier, dist, k)
    &&& is_layer(f, from, next, dist, k + 1)
    &&& anchored(dist, from)
}

/// The first `n` squares of the list have been served.
pub open spec fn all_served(f: Field, dist: Seq<Vec<Option<usize>>>, list: Seq<Point>, n: int) -> bool {
    forall|i: int| 0 <= i < n ==> served(f, dist, ((#[trigger] list[i]).x as int, list[i].y as int))
}

/// Serving one more square of the frontier keeps the notes growing.
pub proof fn growing_kept(
    f: Field,
    from: (int, int),
    old: Seq<Vec<Option<usize>>>,
    new: Seq<Vec<Option<usize>>>,
    k: nat,
    frontier: Seq<Point>,
    next_old: Seq<Point>,
    next_new: Seq<Point>,
    i: int,
)
    requires
        growing(f, from, old, k, frontier, next_old),
        same_shape(old, f.cells),
        same_shape(new, f.cells),
        all_served(f, old, frontier, i),
        0 <= i < frontier.len(),
        extends(f, old, new, (frontier[i].x as int, frontier[i].y as int), (k + 1) as usize, next_new),
        served(f, new, (frontier[i].x as int, frontier[i].y as int)),
        next_new.len() >= next_old.len(),
        next_new.take(next_old.len() as int) == next_old,
        forall|j: int|
            next_old.len() <= j < next_new.len() ==> mark(
                new,
                (#[trigger] next_new[j]).x as int,
                next_new[j].y as int,
            ) == Some((k + 1) as usize),
    ensures
        growing(f, from, new, k, frontier, next_new),
        all_served(f, new, frontier, i + 1),
{
    let q = (frontier[i].x as int, frontier[i].y as int);
    let d = (k + 1) as usize;
    assert(noted(old, from, q.0, q.1) == Some(k as usize));
    assert(reach(f, from, q, k));
    kept(f, old, new, q, d, next_new, from.0, from.1);
    assert(anchored(new, from));
    assert forall|x: int, y: int| (#[trigger] noted(new, from, x, y)) is Some implies noted(new, from, x, y).unwrap()
        <= k + 1 && exactly(f, from, (x, y), noted(new, from, x, y).unwrap() as nat) by {
        if noted(new, from, x, y) == noted(old, from, x, y) {
        } else {
            assert(noted(old, from, x, y) is None && free(f, x, y) && beside(q, (x, y)));
            if reach(f, from, (x, y), k) {
                assert(noted(old, from, x, y) is Some);
            }
            assert(reach(f, from, (x, y), k + 1));
        }
    }
    assert forall|x: int, y: int| #[trigger] reach(f, from, (x, y), k) implies noted(new, from, x, y)
        is Some by {
        assert(noted(old, from, x, y) is Some);
        kept(f, old, new, q, d, next_new, x, y);
    }
    assert forall|j: int| 0 <= j < frontier.len() implies noted(new, from,
        (#[trigger] frontier[j]).x as int,
        frontier[j].y as int,
    ) == Some(k as usize) && (open_at(f.cells, frontier[j].x as int, frontier[j].y as int) || (
        frontier[j].x as int,
        frontier[j].y as int,
    ) == from) by {
        kept(f, old, new, q, d, next_new, frontier[j].x as int, frontier[j].y as int);
    }
    assert forall|x: int, y: int| (#[trigger] noted(new, from, x, y)) == Some(k as usize) implies listed(
        frontier,
        x,
        y,
    ) by {
        assert(noted(new, from, x, y) == noted(old, from, x, y));
    }
    assert forall|j: int| 0 <= j < next_new.len() implies noted(new, from,
        (#[trigger] next_new[j]).x as int,
        next_new[j].y as int,
    ) == Some(d) && (open_at(f.cells, next_new[j].x as int, next_new[j].y as int) || (
        next_new[j].x as int,
        next_new[j].y as int,
    ) == from) by {
        let x = next_new[j].x as int;
        let y = next_new[j].y as int;
        if j < next_old.len() {
            assert(next_new[j] == next_new.take(next_old.len() as int)[j]);
            assert(noted(old, from, next_old[j].x as int, next_old[j].y as int) == Some(d));
            kept(f, old, new, q, d, next_new, x, y);
        } else {
            assert(mark(new, x, y) == Some(d));
            assert(noted(new, from, x, y) == Some(d));
            if noted(old, from, x, y) == noted(new, from, x, y) {
                assert(listed(next_old, x, y));
                let m = choose|m: int|
                    0 <= m < next_old.len() && (#[trigger] next_old[m]).x == x && next_old[m].y == y;
                assert(open_at(f.cells, next_old[m].x as int, next_old[m].y as int));
            }
        }
    }
    assert forall|x: int, y: int| (#[trigger] noted(new, from, x, y)) == Some(d) implies listed(
        next_new,
        x,
        y,
    ) by {
        if noted(new, from, x, y) == noted(old, from, x, y) {
            assert(listed(next_old, x, y));
            let m = choose|m: int|
                0 <= m < next_old.len() && (#[trigger] next_old[m]).x == x && next_old[m].y == y;
            assert(next_new[m] == next_new.take(next_old.len() as int)[m]);
        }
    }
    assert forall|j: int| 0 <= j < i + 1 implies served(
        f,
        new,
        ((#[trigger] frontier[j]).x as int, frontier[j].y as int),
    ) by {
        if j < i {
            let p = (frontier[j].x as int, frontier[j].y as int);
            assert(served(f, old, p));
            if free(f, p.0 + 1, p.1) {
                kept(f, old, new, q, d, next_new, p.0 + 1, p.1);
            }
            if free(f, p.0 - 1, p.1) {
                kept(f, old, new, q, d, next_new, p.0 - 1, p.1);
            }
            if free(f, p.0, p.1 + 1) {
                kept(f, old, new, q, d, next_new, p.0, p.1 + 1);
            }
            if free(f, p.0, p.1 - 1) {
                kept(f, old, new, q, d, next_new, p.0, p.1 - 1);
            }
        }
    }
}

/// Once the whole frontier is served, every square that can be reached in
/// one step more has a note.
pub proof fn layer_done(
    f: Field,
    from: (int, int),
    dist: Seq<Vec<Option<usize>>>,
    k: nat,
    frontier: Seq<Point>,
    next: Seq<Point>,
)
    requires
        growing(f, from, dist, k, frontier, next),
        all_served(f, dist, frontier, frontier.len() as int),
    ensures
        complete(f, from, dist, k + 1),
{
    assert forall|x: int, y: int| #[trigger] reach(f, from, (x, y), k + 1) implies noted(dist, from, x, y)
        is Some by {
        if reach(f, from, (x, y), k) {
        } else {
            assert(free(f, x, y));
            if reach(f, from, (x + 1, y), k) {
                near_is_noted(f, from, dist, k, frontier, (x + 1, y), (x, y));
            } else if reach(f, from, (x - 1, y), k) {
                near_is_noted(f, from, dist, k, frontier, (x - 1, y), (x, y));
            } else if reach(f, from, (x, y + 1), k) {
                near_is_noted(f, from, dist, k, frontier, (x, y + 1), (x, y));
            } else {
                assert(reach(f, from, (x, y - 1), k));
                near_is_noted(f, from, dist, k, frontier, (x, y - 1), (x, y));
            }
        }
    }
}

/// A free square beside a square that can be reached in `k` steps has a
/// note, once the frontier is served.
pub proof fn near_is_noted(
    f: Field,
    from: (int, int),
    dist: Seq<Vec<Option<usize>>>,
    k: nat,
    frontier: Seq<Point>,
    q: (int, int),
    p: (int, int),
)
    requires
        sound(f, from, dist, k + 1),
        complete(f, from, dist, k),
        is_layer(f, from, frontier, dist, k),
        all_served(f, dist, frontier, frontier.len() as int),
        reach(f, from, q, k),
        beside(q, p),
        free(f, p.0, p.1),
    ensures
        noted(dist, from, p.0, p.1) is Some,
{
    assert(noted(dist, from, q.0, q.1) is Some);
    let d = noted(dist, from, q.0, q.1).unwrap() as nat;
    assert(exactly(f, from, q, d));
    if d == k {
        assert(listed(frontier, q.0, q.1));
        let i = choose|i: int|
            0 <= i < frontier.len() && (#[trigger] frontier[i]).x == q.0 && frontier[i].y == q.1;
        assert(served(f, dist, (frontier[i].x as int, frontier[i].y as int)));
    } else if d < k {
        assert(reach(f, from, p, d + 1));
        reach_grows(f, from, p, d + 1, k);
        assert(noted(dist, from, p.0, p.1) is Some);
    } else {
        if k > 0 {
            assert(!reach(f, from, q, (d - 1) as nat));
            reach_grows(f, from, q, k, (d - 1) as nat);
        }
    }
}

/// The distance from `from` to the square at column `x`, row `y`, as a
/// `usize`.
pub open spec fn steps_to(f: Field, from: (int, int), x: int, y: int) -> Option<usize> {
    match distance(f, from, (x, y)) {
        Some(d) => Some(d as usize),
        None => None,
    }
}

/// The notes give the distance from `from` to every square, the start taken
/// as noted with zero.
pub open spec fn charted(f: Field, from: (int, int), dist: Seq<Vec<Option<usize>>>) -> bool {
    &&& same_shape(dist, f.cells)
    &&& anchored(dist, from)
    &&& forall|x: int, y: int| #[trigger] noted(dist, from, x, y) == steps_to(f, from, x, y)
}

/// When no square is `k` steps away, or `k` is the horizon, the notes are
/// the distances.
pub proof fn flood_done(
    f: Field,
    from: (int, int),
    dist: Seq<Vec<Option<usize>>>,
    k: nat,
    frontier: Seq<Point>,
)
    requires
        same_shape(dist, f.cells),
        sound(f, from, dist, k),
        complete(f, from, dist, k),
        is_layer(f, from, frontier, dist, k),
        k <= horizon(f),
        frontier.len() == 0 || k == horizon(f),
        anchored(dist, from),
    ensures
        charted(f, from, dist),
{
    let n = horizon(f);
    if k < n {
        assert(frontier.len() == 0);
        if k > 0 {
            assert forall|x: int, y: int| #[trigger] reach(f, from, (x, y), k) implies reach(
                f,
                from,
                (x, y),
                (k - 1) as nat,
            ) by {
                assert(noted(dist, from, x, y) is Some);
                let d = noted(dist, from, x, y).unwrap() as nat;
                if d == k {
                    assert(listed(frontier, x, y));
                }
                assert(exactly(f, from, (x, y), d));
                reach_grows(f, from, (x, y), d, (k - 1) as nat);
            }
            reach_settles(f, from, (k - 1) as nat, n);
        } else {
            assert(noted(dist, from, from.0, from.1) == Some(0usize));
            assert(listed(frontier, from.0, from.1));
        }
    }
    assert forall|x: int, y: int| #[trigger] noted(dist, from, x, y) == steps_to(f, from, x, y) by {
        match noted(dist, from, x, y) {
            Some(d) => {
                assert(exactly(f, from, (x, y), d as nat));
                least_steps_exact(f, from, (x, y), d as nat, n);
            },
            None => {
                if reach(f, from, (x, y), n) {
                    if k < n {
                        assert(reach(f, from, (x, y), (k - 1) as nat));
                        reach_grows(f, from, (x, y), (k - 1) as nat, k);
                    }
                    assert(noted(dist, from, x, y) is Some);
                }
                least_steps_none(f, from, (x, y), n);
            },
        }
    }
}

/// Notes without a number of steps, one for every square of the cave.
pub fn blank_notes(cave: &Cave) -> (dist: Vec<Vec<Option<usize>>>)
    ensures
        same_shape(dist@, cave.field().cells),
        forall|x: int, y: int| #[trigger] mark(dist@, x, y) is None,
{
    let mut dist: Vec<Vec<Option<usize>>> = Vec::new();
    let mut y: usize = 0;
    while y < cave.cells.len()
        invariant
            y <= cave.cells.len(),
            dist.len() == y,
            forall|j: int| 0 <= j < y ==> (#[trigger] dist[j]).len() == cave.cells[j].len(),
            forall|j: int, i: int| 0 <= j < y && 0 <= i < dist[j].len() ==> (#[trigger] dist[j][i]) is None,
        decreases cave.cells.len() - y,
    {
        let mut row: Vec<Option<usize>> = Vec::new();
        let w: usize = cave.cells[y].len();
        while row.len() < w
            invariant
                row.len() <= w,
                forall|i: int| 0 <= i < row.len() ==> (#[trigger] row[i]) is None,
            decreases w - row.len(),
        {
            row.push(None);
        }
        dist.push(row);
        y += 1;
    }
    assert forall|x: int, y: int| #[trigger] mark(dist@, x, y) is None by {
        if 0 <= y < dist.len() && 0 <= x < dist[y].len() {
            assert(dist[y][x] is None);
        }
    }
    dist
}

/// How far ways are followed in the cave.
pub fn span(cave: &Cave) -> (n: usize)
    ensures
        n == horizon(cave.field()),
{
    let ghost cells = cave.field().cells;
    let mut w: usize = 0;
    let mut y: usize = 0;
    while y < cave.cells.len()
        invariant
            y <= cave.cells.len(),
            cells == cave.field().cells,
            w == widest(cells, y as nat),
        decreases cave.cells.len() - y,
    {
        assert(cells[y as int] == cave.cells[y as int]@);
        if cave.cells[y].len() > w {
            w = cave.cells[y].len();
        }
        y += 1;
    }
    match cave.cells.len().checked_mul(w) {
        Some(n) => n,
        None => usize::MAX,
    }
}

/// The distance from `from` to every square of the cave: the least number
/// of steps over free squares, within the horizon. The start may be any
/// square; it has a note only where it lies inside the cave.
pub fn flood(cave: &Cave, from: Point) -> (dist: Vec<Vec<Option<usize>>>)
    ensures
        charted(cave.field(), (from.x as int, from.y as int), dist@),
{
    let ghost f = cave.field();
    let ghost start = (from.x as int, from.y as int);
    let limit = span(cave);
    let mut dist = blank_notes(cave);
    let ghost blank = dist@;
    if from.y < dist.len() && from.x < dist[from.y].len() {
        dist[from.y][from.x] = Some(0);
    }
    let mut frontier: Vec<Point> = Vec::new();
    frontier.push(from);
    let mut k: usize = 0;
    proof {
        assert forall|x: int, y: int| (#[trigger] noted(dist@, start, x, y)) is Some implies x
            == from.x && y == from.y by {
            if !(x == from.x && y == from.y) {
                assert(mark(dist@, x, y) == mark(blank, x, y));
            }
        }
        assert(frontier@[0] == from);
        assert(listed(frontier@, from.x as int, from.y as int));
    }
    while frontier.len() > 0 && k < limit
        invariant
            f == cave.field(),
            start == (from.x as int, from.y as int),
            limit == horizon(f),
            k <= limit,
            same_shape(dist@, f.cells),
            sound(f, start, dist@, k as nat),
            complete(f, start, dist@, k as nat),
            is_layer(f, start, frontier@, dist@, k as nat),
            anchored(dist@, start),
        decreases limit - k,
    {
        let mut next: Vec<Point> = Vec::new();
        let mut i: usize = 0;
        proof {
            assert forall|x: int, y: int| (#[trigger] noted(dist@, start, x, y)) is Some implies noted(
                dist@,
                start,
                x,
                y,
            ).unwrap() <= k + 1 && exactly(
                f,
                start,
                (x, y),
                noted(dist@, start, x, y).unwrap() as nat,
            ) by {}
            assert forall|x: int, y: int| (#[trigger] noted(dist@, start, x, y)) == Some(
                (k + 1) as usize,
            ) implies listed(next@, x, y) by {
                assert(noted(dist@, start, x, y).unwrap() <= k);
            }
        }
        while i < frontier.len()
            invariant
                i <= frontier.len(),
                f == cave.field(),
                k < limit,
                same_shape(dist@, f.cells),
                growing(f, start, dist@, k as nat, frontier@, next@),
                all_served(f, dist@, frontier@, i as int),
            decreases frontier.len() - i,
        {
            let ghost before = dist@;
            let ghost listed_before = next@;
            let q = frontier[i];
            expand(cave, &mut dist, &mut next, q, k + 1);
            proof {
                growing_kept(
                    f,
                    start,
                    before,
                    dist@,
                    k as nat,
                    frontier@,
                    listed_before,
                    next@,
                    i as int,
                );
            }
            i += 1;
        }
        proof {
            layer_done(f, start, dist@, k as nat, frontier@, next@);
        }
        frontier = next;
        k += 1;
    }
    proof {
        flood_done(f, start, dist@, k as nat, frontier@);
    }
    dist
}

/// A square that can be reached has a least number of steps.
pub proof fn exact_exists(f: Field, from: (int, int), p: (int, int), k: nat) -> (d: nat)
    requires
        reach(f, from, p, k),
    ensures
        d <= k,
        exactly(f, from, p, d),
    decreases k,
{
    if k == 0 {
        0
    } else if reach(f, from, p, (k - 1) as nat) {
        exact_exists(f, from, p, (k - 1) as nat)
    } else {
        k
    }
}

/// The square `q` is beside `p`, over which the way goes on, and one step
/// nearer to `from`.
pub open spec fn leads_to(f: Field, from: (int, int), p: (int, int), d: nat, q: (int, int)) -> bool {
    beside(p, q) && exactly(f, from, q, (d - 1) as nat)
}

/// A square one step nearer on a shortest way to `p`.
pub open spec fn back(f: Field, from: (int, int), p: (int, int), d: nat) -> (int, int) {
    choose|q: (int, int)| leads_to(f, from, p, d, q)
}

/// A square at least one step away is free and has a square beside it that
/// is one step nearer.
pub proof fn back_exists(f: Field, from: (int, int), p: (int, int), d: nat)
    requires
        exactly(f, from, p, d),
        d >= 1,
    ensures
        free(f, p.0, p.1),
        leads_to(f, from, p, d, back(f, from, p, d)),
{
    let e = (d - 1) as nat;
    let q = if reach(f, from, (p.0 + 1, p.1), e) {
        (p.0 + 1, p.1)
    } else if reach(f, from, (p.0 - 1, p.1), e) {
        (p.0 - 1, p.1)
    } else if reach(f, from, (p.0, p.1 + 1), e) {
        (p.0, p.1 + 1)
    } else {
        (p.0, p.1 - 1)
    };
    assert(reach(f, from, q, e));
    if e >= 1 && reach(f, from, q, (e - 1) as nat) {
        assert(reach(f, from, p, e));
    }
    assert(leads_to(f, from, p, d, q));
}

/// The square `j` steps from `from` on a shortest way to `p`, which is `d`
/// steps away.
pub open spec fn trail(f: Field, from: (int, int), p: (int, int), d: nat, j: nat) -> (int, int)
    decreases d,
{
    if j >= d {
        p
    } else {
        trail(f, from, back(f, from, p, d), (d - 1) as nat, j)
    }
}

/// The square `j` steps along a shortest way is `j` steps away and no fewer.
pub proof fn trail_exact(f: Field, from: (int, int), p: (int, int), d: nat, j: nat)
    requires
        exactly(f, from, p, d),
        j <= d,
    ensures
        exactly(f, from, trail(f, from, p, d, j), j),
    decreases d,
{
    if j < d {
        back_exists(f, from, p, d);
        trail_exact(f, from, back(f, from, p, d), (d - 1) as nat, j);
    }
}

/// No row is longer than the longest.
pub proof fn widest_holds(cells: Seq<Seq<Cell>>, n: nat, y: int)
    requires
        0 <= y < n,
    ensures
        cells[y].len() <= widest(cells, n),
    decreases n,
{
    if y < n - 1 {
        widest_holds(cells, (n - 1) as nat, y);
    }
}

/// The number of a square when the squares are counted row by row, `w` to a
/// row.
pub open spec fn number_of(p: (int, int), w: int) -> int {
    p.1 * w + p.0
}

/// Pairwise distinct numbers from zero up to, not including, `n` are `n` at
/// most.
pub proof fn distinct_numbers_bounded(s: Seq<int>, n: int)
    requires
        s.no_duplicates(),
        forall|i: int| 0 <= i < s.len() ==> 0 <= #[trigger] s[i] < n,
    ensures
        s.len() <= n || s.len() == 0,
{
    if s.len() > 0 {
        assert(0 <= s[0] < n);
        let range = set_int_range(0, n);
        lemma_int_range(0, n);
        s.unique_seq_to_set();
        assert(s.to_set().subset_of(range)) by {
            assert forall|v: int| s.to_set().contains(v) implies range.contains(v) by {
                let i = choose|i: int| 0 <= i < s.len() && s[i] == v;
                assert(0 <= s[i] < n);
            }
        }
        lemma_len_subset(s.to_set(), range);
    }
}

/// The square at column `x`, row `y` lies in the cave.
pub open spec fn inside(cells: Seq<Seq<Cell>>, x: int, y: int) -> bool {
    0 <= y < cells.len() && 0 <= x < cells[y].len()
}

/// A square that can be reached at all from a square of the cave can be
/// reached within the horizon, where the cave has no more squares than a
/// `usize` counts: a shortest way passes no square twice.
pub proof fn horizon_is_far_enough(f: Field, from: (int, int), p: (int, int), k: nat)
    requires
        reach(f, from, p, k),
        inside(f.cells, from.0, from.1),
        f.cells.len() * widest(f.cells, f.cells.len()) <= usize::MAX,
    ensures
        reach(f, from, p, horizon(f)),
{
    let d = exact_exists(f, from, p, k);
    let h = f.cells.len() as int;
    let w = widest(f.cells, f.cells.len()) as int;
    let numbers = Seq::new(d + 1, |j: int| number_of(trail(f, from, p, d, j as nat), w));
    assert forall|j: int| 0 <= j < numbers.len() implies 0 <= #[trigger] numbers[j] < h * w by {
        let c = trail(f, from, p, d, j as nat);
        trail_exact(f, from, p, d, j as nat);
        if j >= 1 {
            back_exists(f, from, c, j as nat);
        }
        assert(inside(f.cells, c.0, c.1));
        widest_holds(f.cells, f.cells.len(), c.1);
        assert(0 <= c.1 * w + c.0 < h * w) by (nonlinear_arith)
            requires
                0 <= c.0 < w,
                0 <= c.1 < h,
        ;
    }
    assert forall|a: int, b: int|
        0 <= a < numbers.len() && 0 <= b < numbers.len() && a != b implies numbers[a]
        != numbers[b] by {
        let ca = trail(f, from, p, d, a as nat);
        let cb = trail(f, from, p, d, b as nat);
        trail_exact(f, from, p, d, a as nat);
        trail_exact(f, from, p, d, b as nat);
        if a >= 1 {
            back_exists(f, from, ca, a as nat);
        }
        if b >= 1 {
            back_exists(f, from, cb, b as nat);
        }
        widest_holds(f.cells, f.cells.len(), ca.1);
        widest_holds(f.cells, f.cells.len(), cb.1);
        if ca == cb {
            if a < b {
                reach_grows(f, from, ca, a as nat, (b - 1) as nat);
            } else {
                reach_grows(f, from, cb, b as nat, (a - 1) as nat);
            }
        } else {
            assert(ca.1 * w + ca.0 != cb.1 * w + cb.0) by (nonlinear_arith)
                requires
                    0 <= ca.0 < w,
                    0 <= cb.0 < w,
                    ca.0 != cb.0 || ca.1 != cb.1,
            ;
        }
    }
    distinct_numbers_bounded(numbers, h * w);
    reach_grows(f, from, p, d, horizon(f));
}

} // verus!
