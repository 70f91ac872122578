//! Carts on a track of straight pieces, curves and crossings: where the
//! first crash happens, and where the last cart is once all others have
//! crashed.

use crate::text::{chars_of, lines, lines_of, opt_view, pair_string, pair_text, views};
use std::collections::HashSet;
use vstd::prelude::*;

verus! {

/// A cart: its number, its place as column and row, the direction it moves
/// in as steps along the columns and rows, and how many crossings it has
/// met.
#[derive(Debug, PartialEq, Eq, Clone, Copy)]
pub struct Cart {
    pub id: usize,
    pub position: (usize, usize),
    pub direction: (isize, isize),
    pub step: usize,
}

/// Each part of the cart's direction can be turned about: its negation is
/// an `isize`.
pub open spec fn turnable(c: Cart) -> bool {
    c.direction.0 > isize::MIN && c.direction.1 > isize::MIN
}

/// The place as the signed number that the same bits write.
pub open spec fn signed(p: usize) -> int {
    if p <= isize::MAX {
        p as int
    } else {
        p - usize::MAX - 1
    }
}

/// The place `p` moved on by `d`, counted round the range of `usize` where
/// it falls below zero. `None` where the sum of `d` and the place as a signed
/// number does not fit in an `isize`.
pub open spec fn shifted(p: usize, d: isize) -> Option<usize> {
    let s = signed(p) + d;
    if isize::MIN <= s <= isize::MAX {
        Some(
            (if s >= 0 {
                s
            } else {
                s + usize::MAX + 1
            }) as usize,
        )
    } else {
        None
    }
}

/// The place `p` moved on by `d`.
pub fn shift(p: usize, d: isize) -> (r: Option<usize>)
    ensures
        r == shifted(p, d),
{
    let s: isize = if p <= isize::MAX as usize {
        p as isize
    } else {
        ((p - isize::MAX as usize - 1) as isize) + isize::MIN
    };
    match s.checked_add(d) {
        Some(v) => {
            if v >= 0 {
                Some(v as usize)
            } else {
                Some((v - isize::MIN) as usize + (isize::MAX as usize + 1))
            }
        },
        None => None,
    }
}

/// The cart after it has taken the piece of track `track`: a curve swaps the
/// parts of its direction, with or without changing their signs; a crossing
/// turns it left, lets it go straight, or turns it right, in turn, and is
/// counted; any other piece changes nothing.
pub open spec fn turned(c: Cart, track: char) -> Cart {
    let (x, y) = c.direction;
    if track == '/' {
        Cart { direction: ((-y) as isize, (-x) as isize), ..c }
    } else if track == '\\' {
        Cart { direction: (y, x), ..c }
    } else if track == '+' {
        Cart {
            direction: if c.step % 3 == 0 {
                (y, (-x) as isize)
            } else if c.step % 3 == 1 {
                (x, y)
            } else {
                ((-y) as isize, x)
            },
            step: (c.step + 1) as usize,
            ..c
        }
    } else {
        c
    }
}

impl Cart {
    /// A cart that has met no crossing yet.
    pub fn new(id: usize, x: usize, y: usize, direction: (isize, isize)) -> (c: Cart)
        ensures
            c == (Cart { id, position: (x, y), direction, step: 0 }),
    {
        Cart { id, position: (x, y), direction, step: 0 }
    }

    /// Moves the cart one step in its direction.
    pub fn step(&mut self)
        requires
            shifted(old(self).position.0, old(self).direction.0) is Some,
            shifted(old(self).position.1, old(self).direction.1) is Some,
        ensures
            Some(final(self).position.0) == shifted(old(self).position.0, old(self).direction.0),
            Some(final(self).position.1) == shifted(old(self).position.1, old(self).direction.1),
            final(self).id == old(self).id,
            final(self).direction == old(self).direction,
            final(self).step == old(self).step,
    {
        let x = shift(self.position.0, self.direction.0);
        let y = shift(self.position.1, self.direction.1);
        match (x, y) {
            (Some(x), Some(y)) => {
                self.position = (x, y);
            },
            _ => {},
        }
    }

    /// Lets the piece of track under the cart change its direction.
    pub fn flip_maybe(&mut self, track: char)
        requires
            turnable(*old(self)),
            track == '+' ==> old(self).step < usize::MAX,
        ensures
            *final(self) == turned(*old(self), track),
            turnable(*final(self)),
    {
        let (x, y) = self.direction;
        if track == '/' {
            self.direction = (-y, -x);
        } else if track == '\\' {
            self.direction = (y, x);
        } else if track == '+' {
            let turn = self.step % 3;
            if turn == 0 {
                self.direction = (y, -x);
            } else if turn == 2 {
                self.direction = (-y, x);
            }
            self.step = self.step + 1;
        }
    }
}

/// The track as rows of pieces, and the carts on it.
pub struct Track {
    pub map: Vec<Vec<char>>,
    pub carts: Vec<Cart>,
}

/// The direction that a character gives a cart, if it stands for one.
pub open spec fn heading(c: char) -> Option<(isize, isize)> {
    if c == 'v' {
        Some((0isize, 1isize))
    } else if c == '^' {
        Some((0isize, -1isize))
    } else if c == '<' {
        Some((-1isize, 0isize))
    } else if c == '>' {
        Some((1isize, 0isize))
    } else {
        None
    }
}

/// The carts of the first `n` characters of row `y`, after the carts
/// `before`, numbered in the order they are found.
pub open spec fn carts_in_row(before: Seq<Cart>, row: Seq<char>, y: usize, n: nat) -> Seq<Cart>
    decreases n,
{
    if n == 0 {
        before
    } else {
        let found = carts_in_row(before, row, y, (n - 1) as nat);
        match heading(row[n - 1]) {
            Some(d) => found.push(
                Cart { id: found.len() as usize, position: ((n - 1) as usize, y), direction: d, step: 0 },
            ),
            None => found,
        }
    }
}

/// The carts of the first `n` rows, numbered in the order they are found
/// going through the rows from the top, each from the left.
pub open spec fn carts_of(map: Seq<Seq<char>>, n: nat) -> Seq<Cart>
    decreases n,
{
    if n == 0 {
        seq![]
    } else {
        carts_in_row(carts_of(map, (n - 1) as nat), map[n - 1], (n - 1) as usize, map[n - 1].len())
    }
}

/// Cart `a` comes no later than cart `b` going through the rows from the
/// top, each from the left.
pub open spec fn no_later(a: Cart, b: Cart) -> bool {
    a.position.1 < b.position.1 || (a.position.1 == b.position.1 && a.position.0 <= b.position.0)
}

/// The carts in order with `c` put behind the last cart that comes no later
/// than it.
pub open spec fn placed(s: Seq<Cart>, c: Cart) -> Seq<Cart>
    decreases s.len(),
{
    if s.len() == 0 {
        seq![c]
    } else if no_later(s.last(), c) {
        s.push(c)
    } else {
        placed(s.drop_last(), c).push(s.last())
    }
}

/// The carts in the order of their places, rows from the top and each row
/// from the left; carts on one place keep their order.
pub open spec fn arranged(carts: Seq<Cart>) -> Seq<Cart>
    decreases carts.len(),
{
    if carts.len() == 0 {
        seq![]
    } else {
        placed(arranged(carts.drop_last()), carts.last())
    }
}

/// Every cart's direction is one step at most along each axis.
pub open spec fn all_turnable(carts: Seq<Cart>) -> bool {
    forall|i: int| 0 <= i < carts.len() ==> turnable(#[trigger] carts[i])
}

/// Placing a cart keeps the carts turnable.
pub proof fn placed_turnable(s: Seq<Cart>, c: Cart)
    requires
        all_turnable(s),
        turnable(c),
    ensures
        all_turnable(placed(s, c)),
        placed(s, c).len() == s.len() + 1,
    decreases s.len(),
{
    if s.len() > 0 && !no_later(s.last(), c) {
        placed_turnable(s.drop_last(), c);
        assert forall|i: int| 0 <= i < placed(s, c).len() implies turnable(
            #[trigger] placed(s, c)[i],
        ) by {
            if i < s.len() {
                assert(turnable(placed(s.drop_last(), c)[i]));
            } else {
                assert(turnable(s[s.len() - 1]));
            }
        }
    } else {
        assert forall|i: int| 0 <= i < placed(s, c).len() implies turnable(
            #[trigger] placed(s, c)[i],
        ) by {
            if i < s.len() {
                assert(turnable(s[i]));
            }
        }
    }
}

/// The carts in the order of their places.
pub fn arrange(carts: &Vec<Cart>) -> (r: Vec<Cart>)
    ensures
        r@ == arranged(carts@),
        r.len() == carts.len(),
        all_turnable(carts@) ==> all_turnable(r@),
{
    let mut out: Vec<Cart> = Vec::new();
    let mut k: usize = 0;
    assert(carts@.take(0) =~= seq![]);
    while k < carts.len()
        invariant
            k <= carts.len(),
            out.len() == k,
            out@ == arranged(carts@.take(k as int)),
            all_turnable(carts@) ==> all_turnable(out@),
        decreases carts.len() - k,
    {
        assert(carts@.take(k + 1).drop_last() == carts@.take(k as int));
        let c = carts[k];
        let ghost before = out@;
        let mut p: usize = out.len();
        assert(before.take(p as int) == before);
        assert(before.skip(p as int) =~= seq![]);
        assert(placed(before, c) =~= placed(before.take(p as int), c) + before.skip(p as int));
        while p > 0 && !(out[p - 1].position.1 < c.position.1 || (out[p - 1].position.1
            == c.position.1 && out[p - 1].position.0 <= c.position.0))
            invariant
                p <= out.len(),
                out@ == before,
                placed(before, c) == placed(before.take(p as int), c) + before.skip(p as int),
            decreases p,
        {
            assert(before.take(p as int).drop_last() == before.take(p - 1));
            assert(before.take(p as int).last() == before[p - 1]);
            assert(placed(before.take(p - 1), c).push(before[p - 1]) + before.skip(p as int)
                =~= placed(before.take(p - 1), c) + before.skip(p - 1));
            p -= 1;
        }
        proof {
            if p > 0 {
                assert(before.take(p as int).last() == before[p - 1]);
                assert(placed(before.take(p as int), c) == before.take(p as int).push(c));
            } else {
                assert(before.take(0) =~= seq![]);
            }
            assert(before.take(p as int).push(c) + before.skip(p as int) =~= before.insert(
                p as int,
                c,
            ));
            if all_turnable(carts@) {
                assert(turnable(carts@[k as int]));
                placed_turnable(before, c);
            }
        }
        out.insert(p, c);
        k += 1;
    }
    assert(carts@.take(carts.len() as int) == carts@);
    out
}

impl Track {
    /// The rows of the track as plain values.
    pub open spec fn rows(&self) -> Seq<Seq<char>> {
        views(self.map@)
    }

    /// The track and the carts that the input draws. The carts stay drawn on
    /// the track.
    pub fn new(input: &str) -> (t: Track)
        ensures
            t.rows() == lines(input@),
            t.carts@ == carts_of(lines(input@), lines(input@).len()),
            all_turnable(t.carts@),
    {
        let chars = chars_of(input);
        let map = lines_of(&chars);
        let mut carts: Vec<Cart> = Vec::new();
        let mut y: usize = 0;
        while y < map.len()
            invariant
                y <= map.len(),
                carts@ == carts_of(views(map@), y as nat),
                all_turnable(carts@),
            decreases map.len() - y,
        {
            let row = &map[y];
            assert(views(map@)[y as int] == row@);
            let mut x: usize = 0;
            while x < row.len()
                invariant
                    x <= row.len(),
                    y < map.len(),
                    views(map@)[y as int] == row@,
                    carts@ == carts_in_row(carts_of(views(map@), y as nat), row@, y, x as nat),
                    all_turnable(carts@),
                decreases row.len() - x,
            {
                let c = row[x];
                let found: Option<(isize, isize)> = if c == 'v' {
                    Some((0, 1))
                } else if c == '^' {
                    Some((0, -1))
                } else if c == '<' {
                    Some((-1, 0))
                } else if c == '>' {
                    Some((1, 0))
                } else {
                    None
                };
                match found {
                    Some(d) => {
                        let ghost before = carts@;
                        carts.push(Cart::new(carts.len(), x, y, d));
                        assert forall|i: int| 0 <= i < carts.len() implies turnable(
                            #[trigger] carts[i],
                        ) by {
                            if i < before.len() {
                                assert(turnable(before[i]));
                            }
                        }
                    },
                    None => {},
                }
                x += 1;
            }
            y += 1;
        }
        Track { map, carts }
    }
}

/// The piece of track at column `x`, row `y`, if the track reaches there.
pub open spec fn piece(map: Seq<Seq<char>>, x: int, y: int) -> Option<char> {
    if 0 <= y < map.len() && 0 <= x < map[y].len() {
        Some(map[y][x])
    } else {
        None
    }
}

/// The carts in the middle of a tick: the carts, the numbers of those that
/// have crashed, and the places of the crashes so far.
pub struct Run {
    pub carts: Seq<Cart>,
    pub dead: Set<usize>,
    pub crashes: Seq<(usize, usize)>,
}

/// The first of the first `n` carts that stands where cart `i` stands, is
/// another cart, and has not crashed.
pub open spec fn hit(carts: Seq<Cart>, dead: Set<usize>, i: int, n: nat) -> Option<int>
    decreases n,
{
    if n == 0 {
        None
    } else {
        match hit(carts, dead, i, (n - 1) as nat) {
            Some(j) => Some(j),
            None => if carts[n - 1].position == carts[i].position && carts[n - 1].id != carts[i].id
                && !dead.contains(carts[n - 1].id) {
                Some(n - 1)
            } else {
                None
            },
        }
    }
}

/// The turn of cart `i`: a crashed cart does nothing; any other moves one
/// step, takes the piece of track it reaches, and crashes with the first
/// other cart on its new place that has not crashed. `None` where the step
/// cannot be computed, the cart leaves the track, or it has met as many
/// crossings as a `usize` counts.
pub open spec fn drive(map: Seq<Seq<char>>, r: Run, i: int) -> Option<Run> {
    let c = r.carts[i];
    if r.dead.contains(c.id) {
        Some(r)
    } else if shifted(c.position.0, c.direction.0) is None || shifted(
        c.position.1,
        c.direction.1,
    ) is None {
        None
    } else {
        let x = shifted(c.position.0, c.direction.0).unwrap();
        let y = shifted(c.position.1, c.direction.1).unwrap();
        match piece(map, x as int, y as int) {
            Some(t) => if t == '+' && c.step == usize::MAX {
                None
            } else {
                let m = turned(Cart { position: (x, y), ..c }, t);
                let carts = r.carts.update(i, m);
                match hit(carts, r.dead, i, carts.len()) {
                    Some(j) => Some(
                        Run {
                            carts,
                            dead: r.dead.insert(carts[j].id).insert(m.id),
                            crashes: r.crashes.push(carts[j].position),
                        },
                    ),
                    None => Some(Run { carts, dead: r.dead, crashes: r.crashes }),
                }
            },
            None => None,
        }
    }
}

/// The tick after the turns of the first `n` carts.
pub open spec fn driven(map: Seq<Seq<char>>, carts: Seq<Cart>, n: nat) -> Option<Run>
    decreases n,
{
    if n == 0 {
        Some(Run { carts, dead: Set::empty(), crashes: seq![] })
    } else {
        match driven(map, carts, (n - 1) as nat) {
            Some(r) => drive(map, r, n - 1),
            None => None,
        }
    }
}

/// The carts whose numbers are not among the crashed, in order.
pub open spec fn survivors(carts: Seq<Cart>, dead: Set<usize>) -> Seq<Cart>
    decreases carts.len(),
{
    if carts.len() == 0 {
        seq![]
    } else if dead.contains(carts.last().id) {
        survivors(carts.drop_last(), dead)
    } else {
        survivors(carts.drop_last(), dead).push(carts.last())
    }
}

/// One tick: the carts take their turns in the order of their places; the
/// crashed carts are then taken off. Gives the carts left and the places of
/// the crashes in the order they happened.
pub open spec fn tick(map: Seq<Seq<char>>, carts: Seq<Cart>) -> Option<
    (Seq<Cart>, Seq<(usize, usize)>),
> {
    match driven(map, arranged(carts), carts.len()) {
        Some(r) => Some((survivors(r.carts, r.dead), r.crashes)),
        None => None,
    }
}

/// The first cart that stands where cart `i` stands, is another cart, and has
/// not crashed.
pub fn find_hit(carts: &Vec<Cart>, dead: &HashSet<usize>, i: usize) -> (r: Option<usize>)
    requires
        i < carts.len(),
    ensures
        match r {
            Some(j) => hit(carts@, dead@, i as int, carts.len() as nat) == Some(j as int) && j
                < carts.len(),
            None => hit(carts@, dead@, i as int, carts.len() as nat) is None,
        },
{
    broadcast use vstd::std_specs::hash::group_hash_axioms;

    let mut j: usize = 0;
    while j < carts.len()
        invariant
            j <= carts.len(),
            i < carts.len(),
            hit(carts@, dead@, i as int, j as nat) is None,
        decreases carts.len() - j,
    {
        if carts[j].position.0 == carts[i].position.0 && carts[j].position.1 == carts[i].position.1
            && carts[j].id != carts[i].id && !dead.contains(&carts[j].id) {
            proof {
                hit_stays(carts@, dead@, i as int, (j + 1) as nat, carts.len() as nat);
            }
            return Some(j);
        }
        j += 1;
    }
    None
}

/// A cart hit among the first `k` is the cart hit among more.
pub proof fn hit_stays(carts: Seq<Cart>, dead: Set<usize>, i: int, k: nat, n: nat)
    requires
        k <= n,
        hit(carts, dead, i, k) is Some,
    ensures
        hit(carts, dead, i, n) == hit(carts, dead, i, k),
    decreases n - k,
{
    if k < n {
        hit_stays(carts, dead, i, k, (n - 1) as nat);
    }
}

/// The carts whose numbers are not among the crashed.
pub fn keep_alive(carts: &Vec<Cart>, dead: &HashSet<usize>) -> (r: Vec<Cart>)
    ensures
        r@ == survivors(carts@, dead@),
        all_turnable(carts@) ==> all_turnable(r@),
{
    broadcast use vstd::std_specs::hash::group_hash_axioms;

    let mut out: Vec<Cart> = Vec::new();
    let mut i: usize = 0;
    assert(carts@.take(0) =~= seq![]);
    while i < carts.len()
        invariant
            i <= carts.len(),
            out@ == survivors(carts@.take(i as int), dead@),
            all_turnable(carts@) ==> all_turnable(out@),
        decreases carts.len() - i,
    {
        assert(carts@.take(i + 1).drop_last() == carts@.take(i as int));
        if !dead.contains(&carts[i].id) {
            let ghost before = out@;
            out.push(carts[i]);
            assert(all_turnable(carts@) ==> all_turnable(out@)) by {
                if all_turnable(carts@) {
                    assert(turnable(carts@[i as int]));
                    assert forall|k: int| 0 <= k < out.len() implies turnable(#[trigger] out[k]) by {
                        if k < before.len() {
                            assert(turnable(before[k]));
                        }
                    }
                }
            }
        }
        i += 1;
    }
    assert(carts@.take(carts.len() as int) == carts@);
    out
}

/// Once a cart's turn cannot be taken, the tick cannot be.
pub proof fn stalled_stays(map: Seq<Seq<char>>, carts: Seq<Cart>, k: nat, n: nat)
    requires
        k <= n,
        driven(map, carts, k) is None,
    ensures
        driven(map, carts, n) is None,
    decreases n - k,
{
    if k < n {
        stalled_stays(map, carts, k, (n - 1) as nat);
    }
}

impl Track {
    /// One tick. Gives the places of the crashes in the order they happened,
    /// or `None` where a cart leaves the track or has met as many crossings
    /// as a `usize` counts.
    pub fn step(&mut self) -> (r: Option<Vec<(usize, usize)>>)
        requires
            all_turnable(old(self).carts@),
        ensures
            final(self).map == old(self).map,
            match tick(old(self).rows(), old(self).carts@) {
                Some(t) => r is Some && r.unwrap()@ == t.1 && final(self).carts@ == t.0
                    && all_turnable(final(self).carts@),
                None => r is None,
            },
    {
        broadcast use vstd::std_specs::hash::group_hash_axioms;

        let ghost map = self.rows();
        let ghost start = arranged(self.carts@);
        let mut carts = arrange(&self.carts);
        let n: usize = carts.len();
        let mut dead: HashSet<usize> = HashSet::new();
        let mut crashes: Vec<(usize, usize)> = Vec::new();
        let mut i: usize = 0;
        while i < n
            invariant
                i <= n,
                n == carts.len(),
                n == old(self).carts.len(),
                *self == *old(self),
                map == self.rows(),
                start == arranged(old(self).carts@),
                all_turnable(carts@),
                driven(map, start, i as nat) == Some(
                    Run { carts: carts@, dead: dead@, crashes: crashes@ },
                ),
            decreases n - i,
        {
            let c = carts[i];
            assert(turnable(c));
            if !dead.contains(&c.id) {
                if shift(c.position.0, c.direction.0).is_none() || shift(
                    c.position.1,
                    c.direction.1,
                ).is_none() {
                    proof {
                        stalled_stays(map, start, (i + 1) as nat, n as nat);
                    }
                    return None;
                }
                let mut m = c;
                m.step();
                let (x, y) = m.position;
                if y >= self.map.len() || x >= self.map[y].len() {
                    proof {
                        stalled_stays(map, start, (i + 1) as nat, n as nat);
                    }
                    return None;
                }
                assert(map[y as int] == self.map[y as int]@);
                let t = self.map[y][x];
                if t == '+' && m.step == usize::MAX {
                    proof {
                        stalled_stays(map, start, (i + 1) as nat, n as nat);
                    }
                    return None;
                }
                assert(m == (Cart { position: (x, y), ..c }));
                m.flip_maybe(t);
                let ghost before = carts@;
                carts[i] = m;
                assert(carts@ == before.update(i as int, m));
                assert forall|k: int| 0 <= k < carts.len() implies turnable(#[trigger] carts[k]) by {
                    if k != i {
                        assert(turnable(before[k]));
                    }
                }
                match find_hit(&carts, &dead, i) {
                    Some(j) => {
                        crashes.push(carts[j].position);
                        dead.insert(carts[j].id);
                        dead.insert(m.id);
                    },
                    None => {},
                }
            }
            i += 1;
        }
        self.carts = keep_alive(&carts, &dead);
        Some(crashes)
    }
}

/// The carts after `n` ticks without a crash.
pub open spec fn quiet(map: Seq<Seq<char>>, carts: Seq<Cart>, n: nat) -> Option<Seq<Cart>>
    decreases n,
{
    if n == 0 {
        Some(carts)
    } else {
        match quiet(map, carts, (n - 1) as nat) {
            Some(c) => match tick(map, c) {
                Some(t) => if t.1.len() == 0 {
                    Some(t.0)
                } else {
                    None
                },
                None => None,
            },
            None => None,
        }
    }
}

/// After `n` ticks without a crash, the next tick has a crash or cannot be
/// taken.
pub open spec fn stops_at(map: Seq<Seq<char>>, carts: Seq<Cart>, n: nat) -> bool {
    quiet(map, carts, n) is Some && (tick(map, quiet(map, carts, n).unwrap()) is None || tick(
        map,
        quiet(map, carts, n).unwrap(),
    ).unwrap().1.len() > 0)
}

/// The place of the first crash, column and row with a comma between them.
/// `None` where a tick cannot be taken before any crash, or no crash has
/// happened after as many ticks as a `usize` counts.
pub open spec fn crash_answer(map: Seq<Seq<char>>, carts: Seq<Cart>) -> Option<Seq<char>> {
    if exists|n: nat| n <= usize::MAX && stops_at(map, carts, n) {
        let n = choose|n: nat| n <= usize::MAX && stops_at(map, carts, n);
        match tick(map, quiet(map, carts, n).unwrap()) {
            Some(t) => Some(pair_text(t.1[0].0 as nat, t.1[0].1 as nat)),
            None => None,
        }
    } else {
        None
    }
}

/// The ticks without a crash end at most once.
pub proof fn stop_is_unique(map: Seq<Seq<char>>, carts: Seq<Cart>, a: nat, b: nat)
    requires
        stops_at(map, carts, a),
        quiet(map, carts, b) is Some,
    ensures
        b <= a,
    decreases b,
{
    if b > a {
        if b - 1 > a {
            stop_is_unique(map, carts, a, (b - 1) as nat);
        }
    }
}

/// The place of the first crash, column and row with a comma between them.
/// The carts move tick by tick until two of them meet. `None` where a cart
/// leaves the track first or has met as many crossings as a `usize` counts,
/// or no carts have met after as many ticks as a `usize` counts.
pub fn part1(input: &str) -> (r: Option<(String, ())>)
    ensures
        (match r {
            Some((s, _)) => Some(s@),
            None => None,
        }) == crash_answer(lines(input@), carts_of(lines(input@), lines(input@).len())),
{
    let mut track = Track::new(input);
    let ghost map = lines(input@);
    let ghost start = track.carts@;
    let mut ticks: usize = 0;
    loop
        invariant
            map == lines(input@),
            start == carts_of(map, map.len()),
            track.rows() == map,
            all_turnable(track.carts@),
            quiet(map, start, ticks as nat) == Some(track.carts@),
        decreases usize::MAX - ticks,
    {
        match track.step() {
            Some(crashes) => {
                if crashes.len() > 0 {
                    proof {
                        assert(ticks <= usize::MAX && stops_at(map, start, ticks as nat));
                        let n = choose|n: nat| n <= usize::MAX && stops_at(map, start, n);
                        stop_is_unique(map, start, ticks as nat, n);
                        stop_is_unique(map, start, n, ticks as nat);
                    }
                    return Some((pair_string(crashes[0].0, crashes[0].1), ()));
                }
                if ticks == usize::MAX {
                    proof {
                        assert forall|n: nat| !(n <= usize::MAX && stops_at(map, start, n)) by {
                            if n <= usize::MAX && stops_at(map, start, n) {
                                stop_is_unique(map, start, n, (ticks + 1) as nat);
                            }
                        }
                    }
                    return None;
                }
                ticks += 1;
            },
            None => {
                proof {
                    assert(ticks <= usize::MAX && stops_at(map, start, ticks as nat));
                    let n = choose|n: nat| n <= usize::MAX && stops_at(map, start, n);
                    stop_is_unique(map, start, ticks as nat, n);
                    stop_is_unique(map, start, n, ticks as nat);
                }
                return None;
            },
        }
    }
}

/// The carts after `n` ticks, none of them taken with a single cart left.
pub open spec fn raced(map: Seq<Seq<char>>, carts: Seq<Cart>, n: nat) -> Option<Seq<Cart>>
    decreases n,
{
    if n == 0 {
        Some(carts)
    } else {
        match raced(map, carts, (n - 1) as nat) {
            Some(c) => if c.len() != 1 {
                match tick(map, c) {
                    Some(t) => Some(t.0),
                    None => None,
                }
            } else {
                None
            },
            None => None,
        }
    }
}

/// After `n` ticks a single cart is left, or the next tick cannot be taken.
pub open spec fn settles_at(map: Seq<Seq<char>>, carts: Seq<Cart>, n: nat) -> bool {
    raced(map, carts, n) is Some && (raced(map, carts, n).unwrap().len() == 1 || tick(
        map,
        raced(map, carts, n).unwrap(),
    ) is None)
}

/// The place of the single cart left, column and row with a comma between
/// them. `None` where a tick cannot be taken before that, or more or fewer
/// carts are left after as many ticks as a `usize` counts.
pub open spec fn last_answer(map: Seq<Seq<char>>, carts: Seq<Cart>) -> Option<Seq<char>> {
    if exists|n: nat| n <= usize::MAX && settles_at(map, carts, n) {
        let n = choose|n: nat| n <= usize::MAX && settles_at(map, carts, n);
        let c = raced(map, carts, n).unwrap();
        if c.len() == 1 {
            Some(pair_text(c[0].position.0 as nat, c[0].position.1 as nat))
        } else {
            None
        }
    } else {
        None
    }
}

/// The ticks end at most once.
pub proof fn settling_is_unique(map: Seq<Seq<char>>, carts: Seq<Cart>, a: nat, b: nat)
    requires
        settles_at(map, carts, a),
        raced(map, carts, b) is Some,
    ensures
        b <= a,
    decreases b,
{
    if b > a {
        if b - 1 > a {
            settling_is_unique(map, carts, a, (b - 1) as nat);
        }
    }
}

/// The place of the last cart, column and row with a comma between them.
/// The carts move tick by tick, and crashed carts are taken off, until a
/// single cart is left. `None` where a cart leaves the track first or has
/// met as many crossings as a `usize` counts, or there is no single cart
/// after as many ticks as a `usize` counts.
pub fn part2(input: &str, _unit: ()) -> (r: Option<String>)
    ensures
        opt_view(r) == last_answer(lines(input@), carts_of(lines(input@), lines(input@).len())),
{
    let mut track = Track::new(input);
    let ghost map = lines(input@);
    let ghost start = track.carts@;
    let mut ticks: usize = 0;
    while track.carts.len() != 1
        invariant
            map == lines(input@),
            start == carts_of(map, map.len()),
            track.rows() == map,
            all_turnable(track.carts@),
            raced(map, start, ticks as nat) == Some(track.carts@),
        decreases usize::MAX - ticks,
    {
        match track.step() {
            Some(_) => {
                if ticks == usize::MAX {
                    proof {
                        assert forall|n: nat| !(n <= usize::MAX && settles_at(map, start, n)) by {
                            if n <= usize::MAX && settles_at(map, start, n) {
                                settling_is_unique(map, start, n, (ticks + 1) as nat);
                            }
                        }
                    }
                    return None;
                }
                ticks += 1;
            },
            None => {
                proof {
                    assert(ticks <= usize::MAX && settles_at(map, start, ticks as nat));
                    let n = choose|n: nat| n <= usize::MAX && settles_at(map, start, n);
                    settling_is_unique(map, start, ticks as nat, n);
                    settling_is_unique(map, start, n, ticks as nat);
                }
                return None;
            },
        }
    }
    proof {
        assert(ticks <= usize::MAX && settles_at(map, start, ticks as nat));
        let n = choose|n: nat| n <= usize::MAX && settles_at(map, start, n);
        settling_is_unique(map, start, ticks as nat, n);
        settling_is_unique(map, start, n, ticks as nat);
    }
    let last_cart = &track.carts[0];
    Some(pair_string(last_cart.position.0, last_cart.position.1))
}

} // verus!
