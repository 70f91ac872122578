//! Points on a grid: the largest area that is nearest to one point and does
//! not run off to infinity, and the size of the region near all points.

use crate::tally::{count_in_box, count_in_column, partial_count_bounded};
use crate::text::{as_usize, chars_of, decimal, lines, lines_of, read_usize, split, split_text,
    usize_string, views, opt_view};
use crate::tally::to_signed;
use vstd::prelude::*;

verus! {

/// The rectangle that was surveyed, columns then rows, each from its first
/// to one past its last, and the points.
pub type Out = ((usize, usize), (usize, usize), Vec<(usize, usize)>);

/// The coordinate as the signed number that the same bits write.
pub open spec fn sg(v: int) -> int {
    if v <= isize::MAX {
        v
    } else {
        v - usize::MAX - 1
    }
}

/// The distance between two places when only steps along the axes count,
/// their coordinates taken as signed numbers.
pub open spec fn dist(a: (int, int), b: (int, int)) -> nat {
    ((if sg(a.0) >= sg(b.0) {
        sg(a.0) - sg(b.0)
    } else {
        sg(b.0) - sg(a.0)
    }) + (if sg(a.1) >= sg(b.1) {
        sg(a.1) - sg(b.1)
    } else {
        sg(b.1) - sg(a.1)
    })) as nat
}

/// The distance between the two places can be computed in an `isize`: the
/// differences of the coordinates, their sizes, and the sum of those.
pub open spec fn computable(a: (int, int), b: (int, int)) -> bool {
    &&& isize::MIN < sg(a.0) - sg(b.0) <= isize::MAX
    &&& isize::MIN < sg(a.1) - sg(b.1) <= isize::MAX
    &&& dist(a, b) <= isize::MAX
}

/// The distance from the square at column `x`, row `y` to every point can be
/// computed.
pub open spec fn measured(points: Seq<(usize, usize)>, x: int, y: int) -> bool {
    forall|j: int| 0 <= j < points.len() ==> #[trigger] computable((x, y), at(points, j))
}

/// The distance from every square of the rectangle to every point can be
/// computed.
pub open spec fn all_measured(points: Seq<(usize, usize)>, b: Bounds) -> bool {
    forall|x: int, y: int|
        b.min_x <= x < b.max_x && b.min_y <= y < b.max_y ==> #[trigger] measured(points, x, y)
}

/// Point `i` as a pair of integers.
pub open spec fn at(points: Seq<(usize, usize)>, i: int) -> (int, int) {
    (points[i].0 as int, points[i].1 as int)
}

/// Point `i` is strictly nearer to `p` than every other point.
pub open spec fn is_nearest(p: (int, int), points: Seq<(usize, usize)>, i: int) -> bool {
    0 <= i < points.len() && forall|j: int|
        0 <= j < points.len() && j != i ==> dist(p, at(points, i)) < #[trigger] dist(
            p,
            at(points, j),
        )
}

/// The point strictly nearest to `p`, if there is one.
pub open spec fn nearest(p: (int, int), points: Seq<(usize, usize)>) -> Option<int> {
    if exists|i: int| is_nearest(p, points, i) {
        Some(choose|i: int| is_nearest(p, points, i))
    } else {
        None
    }
}

/// The squares that are strictly nearest to point `i`.
pub open spec fn owned_by(points: Seq<(usize, usize)>, i: int) -> spec_fn(int, int) -> bool {
    |x: int, y: int| nearest((x, y), points) == Some(i)
}

/// The surveyed rectangle.
pub struct Bounds {
    pub min_x: int,
    pub max_x: int,
    pub min_y: int,
    pub max_y: int,
}

/// How many squares of the rectangle are strictly nearest to point `i`.
pub open spec fn area(points: Seq<(usize, usize)>, i: int, b: Bounds) -> nat {
    count_in_box(owned_by(points, i), b.min_x, b.max_x, b.min_y, b.max_y)
}

/// Some square on the edge of the rectangle is strictly nearest to point `i`.
pub open spec fn touches_edge(points: Seq<(usize, usize)>, i: int, b: Bounds) -> bool {
    exists|x: int, y: int|
        b.min_x <= x < b.max_x && b.min_y <= y < b.max_y && (x == b.min_x || x == b.max_x - 1 || y
            == b.min_y || y == b.max_y - 1) && #[trigger] nearest((x, y), points) == Some(i)
}

/// Point `i` has an area that counts: not empty, and not touching the edge.
pub open spec fn counts(points: Seq<(usize, usize)>, i: int, b: Bounds) -> bool {
    area(points, i, b) > 0 && !touches_edge(points, i, b)
}

/// The largest area that counts among those of the first `n` points.
pub open spec fn largest(points: Seq<(usize, usize)>, b: Bounds, n: nat) -> Option<nat>
    decreases n,
{
    if n == 0 {
        None
    } else {
        let before = largest(points, b, (n - 1) as nat);
        if counts(points, n - 1, b) && (before is None || before.unwrap() < area(
            points,
            n - 1,
            b,
        )) {
            Some(area(points, n - 1, b))
        } else {
            before
        }
    }
}

/// The least first coordinate among the points; there is at least one.
pub open spec fn least_x(points: Seq<(usize, usize)>) -> int
    decreases points.len(),
{
    if points.len() <= 1 {
        points[0].0 as int
    } else if points.last().0 < least_x(points.drop_last()) {
        points.last().0 as int
    } else {
        least_x(points.drop_last())
    }
}

/// The greatest first coordinate among the points.
pub open spec fn greatest_x(points: Seq<(usize, usize)>) -> int
    decreases points.len(),
{
    if points.len() <= 1 {
        points[0].0 as int
    } else if points.last().0 > greatest_x(points.drop_last()) {
        points.last().0 as int
    } else {
        greatest_x(points.drop_last())
    }
}

/// The least second coordinate among the points.
pub open spec fn least_y(points: Seq<(usize, usize)>) -> int
    decreases points.len(),
{
    if points.len() <= 1 {
        points[0].1 as int
    } else if points.last().1 < least_y(points.drop_last()) {
        points.last().1 as int
    } else {
        least_y(points.drop_last())
    }
}

/// The greatest second coordinate among the points.
pub open spec fn greatest_y(points: Seq<(usize, usize)>) -> int
    decreases points.len(),
{
    if points.len() <= 1 {
        points[0].1 as int
    } else if points.last().1 > greatest_y(points.drop_last()) {
        points.last().1 as int
    } else {
        greatest_y(points.drop_last())
    }
}

/// The rectangle surveyed for the points: one column more on the left, two
/// on the right, one row more above and one below. There is none for fewer
/// than two points, for a coordinate of zero, or where a greatest coordinate
/// and its margin do not fit in a `usize`.
pub open spec fn bounds_of(points: Seq<(usize, usize)>) -> Option<Bounds> {
    if points.len() >= 2 && least_x(points) >= 1 && least_y(points) >= 1 && greatest_x(points) + 2
        <= usize::MAX && greatest_y(points) + 1 <= usize::MAX {
        Some(
            Bounds {
                min_x: least_x(points) - 1,
                max_x: greatest_x(points) + 2,
                min_y: least_y(points) - 1,
                max_y: greatest_y(points) + 1,
            },
        )
    } else {
        None
    }
}

/// The point that a line writes: two numbers with a comma and a space
/// between them; what follows a second such separator is ignored.
pub open spec fn point_of_line(line: Seq<char>) -> Option<(usize, usize)> {
    let parts = split(line, seq![',', ' ']);
    if parts.len() >= 2 && as_usize(parts[0]) is Some && as_usize(parts[1]) is Some {
        Some((as_usize(parts[0]).unwrap(), as_usize(parts[1]).unwrap()))
    } else {
        None
    }
}

/// The points that the lines write, if every line writes one.
pub open spec fn points_of(ls: Seq<Seq<char>>) -> Option<Seq<(usize, usize)>> {
    if forall|i: int| 0 <= i < ls.len() ==> (#[trigger] point_of_line(ls[i])) is Some {
        Some(Seq::new(ls.len(), |i: int| point_of_line(ls[i]).unwrap()))
    } else {
        None
    }
}

/// The largest area that counts, in decimal, where the points have a
/// surveyed rectangle, every distance within it can be computed, every area
/// fits in an `i32`, and some area counts.
pub open spec fn largest_answer(points: Seq<(usize, usize)>) -> Option<Seq<char>> {
    match bounds_of(points) {
        Some(b) => if all_measured(points, b) && forall|i: int|
            0 <= i < points.len() ==> area(points, i, b) <= i32::MAX {
            match largest(points, b, points.len()) {
                Some(a) => Some(decimal(a)),
                None => None,
            }
        } else {
            None
        },
        None => None,
    }
}

/// The sum of the distances from `p` to the first `n` points.
pub open spec fn total_distance(p: (int, int), points: Seq<(usize, usize)>, n: nat) -> nat
    decreases n,
{
    if n == 0 {
        0
    } else {
        total_distance(p, points, (n - 1) as nat) + dist(p, at(points, n - 1))
    }
}

/// The squares whose distances to all points sum to less than ten thousand.
pub open spec fn is_near(points: Seq<(usize, usize)>) -> spec_fn(int, int) -> bool {
    |x: int, y: int| total_distance((x, y), points, points.len()) < 10000
}

/// The distances from the square at column `x`, row `y` to all points can be
/// computed, and their sum fits in a `usize`.
pub open spec fn summed(points: Seq<(usize, usize)>, x: int, y: int) -> bool {
    measured(points, x, y) && total_distance((x, y), points, points.len()) <= usize::MAX
}

/// Every square of the rectangle has distances that can be computed and
/// whose sum fits in a `usize`.
pub open spec fn sums_fit(points: Seq<(usize, usize)>, b: Bounds) -> bool {
    forall|x: int, y: int|
        b.min_x <= x < b.max_x && b.min_y <= y < b.max_y ==> #[trigger] summed(points, x, y)
}

/// The number of squares of the rectangle that are near, in decimal, where
/// all distances can be computed, their sums fit in a `usize` and the number
/// itself in an `i32`.
pub open spec fn region_answer(points: Seq<(usize, usize)>, b: Bounds) -> Option<Seq<char>> {
    let size = count_in_box(is_near(points), b.min_x, b.max_x, b.min_y, b.max_y);
    if sums_fit(points, b) && size <= i32::MAX {
        Some(decimal(size))
    } else {
        None
    }
}

/// The distance between two places when only steps along the axes count,
/// their coordinates taken as signed numbers.
pub fn manhattan(a: (usize, usize), b: (usize, usize)) -> (r: usize)
    requires
        computable((a.0 as int, a.1 as int), (b.0 as int, b.1 as int)),
    ensures
        r == dist((a.0 as int, a.1 as int), (b.0 as int, b.1 as int)),
{
    let dx: isize = to_signed(a.0) - to_signed(b.0);
    let dy: isize = to_signed(a.1) - to_signed(b.1);
    let wide: isize = if dx < 0 {
        -dx
    } else {
        dx
    };
    let high: isize = if dy < 0 {
        -dy
    } else {
        dy
    };
    (wide + high) as usize
}

/// Whether the distance between two places can be computed.
pub fn can_compute(a: (usize, usize), b: (usize, usize)) -> (r: bool)
    ensures
        r == computable((a.0 as int, a.1 as int), (b.0 as int, b.1 as int)),
{
    let dx = match to_signed(a.0).checked_sub(to_signed(b.0)) {
        Some(d) => d,
        None => {
            return false;
        },
    };
    let dy = match to_signed(a.1).checked_sub(to_signed(b.1)) {
        Some(d) => d,
        None => {
            return false;
        },
    };
    if dx == isize::MIN || dy == isize::MIN {
        return false;
    }
    let wide: isize = if dx < 0 {
        -dx
    } else {
        dx
    };
    let high: isize = if dy < 0 {
        -dy
    } else {
        dy
    };
    wide.checked_add(high).is_some()
}

/// Whether the distance from `point` to every point can be computed.
pub fn can_measure(point: (usize, usize), points: &Vec<(usize, usize)>) -> (r: bool)
    ensures
        r == measured(points@, point.0 as int, point.1 as int),
{
    let mut j: usize = 0;
    while j < points.len()
        invariant
            j <= points.len(),
            forall|k: int|
                0 <= k < j ==> #[trigger] computable(
                    (point.0 as int, point.1 as int),
                    at(points@, k),
                ),
        decreases points.len() - j,
    {
        if !can_compute(point, points[j]) {
            assert(!computable((point.0 as int, point.1 as int), at(points@, j as int)));
            return false;
        }
        j += 1;
    }
    true
}

/// At most one point is strictly nearest.
pub proof fn nearest_is_unique(p: (int, int), points: Seq<(usize, usize)>, i: int)
    requires
        is_nearest(p, points, i),
    ensures
        nearest(p, points) == Some(i),
{
    let other = choose|k: int| is_nearest(p, points, k);
    if other != i {
        assert(dist(p, at(points, i)) < dist(p, at(points, other)));
        assert(dist(p, at(points, other)) < dist(p, at(points, i)));
    }
}

/// The index of the point strictly nearest to `point`, if there is one.
pub fn closest_point(point: (usize, usize), points: &Vec<(usize, usize)>) -> (r: Option<usize>)
    requires
        points.len() >= 2,
        measured(points@, point.0 as int, point.1 as int),
    ensures
        match r {
            Some(i) => nearest((point.0 as int, point.1 as int), points@) == Some(i as int),
            None => nearest((point.0 as int, point.1 as int), points@) is None,
        },
{
    let ghost p = (point.0 as int, point.1 as int);
    let mut best: usize = 0;
    assert(computable(p, at(points@, 0)));
    let mut shortest: usize = manhattan(point, points[0]);
    let mut tied: bool = false;
    let ghost mut twin: int = 0;
    let mut k: usize = 1;
    while k < points.len()
        invariant
            1 <= k <= points.len(),
            p == (point.0 as int, point.1 as int),
            best < k,
            shortest == dist(p, at(points@, best as int)),
            forall|j: int| 0 <= j < k ==> shortest <= #[trigger] dist(p, at(points@, j)),
            measured(points@, p.0, p.1),
            tied ==> 0 <= twin < k && twin != best && dist(p, at(points@, twin)) == shortest,
            !tied ==> forall|j: int|
                0 <= j < k && j != best ==> shortest < #[trigger] dist(p, at(points@, j)),
        decreases points.len() - k,
    {
        assert(computable(p, at(points@, k as int)));
        let d = manhattan(point, points[k]);
        if d < shortest {
            best = k;
            shortest = d;
            tied = false;
        } else if d == shortest {
            tied = true;
            proof {
                twin = k as int;
            }
        }
        k += 1;
    }
    if tied {
        proof {
            if exists|i: int| is_nearest(p, points@, i) {
                let i = choose|i: int| is_nearest(p, points@, i);
                if i == best {
                    assert(dist(p, at(points@, i)) < dist(p, at(points@, twin)));
                } else {
                    assert(dist(p, at(points@, i)) < dist(p, at(points@, best as int)));
                    assert(shortest <= dist(p, at(points@, i)));
                }
            }
        }
        None
    } else {
        proof {
            assert(is_nearest(p, points@, best as int));
            nearest_is_unique(p, points@, best as int);
        }
        Some(best)
    }
}

/// Reads one point.
pub fn parse_point(line: &Vec<char>) -> (r: Option<(usize, usize)>)
    ensures
        r == point_of_line(line@),
{
    let mut sep: Vec<char> = Vec::new();
    sep.push(',');
    sep.push(' ');
    assert(sep@ =~= seq![',', ' ']);
    let parts = split_text(line, &sep);
    if parts.len() < 2 {
        return None;
    }
    assert(views(parts@)[0] == parts[0]@);
    assert(views(parts@)[1] == parts[1]@);
    match (read_usize(&parts[0]), read_usize(&parts[1])) {
        (Some(x), Some(y)) => Some((x, y)),
        _ => None,
    }
}

/// Reads one point from each line.
pub fn parse(ls: &Vec<Vec<char>>) -> (r: Option<Vec<(usize, usize)>>)
    ensures
        match r {
            Some(ps) => points_of(views(ls@)) == Some(ps@),
            None => points_of(views(ls@)) is None,
        },
{
    let mut ps: Vec<(usize, usize)> = Vec::new();
    let mut i: usize = 0;
    while i < ls.len()
        invariant
            i <= ls.len(),
            ps.len() == i,
            forall|j: int| 0 <= j < i ==> #[trigger] point_of_line(views(ls@)[j]) == Some(ps[j]),
        decreases ls.len() - i,
    {
        assert(views(ls@)[i as int] == ls[i as int]@);
        match parse_point(&ls[i]) {
            Some(p) => ps.push(p),
            None => {
                return None;
            },
        }
        i += 1;
    }
    assert(ps@ =~= Seq::new(views(ls@).len(), |i: int| point_of_line(views(ls@)[i]).unwrap()));
    Some(ps)
}

/// The rectangle to survey for the points.
pub fn survey(points: &Vec<(usize, usize)>) -> (r: Option<((usize, usize), (usize, usize))>)
    ensures
        match r {
            Some(b) => bounds_of(points@) == Some(bounds(b.0, b.1)),
            None => bounds_of(points@) is None,
        },
{
    if points.len() < 2 {
        return None;
    }
    let mut lx: usize = points[0].0;
    let mut gx: usize = points[0].0;
    let mut ly: usize = points[0].1;
    let mut gy: usize = points[0].1;
    let mut k: usize = 1;
    assert(points@.take(1)[0] == points[0]);
    while k < points.len()
        invariant
            1 <= k <= points.len(),
            lx == least_x(points@.take(k as int)),
            gx == greatest_x(points@.take(k as int)),
            ly == least_y(points@.take(k as int)),
            gy == greatest_y(points@.take(k as int)),
        decreases points.len() - k,
    {
        assert(points@.take(k + 1).drop_last() == points@.take(k as int));
        let p = points[k];
        if p.0 < lx {
            lx = p.0;
        }
        if p.0 > gx {
            gx = p.0;
        }
        if p.1 < ly {
            ly = p.1;
        }
        if p.1 > gy {
            gy = p.1;
        }
        k += 1;
    }
    assert(points@.take(points.len() as int) == points@);
    if lx < 1 || ly < 1 || gx > usize::MAX - 2 || gy > usize::MAX - 1 {
        return None;
    }
    Some(((lx - 1, gx + 2), (ly - 1, gy + 1)))
}

/// The rectangle with the given columns and rows.
pub open spec fn bounds(xs: (usize, usize), ys: (usize, usize)) -> Bounds {
    Bounds { min_x: xs.0 as int, max_x: xs.1 as int, min_y: ys.0 as int, max_y: ys.1 as int }
}

/// The square `(cx, cy)` of the rectangle comes before `(x, y)` going down
/// the columns from left to right.
pub open spec fn before(b: Bounds, x: int, y: int, cx: int, cy: int) -> bool {
    b.min_x <= cx < b.max_x && b.min_y <= cy < b.max_y && (cx < x || (cx == x && cy < y))
}

/// The square lies on the edge of the rectangle.
pub open spec fn on_edge(b: Bounds, cx: int, cy: int) -> bool {
    cx == b.min_x || cx == b.max_x - 1 || cy == b.min_y || cy == b.max_y - 1
}

/// Some square on the edge that comes before `(x, y)` is strictly nearest to
/// point `i`.
pub open spec fn edge_seen(points: Seq<(usize, usize)>, i: int, b: Bounds, x: int, y: int) -> bool {
    exists|cx: int, cy: int|
        before(b, x, y, cx, cy) && on_edge(b, cx, cy) && #[trigger] nearest((cx, cy), points)
            == Some(i)
}

/// The areas of all points within the rectangle, and for each point whether
/// its area touches the edge. `None` where a distance cannot be computed or
/// an area does not fit in an `i32`.
pub fn measure(points: &Vec<(usize, usize)>, xs: (usize, usize), ys: (usize, usize)) -> (r: Option<
    (Vec<usize>, Vec<bool>),
>)
    requires
        bounds_of(points@) == Some(bounds(xs, ys)),
    ensures
        match r {
            Some((areas, edges)) => {
                &&& areas.len() == points.len()
                &&& edges.len() == points.len()
                &&& forall|i: int|
                    0 <= i < points.len() ==> areas[i] == #[trigger] area(
                        points@,
                        i,
                        bounds(xs, ys),
                    )
                &&& forall|i: int|
                    0 <= i < points.len() ==> edges[i] == #[trigger] touches_edge(
                        points@,
                        i,
                        bounds(xs, ys),
                    )
                &&& forall|i: int| 0 <= i < points.len() ==> (#[trigger] areas[i]) <= i32::MAX
                &&& all_measured(points@, bounds(xs, ys))
            },
            None => !all_measured(points@, bounds(xs, ys)) || exists|i: int|
                0 <= i < points.len() && #[trigger] area(points@, i, bounds(xs, ys)) > i32::MAX,
        },
{
    let ghost b = bounds(xs, ys);
    let n: usize = points.len();
    let (min_x, max_x) = xs;
    let (min_y, max_y) = ys;
    let mut areas: Vec<usize> = vec![0usize; n];
    let mut edges: Vec<bool> = vec![false; n];
    let mut x: usize = min_x;
    while x < max_x
        invariant
            n == points.len(),
            b == bounds(xs, ys),
            xs == (min_x, max_x),
            ys == (min_y, max_y),
            bounds_of(points@) == Some(b),
            min_x <= x <= max_x,
            areas.len() == n,
            edges.len() == n,
            forall|cx: int, cy: int|
                before(b, x as int, b.min_y, cx, cy) ==> #[trigger] measured(points@, cx, cy),
            forall|i: int| 0 <= i < n ==> (#[trigger] areas[i]) <= i32::MAX,
            forall|i: int|
                0 <= i < n ==> #[trigger] areas[i] == count_in_box(
                    owned_by(points@, i),
                    b.min_x,
                    x as int,
                    b.min_y,
                    b.max_y,
                ),
            forall|i: int|
                0 <= i < n ==> #[trigger] edges[i] == edge_seen(points@, i, b, x as int, b.min_y),
        decreases max_x - x,
    {
        let mut y: usize = min_y;
        while y < max_y
            invariant
                n == points.len(),
                b == bounds(xs, ys),
                xs == (min_x, max_x),
                ys == (min_y, max_y),
                bounds_of(points@) == Some(b),
                min_x <= x < max_x,
                min_y <= y <= max_y,
                areas.len() == n,
                edges.len() == n,
                forall|cx: int, cy: int|
                    before(b, x as int, y as int, cx, cy) ==> #[trigger] measured(points@, cx, cy),
                forall|i: int| 0 <= i < n ==> (#[trigger] areas[i]) <= i32::MAX,
                forall|i: int|
                    0 <= i < n ==> #[trigger] areas[i] == count_in_box(
                        owned_by(points@, i),
                        b.min_x,
                        x as int,
                        b.min_y,
                        b.max_y,
                    ) + count_in_column(owned_by(points@, i), x as int, b.min_y, y as int),
                forall|i: int|
                    0 <= i < n ==> #[trigger] edges[i] == edge_seen(points@, i, b, x as int, y as int),
            decreases max_y - y,
        {
            if !can_measure((x, y), points) {
                assert(!measured(points@, x as int, y as int));
                return None;
            }
            let owner = closest_point((x, y), points);
            let ghost old_areas = areas@;
            let ghost old_edges = edges@;
            let is_edge: bool = x == min_x || x == max_x - 1 || y == min_y || y == max_y - 1;
            match owner {
                Some(i) => {
                    if areas[i] == i32::MAX as usize {
                        proof {
                            partial_count_bounded(
                                owned_by(points@, i as int),
                                b.min_x,
                                x as int,
                                b.max_x,
                                b.min_y,
                                y + 1,
                                b.max_y,
                            );
                            assert(area(points@, i as int, b) > i32::MAX);
                        }
                        return None;
                    }
                    let a: usize = areas[i];
                    areas[i] = a + 1;
                    if is_edge {
                        edges[i] = true;
                    }
                },
                None => {},
            }
            proof {
                assert forall|i: int| 0 <= i < n implies #[trigger] edges[i] == edge_seen(
                    points@,
                    i,
                    b,
                    x as int,
                    y + 1,
                ) by {
                    let here = is_edge && nearest((x as int, y as int), points@) == Some(i);
                    assert(edges[i] == (old_edges[i] || here));
                    if edge_seen(points@, i, b, x as int, y as int) {
                        let (cx, cy) = choose|cx: int, cy: int|
                            before(b, x as int, y as int, cx, cy) && on_edge(b, cx, cy)
                                && #[trigger] nearest((cx, cy), points@) == Some(i);
                        assert(before(b, x as int, y + 1, cx, cy));
                    }
                    if here {
                        assert(before(b, x as int, y + 1, x as int, y as int));
                        assert(on_edge(b, x as int, y as int));
                    }
                    if edge_seen(points@, i, b, x as int, y + 1) {
                        let (cx, cy) = choose|cx: int, cy: int|
                            before(b, x as int, y + 1, cx, cy) && on_edge(b, cx, cy)
                                && #[trigger] nearest((cx, cy), points@) == Some(i);
                        if !(cx == x && cy == y) {
                            assert(before(b, x as int, y as int, cx, cy));
                        }
                    }
                }
            }
            y += 1;
        }
        proof {
            assert forall|i: int| 0 <= i < n implies #[trigger] edges[i] == edge_seen(
                points@,
                i,
                b,
                x + 1,
                b.min_y,
            ) by {
                if edge_seen(points@, i, b, x as int, y as int) {
                    let (cx, cy) = choose|cx: int, cy: int|
                        before(b, x as int, y as int, cx, cy) && on_edge(b, cx, cy)
                            && #[trigger] nearest((cx, cy), points@) == Some(i);
                    assert(before(b, x + 1, b.min_y, cx, cy));
                }
                if edge_seen(points@, i, b, x + 1, b.min_y) {
                    let (cx, cy) = choose|cx: int, cy: int|
                        before(b, x + 1, b.min_y, cx, cy) && on_edge(b, cx, cy)
                            && #[trigger] nearest((cx, cy), points@) == Some(i);
                    assert(before(b, x as int, y as int, cx, cy));
                }
            }
        }
        x += 1;
    }
    proof {
        assert forall|i: int| 0 <= i < points.len() implies edges[i] == #[trigger] touches_edge(
            points@,
            i,
            b,
        ) by {
            if edge_seen(points@, i, b, x as int, b.min_y) {
                let (cx, cy) = choose|cx: int, cy: int|
                    before(b, x as int, b.min_y, cx, cy) && on_edge(b, cx, cy)
                        && #[trigger] nearest((cx, cy), points@) == Some(i);
                assert(touches_edge(points@, i, b));
            }
            if touches_edge(points@, i, b) {
                let (cx, cy) = choose|cx: int, cy: int|
                    b.min_x <= cx < b.max_x && b.min_y <= cy < b.max_y && (cx == b.min_x || cx
                        == b.max_x - 1 || cy == b.min_y || cy == b.max_y - 1)
                        && #[trigger] nearest((cx, cy), points@) == Some(i);
                assert(before(b, x as int, b.min_y, cx, cy));
                assert(on_edge(b, cx, cy));
            }
        }
    }
    Some((areas, edges))
}

/// The size of the largest area that is strictly nearest to one point and
/// touches no edge of the surveyed rectangle, in decimal, together with the
/// rectangle and the points. `None` where a line writes no point, the points
/// have no surveyed rectangle, a distance within it cannot be computed, an
/// area does not fit in an `i32`, or no area counts.
pub fn part1(input: &str) -> (r: Option<(String, Out)>)
    ensures
        match points_of(lines(input@)) {
            Some(ps) => match r {
                Some((s, out)) => largest_answer(ps) == Some(s@) && out.2@ == ps && bounds_of(ps)
                    == Some(bounds(out.0, out.1)),
                None => largest_answer(ps) is None,
            },
            None => r is None,
        },
{
    let chars = chars_of(input);
    let ls = lines_of(&chars);
    let points = match parse(&ls) {
        Some(ps) => ps,
        None => {
            return None;
        },
    };
    let (xs, ys) = match survey(&points) {
        Some(b) => b,
        None => {
            return None;
        },
    };
    let ghost b = bounds(xs, ys);
    let (areas, edges) = match measure(&points, xs, ys) {
        Some(m) => m,
        None => {
            return None;
        },
    };
    let mut best: Option<usize> = None;
    let mut k: usize = 0;
    while k < points.len()
        invariant
            k <= points.len(),
            areas.len() == points.len(),
            edges.len() == points.len(),
            forall|i: int| 0 <= i < points.len() ==> areas[i] == #[trigger] area(points@, i, b),
            forall|i: int| 0 <= i < points.len() ==> (#[trigger] areas[i]) <= i32::MAX,
            forall|i: int|
                0 <= i < points.len() ==> edges[i] == #[trigger] touches_edge(points@, i, b),
            match best {
                Some(a) => largest(points@, b, k as nat) == Some(a as nat),
                None => largest(points@, b, k as nat) is None,
            },
        decreases points.len() - k,
    {
        assert(areas[k as int] == area(points@, k as int, b));
        assert(edges[k as int] == touches_edge(points@, k as int, b));
        if areas[k] > 0 && !edges[k] {
            let better = match best {
                Some(a) => a < areas[k],
                None => true,
            };
            if better {
                best = Some(areas[k]);
            }
        }
        k += 1;
    }
    match best {
        Some(a) => Some((usize_string(a), (xs, ys, points))),
        None => None,
    }
}

/// The sum of distances to some of the points is no more than to all.
pub proof fn total_distance_grows(p: (int, int), points: Seq<(usize, usize)>, k: nat, n: nat)
    requires
        k <= n,
    ensures
        total_distance(p, points, k) <= total_distance(p, points, n),
    decreases n - k,
{
    if k < n {
        total_distance_grows(p, points, k, (n - 1) as nat);
    }
}

/// The sum of the distances from `point` to all points, where they can be
/// computed and the sum fits in a `usize`.
pub fn sum_distances(point: (usize, usize), points: &Vec<(usize, usize)>) -> (r: Option<usize>)
    ensures
        match r {
            Some(t) => summed(points@, point.0 as int, point.1 as int) && t == total_distance(
                (point.0 as int, point.1 as int),
                points@,
                points.len() as nat,
            ),
            None => !summed(points@, point.0 as int, point.1 as int),
        },
{
    let ghost p = (point.0 as int, point.1 as int);
    if !can_measure(point, points) {
        return None;
    }
    let mut total: usize = 0;
    let mut k: usize = 0;
    while k < points.len()
        invariant
            k <= points.len(),
            p == (point.0 as int, point.1 as int),
            measured(points@, p.0, p.1),
            total == total_distance(p, points@, k as nat),
        decreases points.len() - k,
    {
        assert(computable(p, at(points@, k as int)));
        let d = manhattan(point, points[k]);
        proof {
            total_distance_grows(p, points@, (k + 1) as nat, points.len() as nat);
        }
        total = match total.checked_add(d) {
            Some(t) => t,
            None => {
                return None;
            },
        };
        k += 1;
    }
    Some(total)
}

/// The number of squares of the rectangle whose distances to all points sum
/// to less than ten thousand, in decimal. `None` where a distance cannot be
/// computed, a sum of distances does not fit in a `usize`, or the number
/// does not fit in an `i32`.
pub fn part2(_input: &str, out: Out) -> (r: Option<String>)
    ensures
        opt_view(r) == region_answer(out.2@, bounds(out.0, out.1)),
{
    let ghost pts = out.2@;
    let ghost b = bounds(out.0, out.1);
    let ghost near = is_near(pts);
    let ((min_x, max_x), (min_y, max_y), points) = out;
    let mut size: usize = 0;
    let mut x: usize = min_x;
    while x < max_x
        invariant
            b == bounds((min_x, max_x), (min_y, max_y)),
            b == bounds(out.0, out.1),
            pts == out.2@,
            pts == points@,
            near == is_near(pts),
            min_x <= x,
            min_x < max_x ==> x <= max_x,
            min_x >= max_x ==> x == min_x,
            size <= i32::MAX,
            size == count_in_box(near, b.min_x, x as int, b.min_y, b.max_y),
            forall|cx: int, cy: int|
                b.min_x <= cx < x && b.min_y <= cy < b.max_y ==> #[trigger] summed(pts, cx, cy),
        decreases max_x - x,
    {
        let mut y: usize = min_y;
        while y < max_y
            invariant
                b == bounds((min_x, max_x), (min_y, max_y)),
                b == bounds(out.0, out.1),
                pts == out.2@,
                pts == points@,
                near == is_near(pts),
                min_x <= x < max_x,
                min_y <= y,
                min_y < max_y ==> y <= max_y,
                min_y >= max_y ==> y == min_y,
                size <= i32::MAX,
                size == count_in_box(near, b.min_x, x as int, b.min_y, b.max_y) + count_in_column(
                    near,
                    x as int,
                    b.min_y,
                    y as int,
                ),
                forall|cx: int, cy: int|
                    b.min_x <= cx < x && b.min_y <= cy < b.max_y ==> #[trigger] summed(pts, cx, cy),
                forall|cy: int| b.min_y <= cy < y ==> #[trigger] summed(pts, x as int, cy),
            decreases max_y - y,
        {
            assert(near(x as int, y as int) == (total_distance((x as int, y as int), pts, pts.len())
                < 10000));
            match sum_distances((x, y), &points) {
                Some(t) => {
                    if t < 10000 {
                        if size == i32::MAX as usize {
                            proof {
                                partial_count_bounded(
                                    near,
                                    b.min_x,
                                    x as int,
                                    b.max_x,
                                    b.min_y,
                                    y + 1,
                                    b.max_y,
                                );
                            }
                            return None;
                        }
                        size += 1;
                    }
                },
                None => {
                    assert(!sums_fit(pts, b));
                    return None;
                },
            }
            y += 1;
        }
        assert(count_in_column(near, x as int, b.min_y, y as int) == count_in_column(
            near,
            x as int,
            b.min_y,
            b.max_y,
        ));
        x += 1;
    }
    assert(count_in_box(near, b.min_x, x as int, b.min_y, b.max_y) == count_in_box(
        near,
        b.min_x,
        b.max_x,
        b.min_y,
        b.max_y,
    ));
    assert(sums_fit(pts, b));
    Some(usize_string(size))
}

} // verus!
