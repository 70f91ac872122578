//! Points of light that drift at fixed velocities: the picture they form
//! when they have come together, and how long that takes.

use crate::pattern::{fields_of, match_fields};
use crate::text::{as_isize, chars_of, decimal, lines, lines_of, read_isize, string_of,
    usize_string, views};
use crate::tally::fits;
use vstd::prelude::*;

verus! {

/// A point of light: where it is, and how far it moves in a second, each as
/// column and row.
pub struct Point {
    pub position: (isize, isize),
    pub velocity: (isize, isize),
}

/// The points of light.
pub struct Points {
    pub points: Vec<Point>,
}

/// The point a second later; `None` where its place does not fit.
pub open spec fn drifted(p: Point) -> Option<Point> {
    if fits(p.position.0 + p.velocity.0) && fits(p.position.1 + p.velocity.1) {
        Some(
            Point {
                position: (
                    (p.position.0 + p.velocity.0) as isize,
                    (p.position.1 + p.velocity.1) as isize,
                ),
                velocity: p.velocity,
            },
        )
    } else {
        None
    }
}

/// The points a second later; `None` where the place of one does not fit.
pub open spec fn all_drifted(ps: Seq<Point>) -> Option<Seq<Point>> {
    if forall|i: int| 0 <= i < ps.len() ==> (#[trigger] drifted(ps[i])) is Some {
        Some(Seq::new(ps.len(), |i: int| drifted(ps[i]).unwrap()))
    } else {
        None
    }
}

/// The points after `n` seconds.
pub open spec fn after(ps: Seq<Point>, n: nat) -> Option<Seq<Point>>
    decreases n,
{
    if n == 0 {
        Some(ps)
    } else {
        match after(ps, (n - 1) as nat) {
            Some(s) => all_drifted(s),
            None => None,
        }
    }
}

/// The least column of the first `n` points; `n` is at least one.
pub open spec fn least_x(ps: Seq<Point>, n: nat) -> int
    decreases n,
{
    if n <= 1 {
        ps[0].position.0 as int
    } else if ps[n - 1].position.0 < least_x(ps, (n - 1) as nat) {
        ps[n - 1].position.0 as int
    } else {
        least_x(ps, (n - 1) as nat)
    }
}

/// The greatest column of the first `n` points.
pub open spec fn greatest_x(ps: Seq<Point>, n: nat) -> int
    decreases n,
{
    if n <= 1 {
        ps[0].position.0 as int
    } else if ps[n - 1].position.0 > greatest_x(ps, (n - 1) as nat) {
        ps[n - 1].position.0 as int
    } else {
        greatest_x(ps, (n - 1) as nat)
    }
}

/// The least row of the first `n` points.
pub open spec fn least_y(ps: Seq<Point>, n: nat) -> int
    decreases n,
{
    if n <= 1 {
        ps[0].position.1 as int
    } else if ps[n - 1].position.1 < least_y(ps, (n - 1) as nat) {
        ps[n - 1].position.1 as int
    } else {
        least_y(ps, (n - 1) as nat)
    }
}

/// The greatest row of the first `n` points.
pub open spec fn greatest_y(ps: Seq<Point>, n: nat) -> int
    decreases n,
{
    if n <= 1 {
        ps[0].position.1 as int
    } else if ps[n - 1].position.1 > greatest_y(ps, (n - 1) as nat) {
        ps[n - 1].position.1 as int
    } else {
        greatest_y(ps, (n - 1) as nat)
    }
}

/// How far the points spread, along the columns and along the rows; `None`
/// where there is no point or a spread does not fit in an `isize`.
pub open spec fn spread(ps: Seq<Point>) -> Option<(int, int)> {
    let w = greatest_x(ps, ps.len()) - least_x(ps, ps.len());
    let h = greatest_y(ps, ps.len()) - least_y(ps, ps.len());
    if ps.len() > 0 && fits(w) && fits(h) {
        Some((w, h))
    } else {
        None
    }
}

/// After `n` seconds the points spread over more than ten rows.
pub open spec fn apart_at(ps: Seq<Point>, n: nat) -> bool {
    after(ps, n) is Some && spread(after(ps, n).unwrap()) is Some && spread(
        after(ps, n).unwrap(),
    ).unwrap().1 > 10
}

/// `n` is the first number of seconds, within the range of `usize`, after
/// which the points spread over ten rows or fewer.
pub open spec fn first_together(ps: Seq<Point>, n: nat) -> bool {
    &&& n <= usize::MAX
    &&& after(ps, n) is Some
    &&& spread(after(ps, n).unwrap()) is Some
    &&& !apart_at(ps, n)
    &&& forall|j: nat| j < n ==> #[trigger] apart_at(ps, j)
}

/// Some point stands at column `x`, row `y`.
pub open spec fn lit(ps: Seq<Point>, x: int, y: int) -> bool {
    exists|k: int| 0 <= k < ps.len() && stands_at(#[trigger] ps[k], x, y)
}

/// The point stands at column `x`, row `y`.
pub open spec fn stands_at(p: Point, x: int, y: int) -> bool {
    p.position.0 == x && p.position.1 == y
}

/// Row `y` of the picture from column `x0` on, `width` wide: a hash sign
/// where a point stands, else a space.
pub open spec fn picture_row(ps: Seq<Point>, y: int, x0: int, width: nat) -> Seq<char> {
    Seq::new(
        width,
        |i: int|
            if lit(ps, x0 + i, y) {
                '#'
            } else {
                ' '
            },
    )
}

/// The first `n` rows of the picture from row `y0` on, each after a line
/// feed.
pub open spec fn picture_rows(ps: Seq<Point>, y0: int, x0: int, width: nat, n: nat) -> Seq<char>
    decreases n,
{
    if n == 0 {
        seq![]
    } else {
        picture_rows(ps, y0, x0, width, (n - 1) as nat) + seq!['\n'] + picture_row(
            ps,
            y0 + n - 1,
            x0,
            width,
        )
    }
}

/// The picture of the points: the rows from the least to the greatest and
/// one more, each after a line feed, over the columns from the least to the
/// greatest. `None` where the number of columns does not fit in an `isize`.
pub open spec fn picture(ps: Seq<Point>) -> Option<Seq<char>> {
    let (w, h) = spread(ps).unwrap();
    if fits(w + 1) {
        Some(
            picture_rows(
                ps,
                least_y(ps, ps.len()),
                least_x(ps, ps.len()),
                (w + 1) as nat,
                (h + 2) as nat,
            ),
        )
    } else {
        None
    }
}

/// The picture that the points form when they first spread over ten rows or
/// fewer, and the seconds until then.
pub open spec fn message(ps: Seq<Point>) -> Option<(Seq<char>, usize)> {
    if exists|n: nat| first_together(ps, n) {
        let n = choose|n: nat| first_together(ps, n);
        match picture(after(ps, n).unwrap()) {
            Some(p) => Some((p, n as usize)),
            None => None,
        }
    } else {
        None
    }
}

/// There is at most one first second at which the points are together.
pub proof fn first_together_is_unique(ps: Seq<Point>, n: nat)
    requires
        first_together(ps, n),
    ensures
        (choose|k: nat| first_together(ps, k)) == n,
{
    let other = choose|k: nat| first_together(ps, k);
    assert(first_together(ps, other));
    if other < n {
        assert(apart_at(ps, other));
    } else if n < other {
        assert(apart_at(ps, n));
    }
}

/// Once the points cannot drift on, they have no later places.
pub proof fn lost_stays(ps: Seq<Point>, k: nat, n: nat)
    requires
        k <= n,
        after(ps, k) is None,
    ensures
        after(ps, n) is None,
    decreases n - k,
{
    if k < n {
        lost_stays(ps, k, (n - 1) as nat);
    }
}

/// The expression that a line is matched against.
pub open spec fn point_pattern() -> Seq<char> {
    "position=<\\s*(-?\\d+),\\s*(-?\\d+)> velocity=<\\s*(-?\\d+),\\s*(-?\\d+)>"@
}

/// The point that four captured texts write.
pub open spec fn point_of_fields(f: Seq<Seq<char>>) -> Option<Point> {
    if f.len() == 4 && as_isize(f[0]) is Some && as_isize(f[1]) is Some && as_isize(f[2]) is Some
        && as_isize(f[3]) is Some {
        Some(
            Point {
                position: (as_isize(f[0]).unwrap(), as_isize(f[1]).unwrap()),
                velocity: (as_isize(f[2]).unwrap(), as_isize(f[3]).unwrap()),
            },
        )
    } else {
        None
    }
}

/// The point that a line writes, if it writes one.
pub open spec fn point_of_line(line: Seq<char>) -> Option<Point> {
    match fields_of(point_pattern(), line, 4) {
        Some(f) => point_of_fields(f),
        None => None,
    }
}

/// The points that the lines write, if every line writes one.
pub open spec fn points_of(ls: Seq<Seq<char>>) -> Option<Seq<Point>> {
    if forall|i: int| 0 <= i < ls.len() ==> (#[trigger] point_of_line(ls[i])) is Some {
        Some(Seq::new(ls.len(), |i: int| point_of_line(ls[i]).unwrap()))
    } else {
        None
    }
}

impl Point {
    /// Moves the point on by a second. Gives `false`, and leaves the point,
    /// where its new place does not fit.
    pub fn step(&mut self) -> (ok: bool)
        ensures
            match drifted(*old(self)) {
                Some(p) => ok && *final(self) == p,
                None => !ok && *final(self) == *old(self),
            },
    {
        match (
            self.position.0.checked_add(self.velocity.0),
            self.position.1.checked_add(self.velocity.1),
        ) {
            (Some(x), Some(y)) => {
                self.position = (x, y);
                true
            },
            _ => false,
        }
    }
}

impl Points {
    /// Reads one point from each line of the text.
    pub fn from_str(s: &str) -> (r: Option<Points>)
        ensures
            match r {
                Some(ps) => points_of(lines(s@)) == Some(ps.points@),
                None => points_of(lines(s@)) is None,
            },
    {
        let chars = chars_of(s);
        let ls = lines_of(&chars);
        let mut points: Vec<Point> = Vec::new();
        let mut i: usize = 0;
        while i < ls.len()
            invariant
                i <= ls.len(),
                views(ls@) == lines(s@),
                points.len() == i,
                forall|j: int|
                    0 <= j < i ==> #[trigger] point_of_line(views(ls@)[j]) == Some(points[j]),
            decreases ls.len() - i,
        {
            assert(views(ls@)[i as int] == ls[i as int]@);
            let f = match match_fields(
                "position=<\\s*(-?\\d+),\\s*(-?\\d+)> velocity=<\\s*(-?\\d+),\\s*(-?\\d+)>",
                &ls[i],
                4,
            ) {
                Some(f) => f,
                None => {
                    assert(point_of_line(views(ls@)[i as int]) is None);
                    return None;
                },
            };
            assert(views(f@).len() == 4);
            assert(forall|k: int| 0 <= k < 4 ==> views(f@)[k] == f[k]@);
            match (read_isize(&f[0]), read_isize(&f[1]), read_isize(&f[2]), read_isize(&f[3])) {
                (Some(x), Some(y), Some(vx), Some(vy)) => {
                    points.push(Point { position: (x, y), velocity: (vx, vy) });
                },
                _ => {
                    assert(point_of_line(views(ls@)[i as int]) is None);
                    return None;
                },
            }
            i += 1;
        }
        assert(points@ =~= Seq::new(
            views(ls@).len(),
            |i: int| point_of_line(views(ls@)[i]).unwrap(),
        ));
        Some(Points { points })
    }

    /// Moves every point on by a second. Gives `false` where the new place
    /// of a point does not fit.
    pub fn step(&mut self) -> (ok: bool)
        ensures
            match all_drifted(old(self).points@) {
                Some(s) => ok && final(self).points@ == s,
                None => !ok,
            },
    {
        let ghost start = self.points@;
        let mut i: usize = 0;
        while i < self.points.len()
            invariant
                i <= self.points.len(),
                self.points.len() == start.len(),
                start == old(self).points@,
                forall|j: int|
                    0 <= j < i ==> drifted(start[j]) == Some(#[trigger] self.points[j]),
                forall|j: int| i <= j < start.len() ==> #[trigger] self.points[j] == start[j],
            decreases self.points.len() - i,
        {
            let ghost before = self.points@;
            let mut p = Point { position: self.points[i].position, velocity: self.points[i].velocity };
            assert(p == start[i as int]);
            if !p.step() {
                assert(drifted(start[i as int]) is None);
                return false;
            }
            self.points[i] = p;
            assert(self.points@ == before.update(i as int, p));
            i += 1;
        }
        assert forall|j: int| 0 <= j < start.len() implies (#[trigger] drifted(start[j])) is Some by {
            assert(drifted(start[j]) == Some(self.points[j]));
        }
        assert(self.points@ =~= Seq::new(start.len(), |i: int| drifted(start[i]).unwrap()));
        true
    }

    /// The least column and row, and the greatest column and row.
    pub fn bounds(&self) -> (r: ((isize, isize), (isize, isize)))
        requires
            self.points.len() > 0,
        ensures
            r.0.0 == least_x(self.points@, self.points.len() as nat),
            r.0.1 == least_y(self.points@, self.points.len() as nat),
            r.1.0 == greatest_x(self.points@, self.points.len() as nat),
            r.1.1 == greatest_y(self.points@, self.points.len() as nat),
    {
        let first = self.points[0].position;
        let mut x_min: isize = first.0;
        let mut x_max: isize = first.0;
        let mut y_min: isize = first.1;
        let mut y_max: isize = first.1;
        let mut k: usize = 1;
        while k < self.points.len()
            invariant
                1 <= k <= self.points.len(),
                x_min == least_x(self.points@, k as nat),
                x_max == greatest_x(self.points@, k as nat),
                y_min == least_y(self.points@, k as nat),
                y_max == greatest_y(self.points@, k as nat),
            decreases self.points.len() - k,
        {
            let p = self.points[k].position;
            if p.0 < x_min {
                x_min = p.0;
            }
            if p.0 > x_max {
                x_max = p.0;
            }
            if p.1 < y_min {
                y_min = p.1;
            }
            if p.1 > y_max {
                y_max = p.1;
            }
            k += 1;
        }
        ((x_min, y_min), (x_max, y_max))
    }

    /// How far the points spread, along the columns and along the rows.
    pub fn size(&self) -> (r: Option<(usize, usize)>)
        ensures
            match r {
                Some(s) => spread(self.points@) == Some((s.0 as int, s.1 as int)),
                None => spread(self.points@) is None,
            },
    {
        if self.points.len() == 0 {
            return None;
        }
        let ((x_min, y_min), (x_max, y_max)) = self.bounds();
        proof {
            ordered_bounds(self.points@, self.points.len() as nat);
        }
        match (x_max.checked_sub(x_min), y_max.checked_sub(y_min)) {
            (Some(w), Some(h)) => Some((w as usize, h as usize)),
            _ => None,
        }
    }
}

/// The least column and row are no greater than the greatest.
pub proof fn ordered_bounds(ps: Seq<Point>, n: nat)
    ensures
        least_x(ps, n) <= greatest_x(ps, n),
        least_y(ps, n) <= greatest_y(ps, n),
    decreases n,
{
    if n > 1 {
        ordered_bounds(ps, (n - 1) as nat);
    }
}

/// Every one of the first `n` points lies within their bounds.
pub proof fn within_bounds(ps: Seq<Point>, n: nat, k: int)
    requires
        0 <= k < n,
    ensures
        least_x(ps, n) <= ps[k].position.0 <= greatest_x(ps, n),
        least_y(ps, n) <= ps[k].position.1 <= greatest_y(ps, n),
    decreases n,
{
    if n > 1 {
        ordered_bounds(ps, (n - 1) as nat);
        if k < n - 1 {
            within_bounds(ps, (n - 1) as nat, k);
        } else {
            within_bounds(ps, (n - 1) as nat, 0);
        }
    }
}

/// One of the first `k` points stands at column `x`, row `y`.
pub open spec fn lit_among(ps: Seq<Point>, k: int, x: int, y: int) -> bool {
    exists|j: int| 0 <= j < k && stands_at(#[trigger] ps[j], x, y)
}

/// A sheet of `rows` rows of `width` spaces each.
pub fn blank_sheet(width: usize, rows: usize) -> (g: Vec<Vec<char>>)
    ensures
        g.len() == rows,
        forall|y: int| 0 <= y < rows ==> (#[trigger] g[y]).len() == width,
        forall|y: int, x: int| 0 <= y < rows && 0 <= x < width ==> #[trigger] g[y][x] == ' ',
{
    let mut g: Vec<Vec<char>> = Vec::new();
    while g.len() < rows
        invariant
            g.len() <= rows,
            forall|y: int| 0 <= y < g.len() ==> (#[trigger] g[y]).len() == width,
            forall|y: int, x: int| 0 <= y < g.len() && 0 <= x < width ==> #[trigger] g[y][x] == ' ',
        decreases rows - g.len(),
    {
        let mut row: Vec<char> = Vec::new();
        while row.len() < width
            invariant
                row.len() <= width,
                forall|x: int| 0 <= x < row.len() ==> #[trigger] row[x] == ' ',
            decreases width - row.len(),
        {
            row.push(' ');
        }
        g.push(row);
    }
    g
}

/// The picture of the points. `None` where there is no point, or a spread or
/// the number of columns does not fit in an `isize`.
pub fn draw(points: &Points) -> (r: Option<Vec<char>>)
    ensures
        match r {
            Some(out) => spread(points.points@) is Some && picture(points.points@) == Some(out@),
            None => spread(points.points@) is None || picture(points.points@) is None,
        },
{
    let (w, h) = match points.size() {
        Some(s) => s,
        None => {
            return None;
        },
    };
    if w >= isize::MAX as usize {
        return None;
    }
    let ghost ps = points.points@;
    let n: usize = points.points.len();
    let ((x_min, y_min), _) = points.bounds();
    let width: usize = w + 1;
    let rows: usize = h + 2;
    let mut sheet = blank_sheet(width, rows);
    let mut k: usize = 0;
    while k < n
        invariant
            k <= n,
            n == ps.len(),
            ps == points.points@,
            spread(ps) == Some((w as int, h as int)),
            x_min == least_x(ps, n as nat),
            y_min == least_y(ps, n as nat),
            width == w + 1,
            rows == h + 2,
            sheet.len() == rows,
            forall|y: int| 0 <= y < rows ==> (#[trigger] sheet[y]).len() == width,
            forall|y: int, x: int|
                0 <= y < rows && 0 <= x < width ==> #[trigger] sheet[y][x] == (if lit_among(
                    ps,
                    k as int,
                    x_min + x,
                    y_min + y,
                ) {
                    '#'
                } else {
                    ' '
                }),
        decreases n - k,
    {
        proof {
            within_bounds(ps, n as nat, k as int);
        }
        let p = points.points[k].position;
        let x: usize = (p.0 - x_min) as usize;
        let y: usize = (p.1 - y_min) as usize;
        let ghost before = sheet;
        sheet[y][x] = '#';
        assert forall|yy: int, xx: int| 0 <= yy < rows && 0 <= xx < width implies #[trigger] sheet[yy][xx]
            == (if lit_among(ps, k + 1, x_min + xx, y_min + yy) {
            '#'
        } else {
            ' '
        }) by {
            if yy == y && xx == x {
                assert(stands_at(ps[k as int], x_min + xx, y_min + yy));
            } else {
                assert(sheet[yy][xx] == before[yy][xx]);
                if lit_among(ps, k + 1, x_min + xx, y_min + yy) {
                    let j = choose|j: int|
                        0 <= j < k + 1 && stands_at(#[trigger] ps[j], x_min + xx, y_min + yy);
                    assert(j != k);
                    assert(lit_among(ps, k as int, x_min + xx, y_min + yy));
                }
                if lit_among(ps, k as int, x_min + xx, y_min + yy) {
                    let j = choose|j: int|
                        0 <= j < k && stands_at(#[trigger] ps[j], x_min + xx, y_min + yy);
                    assert(lit_among(ps, k + 1, x_min + xx, y_min + yy));
                }
            }
        }
        k += 1;
    }
    let mut out: Vec<char> = Vec::new();
    let mut y: usize = 0;
    while y < rows
        invariant
            y <= rows,
            n == ps.len(),
            sheet.len() == rows,
            forall|yy: int| 0 <= yy < rows ==> (#[trigger] sheet[yy]).len() == width,
            forall|yy: int, xx: int|
                0 <= yy < rows && 0 <= xx < width ==> #[trigger] sheet[yy][xx] == (if lit_among(
                    ps,
                    n as int,
                    x_min + xx,
                    y_min + yy,
                ) {
                    '#'
                } else {
                    ' '
                }),
            out@ == picture_rows(ps, y_min as int, x_min as int, width as nat, y as nat),
        decreases rows - y,
    {
        let ghost done = out@;
        out.push('\n');
        let mut x: usize = 0;
        while x < width
            invariant
                x <= width,
                y < rows,
                n == ps.len(),
                sheet.len() == rows,
                sheet[y as int].len() == width,
                forall|xx: int|
                    0 <= xx < width ==> #[trigger] sheet[y as int][xx] == (if lit_among(
                        ps,
                        n as int,
                        x_min + xx,
                        y_min + y,
                    ) {
                        '#'
                    } else {
                        ' '
                    }),
                out@ == done + seq!['\n'] + picture_row(ps, y_min + y, x_min as int, width as nat).take(
                    x as int,
                ),
            decreases width - x,
        {
            out.push(sheet[y][x]);
            assert(lit(ps, x_min + x, y_min + y) == lit_among(ps, n as int, x_min + x, y_min + y));
            assert(picture_row(ps, y_min + y, x_min as int, width as nat).take(x + 1)
                =~= picture_row(ps, y_min + y, x_min as int, width as nat).take(x as int).push(
                sheet[y as int][x as int],
            ));
            x += 1;
        }
        assert(picture_row(ps, y_min + y, x_min as int, width as nat).take(width as int)
            =~= picture_row(ps, y_min + y, x_min as int, width as nat));
        y += 1;
    }
    Some(out)
}

/// The picture that the points form once they spread over ten rows or
/// fewer, and the seconds until then. The picture has one row more than the
/// points take, and every row stands after a line feed. `None` where a line
/// writes no point, there is no point, or a number on the way does not fit.
pub fn part1(input: &str) -> (r: Option<(String, usize)>)
    ensures
        match points_of(lines(input@)) {
            Some(ps) => match r {
                Some((s, steps)) => message(ps) == Some((s@, steps)),
                None => message(ps) is None,
            },
            None => r is None,
        },
{
    let mut points = match Points::from_str(input) {
        Some(ps) => ps,
        None => {
            return None;
        },
    };
    let ghost start = points.points@;
    let mut steps: usize = 0;
    loop
        invariant_except_break
            points_of(lines(input@)) == Some(start),
            after(start, steps as nat) == Some(points.points@),
            forall|j: nat| j < steps ==> #[trigger] apart_at(start, j),
        ensures
            points_of(lines(input@)) == Some(start),
            after(start, steps as nat) == Some(points.points@),
            first_together(start, steps as nat),
        decreases usize::MAX - steps,
    {
        match points.size() {
            Some((_, h)) => {
                if h <= 10 {
                    break;
                }
            },
            None => {
                assert(!apart_at(start, steps as nat));
                assert forall|n: nat| !first_together(start, n) by {
                    if n < steps {
                        assert(apart_at(start, n));
                    }
                }
                return None;
            },
        }
        assert(apart_at(start, steps as nat));
        if steps == usize::MAX {
            assert forall|n: nat| !first_together(start, n) by {
                if n <= steps {
                    assert(apart_at(start, n));
                }
            }
            return None;
        }
        if !points.step() {
            assert forall|n: nat| !first_together(start, n) by {
                if n <= steps {
                    assert(apart_at(start, n));
                } else {
                    lost_stays(start, (steps + 1) as nat, n);
                }
            }
            return None;
        }
        steps += 1;
    }
    proof {
        first_together_is_unique(start, steps as nat);
    }
    match draw(&points) {
        Some(out) => Some((string_of(&out), steps)),
        None => None,
    }
}

/// The seconds that part one counted, in decimal.
pub fn part2(_input: &str, steps: usize) -> (r: String)
    ensures
        r@ == decimal(steps as nat),
{
    usize_string(steps)
}

} // verus!
