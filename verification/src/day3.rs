//! Rectangular claims on a sheet of fabric: how much of it is claimed more
//! than once, and which claim overlaps no other.

use crate::pattern::{fields_of, match_fields};
use crate::text::{as_usize, chars_of, decimal, lines, lines_of, read_usize, usize_string, views};
use vstd::prelude::*;

verus! {

/// A claim: its number, the corner nearest the origin, and its size. The far
/// corner fits in a `usize`.
pub struct Claim {
    pub id: usize,
    pub x: usize,
    pub y: usize,
    pub w: usize,
    pub h: usize,
}

/// How many claims cover each square inch of the fabric.
pub struct Fabric {
    pub cells: Vec<Vec<usize>>,
}

impl Fabric {
    /// The number recorded for the square at column `x`, row `y`.
    pub open spec fn count(&self, x: int, y: int) -> nat {
        if 0 <= y < self.cells.len() && 0 <= x < self.cells[y].len() {
            self.cells[y][x] as nat
        } else {
            0
        }
    }

    /// The number recorded for the square at column `x`, row `y`.
    pub fn get(&self, x: usize, y: usize) -> (r: usize)
        ensures
            r == self.count(x as int, y as int),
    {
        if y < self.cells.len() && x < self.cells[y].len() {
            self.cells[y][x]
        } else {
            0
        }
    }
}

/// The expression that a claim's line is matched against.
pub open spec fn claim_pattern() -> Seq<char> {
    "#(\\d+) @ (\\d+),(\\d+): (\\d+)x(\\d+)"@
}

/// The claim written by five captured texts: number, corner, size.
pub open spec fn claim_of_fields(f: Seq<Seq<char>>) -> Option<Claim> {
    if f.len() == 5 && as_usize(f[0]) is Some && as_usize(f[1]) is Some && as_usize(f[2]) is Some
        && as_usize(f[3]) is Some && as_usize(f[4]) is Some && as_usize(f[1]).unwrap() + as_usize(
        f[3],
    ).unwrap() <= usize::MAX && as_usize(f[2]).unwrap() + as_usize(f[4]).unwrap() <= usize::MAX {
        Some(
            Claim {
                id: as_usize(f[0]).unwrap(),
                x: as_usize(f[1]).unwrap(),
                y: as_usize(f[2]).unwrap(),
                w: as_usize(f[3]).unwrap(),
                h: as_usize(f[4]).unwrap(),
            },
        )
    } else {
        None
    }
}

/// The claim that a line writes, if it writes one.
pub open spec fn claim_of_line(line: Seq<char>) -> Option<Claim> {
    match fields_of(claim_pattern(), line, 5) {
        Some(f) => claim_of_fields(f),
        None => None,
    }
}

/// The claims that the lines write, if every line writes one.
pub open spec fn claims_of_lines(ls: Seq<Seq<char>>) -> Option<Seq<Claim>> {
    if forall|i: int| 0 <= i < ls.len() ==> (#[trigger] claim_of_line(ls[i])) is Some {
        Some(Seq::new(ls.len(), |i: int| claim_of_line(ls[i]).unwrap()))
    } else {
        None
    }
}

/// The claim covers the square at column `x`, row `y`.
pub open spec fn covers(c: Claim, x: int, y: int) -> bool {
    c.x <= x < c.x + c.w && c.y <= y < c.y + c.h
}

/// How many of the claims cover the square at column `x`, row `y`.
pub open spec fn cover_count(cs: Seq<Claim>, x: int, y: int) -> nat
    decreases cs.len(),
{
    if cs.len() == 0 {
        0
    } else {
        cover_count(cs.drop_last(), x, y) + if covers(cs.last(), x, y) {
            1nat
        } else {
            0nat
        }
    }
}

/// The least width that holds every claim.
pub open spec fn extent_x(cs: Seq<Claim>) -> nat
    decreases cs.len(),
{
    if cs.len() == 0 {
        0
    } else if cs.last().x + cs.last().w > extent_x(cs.drop_last()) {
        (cs.last().x + cs.last().w) as nat
    } else {
        extent_x(cs.drop_last())
    }
}

/// The least height that holds every claim.
pub open spec fn extent_y(cs: Seq<Claim>) -> nat
    decreases cs.len(),
{
    if cs.len() == 0 {
        0
    } else if cs.last().y + cs.last().h > extent_y(cs.drop_last()) {
        (cs.last().y + cs.last().h) as nat
    } else {
        extent_y(cs.drop_last())
    }
}

/// How many of the first `width` squares of row `y` lie under two or more of
/// the claims.
pub open spec fn contested_in_row(cs: Seq<Claim>, y: int, width: nat) -> nat
    decreases width,
{
    if width == 0 {
        0
    } else {
        contested_in_row(cs, y, (width - 1) as nat) + if cover_count(cs, width - 1, y) > 1 {
            1nat
        } else {
            0nat
        }
    }
}

/// How many squares in the first `height` rows, `width` wide, lie under two
/// or more of the claims.
pub open spec fn contested(cs: Seq<Claim>, width: nat, height: nat) -> nat
    decreases height,
{
    if height == 0 {
        0
    } else {
        contested(cs, width, (height - 1) as nat) + contested_in_row(cs, height - 1, width)
    }
}

/// The fabric has `height` rows of `width` squares each.
pub open spec fn shaped(f: Fabric, width: nat, height: nat) -> bool {
    f.cells.len() == height && forall|y: int| 0 <= y < height ==> (#[trigger] f.cells[y]).len() == width
}

/// The fabric records exactly the claims `cs`.
pub open spec fn records(f: Fabric, cs: Seq<Claim>) -> bool {
    forall|x: int, y: int| #[trigger] f.count(x, y) == cover_count(cs, x, y)
}

/// No square of the claim carries a count other than one.
pub open spec fn intact(c: Claim, f: Fabric) -> bool {
    forall|x: int, y: int| covers(c, x, y) ==> #[trigger] f.count(x, y) == 1
}

/// The number of the first line's claim that is intact, going down the
/// lines; `None` once a line writes no claim, or when the lines run out.
pub open spec fn first_intact(ls: Seq<Seq<char>>, f: Fabric) -> Option<usize>
    decreases ls.len(),
{
    if ls.len() == 0 {
        None
    } else {
        match claim_of_line(ls[0]) {
            None => None,
            Some(c) => if intact(c, f) {
                Some(c.id)
            } else {
                first_intact(ls.drop_first(), f)
            },
        }
    }
}

/// Reads one claim.
pub fn parse(line: &Vec<char>) -> (r: Option<Claim>)
    ensures
        r == claim_of_line(line@),
{
    let f = match match_fields("#(\\d+) @ (\\d+),(\\d+): (\\d+)x(\\d+)", line, 5) {
        Some(f) => f,
        None => {
            return None;
        },
    };
    assert(views(f@).len() == 5);
    assert(forall|i: int| 0 <= i < 5 ==> views(f@)[i] == f[i]@);
    let id = read_usize(&f[0]);
    let x = read_usize(&f[1]);
    let y = read_usize(&f[2]);
    let w = read_usize(&f[3]);
    let h = read_usize(&f[4]);
    match (id, x, y, w, h) {
        (Some(id), Some(x), Some(y), Some(w), Some(h)) => {
            if w > usize::MAX - x || h > usize::MAX - y {
                None
            } else {
                Some(Claim { id, x, y, w, h })
            }
        },
        _ => None,
    }
}

/// Reads one claim from each line.
pub fn parse_all(ls: &Vec<Vec<char>>) -> (r: Option<Vec<Claim>>)
    ensures
        match r {
            Some(cs) => claims_of_lines(views(ls@)) == Some(cs@),
            None => claims_of_lines(views(ls@)) is None,
        },
{
    let mut cs: Vec<Claim> = Vec::new();
    let mut i: usize = 0;
    while i < ls.len()
        invariant
            i <= ls.len(),
            cs.len() == i,
            forall|j: int| 0 <= j < i ==> #[trigger] claim_of_line(views(ls@)[j]) == Some(cs[j]),
        decreases ls.len() - i,
    {
        assert(views(ls@)[i as int] == ls[i as int]@);
        match parse(&ls[i]) {
            Some(c) => cs.push(c),
            None => {
                return None;
            },
        }
        i += 1;
    }
    assert(cs@ =~= Seq::new(views(ls@).len(), |i: int| claim_of_line(views(ls@)[i]).unwrap()));
    Some(cs)
}

/// Whether some square of the rectangle carries a count other than one.
pub fn has_other_claims(x: usize, y: usize, w: usize, h: usize, claims: &Fabric) -> (r: bool)
    requires
        x + w <= usize::MAX,
        y + h <= usize::MAX,
    ensures
        r == exists|px: int, py: int|
            x <= px < x + w && y <= py < y + h && #[trigger] claims.count(px, py) != 1,
{
    let mut xx: usize = x;
    while xx < x + w
        invariant
            x <= xx <= x + w <= usize::MAX,
            y + h <= usize::MAX,
            forall|px: int, py: int|
                x <= px < xx && y <= py < y + h ==> #[trigger] claims.count(px, py) == 1,
        decreases x + w - xx,
    {
        let mut yy: usize = y;
        while yy < y + h
            invariant
                x <= xx < x + w <= usize::MAX,
                y <= yy <= y + h <= usize::MAX,
                forall|px: int, py: int|
                    x <= px < xx && y <= py < y + h ==> #[trigger] claims.count(px, py) == 1,
                forall|py: int| y <= py < yy ==> #[trigger] claims.count(xx as int, py) == 1,
            decreases y + h - yy,
        {
            if claims.get(xx, yy) != 1 {
                return true;
            }
            yy += 1;
        }
        xx += 1;
    }
    false
}

/// No square lies under more claims than there are.
pub proof fn cover_count_bounded(cs: Seq<Claim>, x: int, y: int)
    ensures
        cover_count(cs, x, y) <= cs.len(),
    decreases cs.len(),
{
    if cs.len() > 0 {
        cover_count_bounded(cs.drop_last(), x, y);
    }
}

/// A square outside the extent lies under no claim.
pub proof fn outside_extent_uncovered(cs: Seq<Claim>, x: int, y: int)
    requires
        x < 0 || y < 0 || x >= extent_x(cs) || y >= extent_y(cs),
    ensures
        cover_count(cs, x, y) == 0,
    decreases cs.len(),
{
    if cs.len() > 0 {
        outside_extent_uncovered(cs.drop_last(), x, y);
    }
}

/// Counting further along a row, or further down, never lowers the count.
pub proof fn contested_grows(cs: Seq<Claim>, y: int, x: nat, width: nat, height: nat)
    requires
        0 <= y < height,
        x <= width,
    ensures
        contested_in_row(cs, y, x) <= contested_in_row(cs, y, width),
        contested(cs, width, (y + 1) as nat) <= contested(cs, width, height),
    decreases width - x, height - y,
{
    if x < width {
        contested_grows(cs, y, x, (width - 1) as nat, height);
    }
    if y + 1 < height {
        contested_grows(cs, y, width, width, (height - 1) as nat);
    }
}

/// The width and height that hold every claim.
pub fn extent(cs: &Vec<Claim>) -> (r: (usize, usize))
    requires
        forall|i: int| 0 <= i < cs.len() ==> claim_fits(#[trigger] cs[i]),
    ensures
        r.0 == extent_x(cs@),
        r.1 == extent_y(cs@),
{
    let mut max_x: usize = 0;
    let mut max_y: usize = 0;
    let mut k: usize = 0;
    while k < cs.len()
        invariant
            k <= cs.len(),
            forall|i: int| 0 <= i < cs.len() ==> claim_fits(#[trigger] cs[i]),
            max_x == extent_x(cs@.take(k as int)),
            max_y == extent_y(cs@.take(k as int)),
        decreases cs.len() - k,
    {
        assert(cs@.take(k + 1).drop_last() == cs@.take(k as int));
        assert(claim_fits(cs[k as int]));
        let c = &cs[k];
        if c.x + c.w > max_x {
            max_x = c.x + c.w;
        }
        if c.y + c.h > max_y {
            max_y = c.y + c.h;
        }
        k += 1;
    }
    assert(cs@.take(cs.len() as int) == cs@);
    (max_x, max_y)
}

/// A fabric of the given size on which nothing is recorded.
pub fn blank(width: usize, height: usize) -> (f: Fabric)
    ensures
        shaped(f, width as nat, height as nat),
        forall|x: int, y: int| #[trigger] f.count(x, y) == 0,
{
    let mut cells: Vec<Vec<usize>> = Vec::new();
    let mut y: usize = 0;
    while y < height
        invariant
            y <= height,
            cells.len() == y,
            forall|j: int| 0 <= j < y ==> (#[trigger] cells[j]).len() == width,
            forall|j: int, i: int| 0 <= j < y && 0 <= i < width ==> (#[trigger] cells[j][i]) == 0,
        decreases height - y,
    {
        cells.push(vec![0usize; width]);
        y += 1;
    }
    Fabric { cells }
}

/// Two fabrics have the same rows of the same lengths.
pub open spec fn same_shape(f: Fabric, g: Fabric) -> bool {
    f.cells.len() == g.cells.len() && forall|y: int|
        0 <= y < f.cells.len() ==> (#[trigger] f.cells[y]).len() == g.cells[y].len()
}

/// Records one more claim on the fabric.
pub fn mark(f: &mut Fabric, c: &Claim)
    requires
        claim_fits(*c),
        c.y + c.h <= old(f).cells.len(),
        forall|y: int| 0 <= y < old(f).cells.len() ==> c.x + c.w <= (#[trigger] old(f).cells[y]).len(),
        forall|x: int, y: int| #[trigger] old(f).count(x, y) < usize::MAX,
    ensures
        same_shape(*final(f), *old(f)),
        forall|x: int, y: int| #[trigger]
            final(f).count(x, y) == old(f).count(x, y) + if covers(*c, x, y) {
                1nat
            } else {
                0nat
            },
{
    let mut xx: usize = c.x;
    while xx < c.x + c.w
        invariant
            claim_fits(*c),
            same_shape(*f, *old(f)),
            c.x <= xx <= c.x + c.w,
            c.y + c.h <= f.cells.len(),
            forall|y: int| 0 <= y < f.cells.len() ==> c.x + c.w <= (#[trigger] f.cells[y]).len(),
            forall|x: int, y: int| #[trigger] old(f).count(x, y) < usize::MAX,
            forall|x: int, y: int| #[trigger]
                f.count(x, y) == old(f).count(x, y) + if c.x <= x < xx && c.y <= y < c.y + c.h {
                    1nat
                } else {
                    0nat
                },
        decreases c.x + c.w - xx,
    {
        let mut yy: usize = c.y;
        while yy < c.y + c.h
            invariant
                claim_fits(*c),
                same_shape(*f, *old(f)),
                c.x <= xx < c.x + c.w,
                c.y <= yy <= c.y + c.h <= f.cells.len(),
                forall|y: int| 0 <= y < f.cells.len() ==> c.x + c.w <= (#[trigger] f.cells[y]).len(),
                forall|x: int, y: int| #[trigger] old(f).count(x, y) < usize::MAX,
                forall|x: int, y: int| #[trigger]
                    f.count(x, y) == old(f).count(x, y) + if (c.x <= x < xx && c.y <= y < c.y + c.h)
                        || (x == xx && c.y <= y < yy) {
                        1nat
                    } else {
                        0nat
                    },
            decreases c.y + c.h - yy,
        {
            let ghost prev = *f;
            assert(prev.count(xx as int, yy as int) == old(f).count(xx as int, yy as int));
            let n: usize = f.cells[yy][xx];
            f.cells[yy][xx] = n + 1;
            assert(forall|x: int, y: int|
                !(x == xx && y == yy) ==> #[trigger] f.count(x, y) == prev.count(x, y));
            yy += 1;
        }
        xx += 1;
    }
}

/// The claim's far corner fits in a `usize`.
pub open spec fn claim_fits(c: Claim) -> bool {
    c.x + c.w <= usize::MAX && c.y + c.h <= usize::MAX
}

/// The fabric on which every claim is recorded.
pub fn record_all(cs: &Vec<Claim>) -> (f: Fabric)
    requires
        forall|i: int| 0 <= i < cs.len() ==> claim_fits(#[trigger] cs[i]),
    ensures
        records(f, cs@),
        shaped(f, extent_x(cs@), extent_y(cs@)),
{
    let (width, height) = extent(cs);
    let mut f = blank(width, height);
    let mut k: usize = 0;
    while k < cs.len()
        invariant
            k <= cs.len(),
            forall|i: int| 0 <= i < cs.len() ==> claim_fits(#[trigger] cs[i]),
            width == extent_x(cs@),
            height == extent_y(cs@),
            shaped(f, width as nat, height as nat),
            records(f, cs@.take(k as int)),
        decreases cs.len() - k,
    {
        let ghost prev = f;
        assert(cs@.take(k + 1).drop_last() == cs@.take(k as int));
        assert(claim_fits(cs[k as int]));
        proof {
            extent_holds(cs@, k as int);
            assert forall|x: int, y: int| #[trigger] f.count(x, y) < usize::MAX by {
                cover_count_bounded(cs@.take(k as int), x, y);
            }
        }
        mark(&mut f, &cs[k]);
        k += 1;
    }
    assert(cs@.take(cs.len() as int) == cs@);
    f
}

/// Every claim lies within the extent.
pub proof fn extent_holds(cs: Seq<Claim>, i: int)
    requires
        0 <= i < cs.len(),
    ensures
        cs[i].x + cs[i].w <= extent_x(cs),
        cs[i].y + cs[i].h <= extent_y(cs),
    decreases cs.len(),
{
    if i < cs.len() - 1 {
        extent_holds(cs.drop_last(), i);
    }
}

/// How many squares of the fabric carry a count above one, where that number
/// fits in an `i32`.
fn count_contested(f: &Fabric, Ghost(cs): Ghost<Seq<Claim>>) -> (r: Option<usize>)
    requires
        records(*f, cs),
        shaped(*f, extent_x(cs), extent_y(cs)),
    ensures
        r == (if contested(cs, extent_x(cs), extent_y(cs)) <= i32::MAX {
            Some(contested(cs, extent_x(cs), extent_y(cs)) as usize)
        } else {
            None
        }),
{
    let height: usize = f.cells.len();
    let mut total: usize = 0;
    let mut y: usize = 0;
    while y < height
        invariant
            records(*f, cs),
            shaped(*f, extent_x(cs), extent_y(cs)),
            height == extent_y(cs),
            y <= height,
            total == contested(cs, extent_x(cs), y as nat),
            total <= i32::MAX,
        decreases height - y,
    {
        let width: usize = f.cells[y].len();
        let mut x: usize = 0;
        while x < width
            invariant
                records(*f, cs),
                shaped(*f, extent_x(cs), extent_y(cs)),
                height == extent_y(cs),
                width == extent_x(cs),
                y < height,
                x <= width,
                total <= i32::MAX,
                total == contested(cs, extent_x(cs), y as nat) + contested_in_row(
                    cs,
                    y as int,
                    x as nat,
                ),
            decreases width - x,
        {
            if f.get(x, y) > 1 {
                if total == i32::MAX as usize {
                    proof {
                        contested_grows(cs, y as int, (x + 1) as nat, width as nat, height as nat);
                    }
                    return None;
                }
                total += 1;
            }
            x += 1;
        }
        y += 1;
    }
    Some(total)
}

/// What part one answers for the given claims.
pub open spec fn overlap_answer(cs: Seq<Claim>) -> Option<Seq<char>> {
    if contested(cs, extent_x(cs), extent_y(cs)) <= i32::MAX {
        Some(decimal(contested(cs, extent_x(cs), extent_y(cs))))
    } else {
        None
    }
}

/// The number of squares that lie under two or more claims, in decimal,
/// together with the fabric that records the claims. `None` where a line
/// writes no claim or the number does not fit in an `i32`.
pub fn part1(input: &str) -> (r: Option<(String, Fabric)>)
    ensures
        match claims_of_lines(lines(input@)) {
            Some(cs) => match r {
                Some((s, f)) => overlap_answer(cs) == Some(s@) && records(f, cs),
                None => overlap_answer(cs) is None,
            },
            None => r is None,
        },
{
    let chars = chars_of(input);
    let ls = lines_of(&chars);
    let cs = match parse_all(&ls) {
        Some(cs) => cs,
        None => {
            return None;
        },
    };
    assert forall|i: int| 0 <= i < cs.len() implies claim_fits(#[trigger] cs[i]) by {
        assert(claim_of_line(views(ls@)[i]) == Some(cs[i]));
    }
    let f = record_all(&cs);
    match count_contested(&f, Ghost(cs@)) {
        Some(total) => Some((usize_string(total), f)),
        None => None,
    }
}

/// The number of the first claim, going down the lines, none of whose squares
/// carries a count other than one on the fabric given. `None` where a line
/// before it writes no claim, or no claim is such.
pub fn part2(input: &str, claims: Fabric) -> (r: Option<String>)
    ensures
        crate::text::opt_view(r) == (match first_intact(lines(input@), claims) {
            Some(id) => Some(decimal(id as nat)),
            None => None,
        }),
{
    let chars = chars_of(input);
    let ls = lines_of(&chars);
    let mut i: usize = 0;
    assert(views(ls@).skip(0) == views(ls@));
    while i < ls.len()
        invariant
            i <= ls.len(),
            views(ls@) == lines(input@),
            first_intact(views(ls@), claims) == first_intact(views(ls@).skip(i as int), claims),
        decreases ls.len() - i,
    {
        assert(views(ls@).skip(i as int)[0] == ls[i as int]@);
        assert(views(ls@).skip(i as int).drop_first() == views(ls@).skip(i + 1));
        match parse(&ls[i]) {
            Some(c) => {
                if !has_other_claims(c.x, c.y, c.w, c.h, &claims) {
                    return Some(usize_string(c.id));
                }
            },
            None => {
                return None;
            },
        }
        i += 1;
    }
    None
}

} // verus!
