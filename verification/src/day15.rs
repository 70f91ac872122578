//! A cave in which elves and goblins fight: the outcome of the combat, and
//! the outcome with the least attack power that lets every elf live.

use crate::text::{chars_of, decimal, lines, lines_of, opt_view, usize_string, views};
use crate::day15::paths::{
    beside, charted, distance, flood, horizon, least_steps, least_steps_exact, mark, noted,
    steps_to, unreachable_column,
};
use crate::tally::{as_signed, fits, to_signed};
use vstd::prelude::*;

pub mod paths;

verus! {

/// A square of the cave by row and column.
#[derive(Debug, PartialEq, Eq, Structural, Clone, Copy)]
pub struct Point {
    pub y: usize,
    pub x: usize,
}

/// What a square of the cave is: open, or wall.
#[derive(Debug, PartialEq, Eq, Structural, Clone, Copy)]
pub enum Cell {
    Space,
    Tile,
}

/// The two sides.
#[derive(Debug, PartialEq, Eq, Structural, Clone, Copy)]
pub enum UnitType {
    Goblin,
    Elf,
}

impl UnitType {
    /// The other side.
    pub open spec fn foe(self) -> UnitType {
        match self {
            UnitType::Goblin => UnitType::Elf,
            UnitType::Elf => UnitType::Goblin,
        }
    }

    /// The other side.
    pub fn enemy(&self) -> (r: UnitType)
        ensures
            r == self.foe(),
    {
        match self {
            UnitType::Goblin => UnitType::Elf,
            UnitType::Elf => UnitType::Goblin,
        }
    }
}

/// A fighter: where it stands, its attack power, its hit points, its side.
#[derive(Debug, Clone, Copy)]
pub struct Unit {
    pub position: Point,
    pub ap: usize,
    pub hp: isize,
    pub ty: UnitType,
}

/// The cave by rows, and the fighters, the dead among them too.
pub struct Cave {
    pub cells: Vec<Vec<Cell>>,
    pub units: Vec<Unit>,
}

/// The cave and the fighters as plain values.
pub struct Field {
    pub cells: Seq<Seq<Cell>>,
    pub units: Seq<Unit>,
}

/// The rows of the cave as plain values.
pub open spec fn rows_of(cells: Seq<Vec<Cell>>) -> Seq<Seq<Cell>> {
    Seq::new(cells.len(), |i: int| cells[i]@)
}

/// The square at column `x`, row `y` is open.
pub open spec fn open_at(cells: Seq<Seq<Cell>>, x: int, y: int) -> bool {
    0 <= y < cells.len() && 0 <= x < cells[y].len() && cells[y][x] == Cell::Space
}

/// The fighter is alive.
pub open spec fn alive(u: Unit) -> bool {
    u.hp > 0
}

/// The fighter stands at column `x`, row `y`.
pub open spec fn stands_at(u: Unit, x: int, y: int) -> bool {
    u.position.x == x && u.position.y == y
}

/// The first of the first `n` fighters that is alive and stands at column
/// `x`, row `y`.
pub open spec fn occupant(units: Seq<Unit>, x: int, y: int, n: nat) -> Option<int>
    decreases n,
{
    if n == 0 {
        None
    } else {
        match occupant(units, x, y, (n - 1) as nat) {
            Some(i) => Some(i),
            None => if alive(units[n - 1]) && stands_at(units[n - 1], x, y) {
                Some(n - 1)
            } else {
                None
            },
        }
    }
}

/// The square at column `x`, row `y` is open and no living fighter stands on
/// it.
pub open spec fn free(f: Field, x: int, y: int) -> bool {
    open_at(f.cells, x, y) && occupant(f.units, x, y, f.units.len()) is None
}

impl Cave {
    /// The cave and the fighters as plain values.
    pub open spec fn field(&self) -> Field {
        Field { cells: rows_of(self.cells@), units: self.units@ }
    }

    /// What the square is; wall outside the cave.
    pub fn cell_at(&self, pos: Point) -> (c: Cell)
        ensures
            (c == Cell::Space) == open_at(self.field().cells, pos.x as int, pos.y as int),
    {
        if pos.y >= self.cells.len() {
            return Cell::Tile;
        }
        if pos.x >= self.cells[pos.y].len() {
            return Cell::Tile;
        }
        self.cells[pos.y][pos.x]
    }

    /// The first living fighter on the square.
    pub fn unit_at(&self, pos: Point) -> (r: Option<usize>)
        ensures
            match r {
                Some(i) => occupant(self.units@, pos.x as int, pos.y as int, self.units.len() as nat)
                    == Some(i as int) && i < self.units.len(),
                None => occupant(self.units@, pos.x as int, pos.y as int, self.units.len() as nat)
                    is None,
            },
    {
        let mut i: usize = 0;
        while i < self.units.len()
            invariant
                i <= self.units.len(),
                occupant(self.units@, pos.x as int, pos.y as int, i as nat) is None,
            decreases self.units.len() - i,
        {
            let u = &self.units[i];
            if u.position.x == pos.x && u.position.y == pos.y && u.hp > 0 {
                proof {
                    occupant_stays(
                        self.units@,
                        pos.x as int,
                        pos.y as int,
                        (i + 1) as nat,
                        self.units.len() as nat,
                    );
                }
                return Some(i);
            }
            i += 1;
        }
        None
    }

    /// Whether the square is open and no living fighter stands on it.
    pub fn is_free(&self, pos: Point) -> (r: bool)
        ensures
            r == free(self.field(), pos.x as int, pos.y as int),
    {
        match self.cell_at(pos) {
            Cell::Space => self.unit_at(pos).is_none(),
            Cell::Tile => false,
        }
    }
}

/// A fighter found among the first `k` is the one found among more.
pub proof fn occupant_stays(units: Seq<Unit>, x: int, y: int, k: nat, n: nat)
    requires
        k <= n,
        occupant(units, x, y, k) is Some,
    ensures
        occupant(units, x, y, n) == occupant(units, x, y, k),
    decreases n - k,
{
    if k < n {
        occupant_stays(units, x, y, k, (n - 1) as nat);
    }
}

/// Square `a` comes before square `b` going through the rows from the top,
/// each from the left.
pub open spec fn earlier(a: Point, b: Point) -> bool {
    a.y < b.y || (a.y == b.y && a.x < b.x)
}

/// Whether square `a` comes before square `b` in reading order.
pub fn comes_first(a: Point, b: Point) -> (r: bool)
    ensures
        r == earlier(a, b),
{
    a.y < b.y || (a.y == b.y && a.x < b.x)
}

/// The square beside column `x`, row `y` in direction `dir`: right, left,
/// down, up, numbered from zero.
pub open spec fn toward(x: int, y: int, dir: int) -> (int, int) {
    if dir == 0 {
        (x + 1, y)
    } else if dir == 1 {
        (x - 1, y)
    } else if dir == 2 {
        (x, y + 1)
    } else {
        (x, y - 1)
    }
}

impl Point {
    /// The four squares beside this one: right, left, down, up.
    pub fn neighbors(&self) -> (r: [Point; 4])
        requires
            1 <= self.x < usize::MAX,
            1 <= self.y < usize::MAX,
        ensures
            forall|dir: int|
                0 <= dir < 4 ==> (#[trigger] r[dir]).x == toward(self.x as int, self.y as int, dir).0
                    && r[dir].y == toward(self.x as int, self.y as int, dir).1,
    {
        [
            Point { x: self.x + 1, y: self.y },
            Point { x: self.x - 1, y: self.y },
            Point { x: self.x, y: self.y + 1 },
            Point { x: self.x, y: self.y - 1 },
        ]
    }
}

/// The pair names a square: neither number is below zero or beyond `usize`.
pub open spec fn named(p: (int, int)) -> bool {
    0 <= p.0 <= usize::MAX && 0 <= p.1 <= usize::MAX
}

impl Point {
    /// The square beside this one in direction `dir`: right, left, down, up,
    /// numbered from zero; none where no pair of `usize` names it.
    pub fn neighbor(&self, dir: usize) -> (r: Option<Point>)
        requires
            dir < 4,
        ensures
            match r {
                Some(q) => (q.x as int, q.y as int) == toward(self.x as int, self.y as int, dir as int),
                None => !named(toward(self.x as int, self.y as int, dir as int)),
            },
    {
        if dir == 0 {
            if self.x < usize::MAX {
                Some(Point { x: self.x + 1, y: self.y })
            } else {
                None
            }
        } else if dir == 1 {
            if self.x > 0 {
                Some(Point { x: self.x - 1, y: self.y })
            } else {
                None
            }
        } else if dir == 2 {
            if self.y < usize::MAX {
                Some(Point { x: self.x, y: self.y + 1 })
            } else {
                None
            }
        } else {
            if self.y > 0 {
                Some(Point { x: self.x, y: self.y - 1 })
            } else {
                None
            }
        }
    }
}

/// Fighter `j` is alive and on the other side than fighter `i`.
pub open spec fn is_foe(units: Seq<Unit>, i: int, j: int) -> bool {
    0 <= j < units.len() && alive(units[j]) && units[j].ty == units[i].ty.foe()
}

/// The foe of fighter `i` that stands beside it in direction `dir`: the
/// first living fighter on that square, if it is on the other side.
pub open spec fn foe_toward(f: Field, i: int, dir: int) -> Option<int> {
    let p = toward(f.units[i].position.x as int, f.units[i].position.y as int, dir);
    match occupant(f.units, p.0, p.1, f.units.len()) {
        Some(j) => if f.units[j].ty == f.units[i].ty.foe() {
            Some(j)
        } else {
            None
        },
        None => None,
    }
}

/// Fighter `a` is the better target than fighter `b`: it has fewer hit
/// points, or as many and stands earlier in reading order.
pub open spec fn weaker(units: Seq<Unit>, a: int, b: int) -> bool {
    units[a].hp < units[b].hp || (units[a].hp == units[b].hp && earlier(
        units[a].position,
        units[b].position,
    ))
}

/// The target of fighter `i` among the foes beside it in the first `n`
/// directions: the one with the fewest hit points, and of several the one
/// that stands first in reading order.
pub open spec fn victim(f: Field, i: int, n: nat) -> Option<int>
    decreases n,
{
    if n == 0 {
        None
    } else {
        match (victim(f, i, (n - 1) as nat), foe_toward(f, i, n - 1)) {
            (Some(b), Some(h)) => if weaker(f.units, h, b) {
                Some(h)
            } else {
                Some(b)
            },
            (Some(b), None) => Some(b),
            (None, h) => h,
        }
    }
}

/// The field after fighter `i` has dealt its attack power, taken as a signed
/// number, to its target, if it has one. `None` where the hit points left do
/// not fit in an `isize`.
pub open spec fn struck(f: Field, i: int) -> Option<Field> {
    match victim(f, i, 4) {
        Some(j) => if fits(f.units[j].hp - as_signed(f.units[i].ap)) {
            Some(
                Field {
                    cells: f.cells,
                    units: f.units.update(
                        j,
                        Unit {
                            hp: (f.units[j].hp - as_signed(f.units[i].ap)) as isize,
                            ..f.units[j]
                        },
                    ),
                },
            )
        } else {
            None
        },
        None => Some(f),
    }
}

/// No fighter stands on a square that no pair of `usize` names.
pub proof fn occupant_outside(units: Seq<Unit>, x: int, y: int, n: nat)
    requires
        x < 0 || x > usize::MAX || y < 0 || y > usize::MAX,
    ensures
        occupant(units, x, y, n) is None,
    decreases n,
{
    if n > 0 {
        occupant_outside(units, x, y, (n - 1) as nat);
    }
}

/// The hit points of the living among the first `n` fighters.
pub open spec fn hit_points(units: Seq<Unit>, n: nat) -> nat
    decreases n,
{
    if n == 0 {
        0
    } else if alive(units[n - 1]) {
        hit_points(units, (n - 1) as nat) + units[n - 1].hp as nat
    } else {
        hit_points(units, (n - 1) as nat)
    }
}

/// One of the first `n` fighters is on side `ty` and dead.
pub open spec fn any_dead(units: Seq<Unit>, ty: UnitType, n: nat) -> bool
    decreases n,
{
    if n == 0 {
        false
    } else {
        any_dead(units, ty, (n - 1) as nat) || (units[n - 1].ty == ty && !alive(units[n - 1]))
    }
}

/// The living fighters among the first `n` that are on the other side than
/// `ty`, by number.
pub open spec fn foes_of(units: Seq<Unit>, ty: UnitType, n: nat) -> Seq<usize>
    decreases n,
{
    if n == 0 {
        seq![]
    } else if alive(units[n - 1]) && units[n - 1].ty == ty.foe() {
        foes_of(units, ty, (n - 1) as nat).push((n - 1) as usize)
    } else {
        foes_of(units, ty, (n - 1) as nat)
    }
}

impl Cave {
    /// The living fighters on the other side than `ty`, by number.
    pub fn enemies_of(&self, ty: UnitType) -> (r: Vec<usize>)
        ensures
            r@ == foes_of(self.units@, ty, self.units.len() as nat),
    {
        let mut out: Vec<usize> = Vec::new();
        let mut i: usize = 0;
        let foe = ty.enemy();
        while i < self.units.len()
            invariant
                i <= self.units.len(),
                foe == ty.foe(),
                out@ == foes_of(self.units@, ty, i as nat),
            decreases self.units.len() - i,
        {
            if self.units[i].hp > 0 && self.units[i].ty == foe {
                out.push(i);
            }
            i += 1;
        }
        out
    }

    /// The hit points of all living fighters together, where they fit in an
    /// `isize`.
    pub fn total_hp(&self) -> (r: Option<usize>)
        ensures
            match r {
                Some(v) => v == hit_points(self.units@, self.units.len() as nat) && v <= isize::MAX,
                None => hit_points(self.units@, self.units.len() as nat) > isize::MAX,
            },
    {
        let mut sum: usize = 0;
        let mut i: usize = 0;
        while i < self.units.len()
            invariant
                i <= self.units.len(),
                sum == hit_points(self.units@, i as nat),
            decreases self.units.len() - i,
        {
            if self.units[i].hp > 0 {
                proof {
                    hit_points_grow(self.units@, (i + 1) as nat, self.units.len() as nat);
                }
                sum = match sum.checked_add(self.units[i].hp as usize) {
                    Some(v) => v,
                    None => {
                        return None;
                    },
                };
            }
            i += 1;
        }
        if sum > isize::MAX as usize {
            None
        } else {
            Some(sum)
        }
    }

    /// Whether a fighter on side `ty` is dead.
    pub fn is_any_dead(&self, ty: UnitType) -> (r: bool)
        ensures
            r == any_dead(self.units@, ty, self.units.len() as nat),
    {
        let mut i: usize = 0;
        while i < self.units.len()
            invariant
                i <= self.units.len(),
                !any_dead(self.units@, ty, i as nat),
            decreases self.units.len() - i,
        {
            if self.units[i].ty == ty && self.units[i].hp <= 0 {
                proof {
                    dead_stays(self.units@, ty, (i + 1) as nat, self.units.len() as nat);
                }
                return true;
            }
            i += 1;
        }
        false
    }
}

/// The hit points of some of the fighters are no more than those of more.
pub proof fn hit_points_grow(units: Seq<Unit>, k: nat, n: nat)
    requires
        k <= n,
    ensures
        hit_points(units, k) <= hit_points(units, n),
    decreases n - k,
{
    if k < n {
        hit_points_grow(units, k, (n - 1) as nat);
    }
}

/// A dead fighter among the first `k` is one among more.
pub proof fn dead_stays(units: Seq<Unit>, ty: UnitType, k: nat, n: nat)
    requires
        k <= n,
        any_dead(units, ty, k),
    ensures
        any_dead(units, ty, n),
    decreases n - k,
{
    if k < n {
        dead_stays(units, ty, k, (n - 1) as nat);
    }
}

/// What the character stands for: a hash sign is wall, anything else open.
pub open spec fn cell_of(c: char) -> Cell {
    if c == '#' {
        Cell::Tile
    } else {
        Cell::Space
    }
}

/// The cave that the lines draw.
pub open spec fn cells_of(ls: Seq<Seq<char>>) -> Seq<Seq<Cell>> {
    Seq::new(ls.len(), |y: int| Seq::new(ls[y].len(), |x: int| cell_of(ls[y][x])))
}

/// The fighter that the character stands for at column `x`, row `y`: `E` an
/// elf, `G` a goblin, each with two hundred hit points.
pub open spec fn fighter_of(c: char, x: usize, y: usize, goblin_ap: usize, elf_ap: usize) -> Option<
    Unit,
> {
    if c == 'E' {
        Some(Unit { position: Point { x, y }, ty: UnitType::Elf, hp: 200, ap: elf_ap })
    } else if c == 'G' {
        Some(Unit { position: Point { x, y }, ty: UnitType::Goblin, hp: 200, ap: goblin_ap })
    } else {
        None
    }
}

/// The fighters of the first `n` characters of row `y`, after the fighters
/// `before`.
pub open spec fn fighters_in_row(
    before: Seq<Unit>,
    row: Seq<char>,
    y: usize,
    n: nat,
    goblin_ap: usize,
    elf_ap: usize,
) -> Seq<Unit>
    decreases n,
{
    if n == 0 {
        before
    } else {
        let found = fighters_in_row(before, row, y, (n - 1) as nat, goblin_ap, elf_ap);
        match fighter_of(row[n - 1], (n - 1) as usize, y, goblin_ap, elf_ap) {
            Some(u) => found.push(u),
            None => found,
        }
    }
}

/// The fighters of the first `n` rows, in reading order.
pub open spec fn fighters_of(ls: Seq<Seq<char>>, n: nat, goblin_ap: usize, elf_ap: usize) -> Seq<Unit>
    decreases n,
{
    if n == 0 {
        seq![]
    } else {
        fighters_in_row(
            fighters_of(ls, (n - 1) as nat, goblin_ap, elf_ap),
            ls[n - 1],
            (n - 1) as usize,
            ls[n - 1].len(),
            goblin_ap,
            elf_ap,
        )
    }
}

/// The cave and the fighters that the input draws.
pub open spec fn field_of(input: Seq<char>, goblin_ap: usize, elf_ap: usize) -> Field {
    Field {
        cells: cells_of(lines(input)),
        units: fighters_of(lines(input), lines(input).len(), goblin_ap, elf_ap),
    }
}

impl Cave {
    /// The cave and the fighters that the input draws, with the given attack
    /// powers.
    pub fn new(input: &str, goblin_ap: usize, elf_ap: usize) -> (cave: Cave)
        ensures
            cave.field() == field_of(input@, goblin_ap, elf_ap),
    {
        let chars = chars_of(input);
        let ls = lines_of(&chars);
        let ghost text = lines(input@);
        let mut cells: Vec<Vec<Cell>> = Vec::new();
        let mut units: Vec<Unit> = Vec::new();
        let mut y: usize = 0;
        while y < ls.len()
            invariant
                y <= ls.len(),
                text == views(ls@),
                cells.len() == y,
                forall|j: int| 0 <= j < y ==> (#[trigger] cells[j])@ == cells_of(text)[j],
                units@ == fighters_of(text, y as nat, goblin_ap, elf_ap),
            decreases ls.len() - y,
        {
            let line = &ls[y];
            assert(text[y as int] == line@);
            let mut row: Vec<Cell> = Vec::new();
            let ghost units_above = units@;
            let mut x: usize = 0;
            while x < line.len()
                invariant
                    x <= line.len(),
                    y < ls.len(),
                    text == views(ls@),
                    text[y as int] == line@,
                    row.len() == x,
                    forall|i: int| 0 <= i < x ==> #[trigger] row[i] == cell_of(line[i]),
                    units_above == fighters_of(text, y as nat, goblin_ap, elf_ap),
                    units@ == fighters_in_row(units_above, line@, y, x as nat, goblin_ap, elf_ap),
                decreases line.len() - x,
            {
                let c = line[x];
                if c == '#' {
                    row.push(Cell::Tile);
                } else {
                    row.push(Cell::Space);
                }
                if c == 'E' {
                    units.push(
                        Unit { position: Point { x, y }, ty: UnitType::Elf, hp: 200, ap: elf_ap },
                    );
                }
                if c == 'G' {
                    units.push(
                        Unit { position: Point { x, y }, ty: UnitType::Goblin, hp: 200, ap: goblin_ap },
                    );
                }
                x += 1;
            }
            assert(row@ =~= cells_of(text)[y as int]);
            cells.push(row);
            y += 1;
        }
        let cave = Cave { cells, units };
        assert(rows_of(cave.cells@) =~= cells_of(text));
        cave
    }
}

impl Cave {
    /// Lets fighter `unit_id` attack its target, if it has one. Gives
    /// whether it had, or `None` where the hit points left do not fit in an
    /// `isize`.
    pub fn do_attack(&mut self, unit_id: usize) -> (r: Option<bool>)
        requires
            unit_id < old(self).units.len(),
        ensures
            match struck(old(self).field(), unit_id as int) {
                Some(g) => {
                    &&& r == Some(victim(old(self).field(), unit_id as int, 4) is Some)
                    &&& final(self).field() == g
                    &&& final(self).units.len() == old(self).units.len()
                    &&& final(self).units[unit_id as int].position == old(
                        self,
                    ).units[unit_id as int].position
                },
                None => r is None,
            },
            final(self).cells == old(self).cells,
    {
        let ghost f = self.field();
        let me = self.units[unit_id];
        let foe = me.ty.enemy();
        let mut target: Option<usize> = None;
        let mut dir: usize = 0;
        while dir < 4
            invariant
                dir <= 4,
                f == self.field(),
                *self == *old(self),
                unit_id < self.units.len(),
                me == self.units[unit_id as int],
                foe == me.ty.foe(),
                match target {
                    Some(j) => victim(f, unit_id as int, dir as nat) == Some(j as int) && j
                        < self.units.len() && self.units[j as int].ty == foe,
                    None => victim(f, unit_id as int, dir as nat) is None,
                },
            decreases 4 - dir,
        {
            let found = match me.position.neighbor(dir) {
                Some(q) => self.unit_at(q),
                None => {
                    proof {
                        let p = toward(me.position.x as int, me.position.y as int, dir as int);
                        occupant_outside(self.units@, p.0, p.1, self.units.len() as nat);
                    }
                    None
                },
            };
            match found {
                Some(j) => {
                    if self.units[j].ty == foe {
                        let better = match target {
                            Some(b) => self.units[j].hp < self.units[b].hp || (self.units[j].hp
                                == self.units[b].hp && comes_first(
                                self.units[j].position,
                                self.units[b].position,
                            )),
                            None => true,
                        };
                        if better {
                            target = Some(j);
                        }
                    }
                },
                None => {},
            }
            dir += 1;
        }
        match target {
            Some(j) => {
                let left = match self.units[j].hp.checked_sub(to_signed(me.ap)) {
                    Some(v) => v,
                    None => {
                        return None;
                    },
                };
                let ghost before = self.units@;
                assert(j != unit_id);
                let hurt = Unit { hp: left, ..self.units[j] };
                self.units[j] = hurt;
                assert(self.units@ == before.update(j as int, hurt));
                Some(true)
            },
            None => Some(false),
        }
    }
}

/// The fighter stands beside the square at column `x`, row `y`.
pub open spec fn stands_beside(u: Unit, x: int, y: int) -> bool {
    beside((u.position.x as int, u.position.y as int), (x, y))
}

/// One of the first `n` fighters is a living foe of fighter `i` and stands
/// beside the square at column `x`, row `y`.
pub open spec fn foe_beside(units: Seq<Unit>, i: int, x: int, y: int, n: nat) -> bool
    decreases n,
{
    if n == 0 {
        false
    } else {
        foe_beside(units, i, x, y, (n - 1) as nat) || (is_foe(units, i, n - 1) && stands_beside(
            units[n - 1],
            x,
            y,
        ))
    }
}

/// The square at column `x`, row `y` is in range for fighter `i`: free, and
/// beside a living foe.
pub open spec fn in_range(f: Field, i: int, x: int, y: int) -> bool {
    free(f, x, y) && foe_beside(f.units, i, x, y, f.units.len())
}

/// Where fighter `i` stands, as column and row.
pub open spec fn place(f: Field, i: int) -> (int, int) {
    (f.units[i].position.x as int, f.units[i].position.y as int)
}

/// The square in range of fighter `i` that is nearest to it, with its
/// distance, among the squares in the rows before `y` and in row `y` before
/// column `x`; of several the first in reading order.
pub open spec fn goal_upto(f: Field, i: int, y: nat, x: nat) -> Option<(Point, nat)>
    decreases y, x,
{
    if x == 0 {
        if y == 0 {
            None
        } else {
            goal_upto(f, i, (y - 1) as nat, f.cells[y - 1].len())
        }
    } else {
        let before = goal_upto(f, i, y, (x - 1) as nat);
        match distance(f, place(f, i), (x - 1, y as int)) {
            Some(d) => if in_range(f, i, x - 1, y as int) && (before is None || d
                < before.unwrap().1) {
                Some((Point { x: (x - 1) as usize, y: y as usize }, d))
            } else {
                before
            },
            None => before,
        }
    }
}

/// Some square is one step further from `from` than `d`.
pub open spec fn beyond(f: Field, from: (int, int), d: nat) -> bool {
    exists|x: int, y: int| #[trigger] distance(f, from, (x, y)) == Some(d + 1)
}

/// The square that fighter `i` makes for: the nearest square in range, the
/// first in reading order of several. There is none where no square in range
/// can be reached, or no square lies further away than the nearest in range.
pub open spec fn move_target(f: Field, i: int) -> Option<Point> {
    match goal_upto(f, i, f.cells.len(), 0) {
        Some(g) => if beyond(f, place(f, i), g.1) {
            Some(g.0)
        } else {
            None
        },
        None => None,
    }
}

/// The step that fighter `i` takes toward `goal`, with the distance from
/// there, among the first `n` directions: the free square beside it from
/// which the goal is nearest, the first in reading order of several.
pub open spec fn step_upto(f: Field, i: int, goal: Point, n: nat) -> Option<(Point, nat)>
    decreases n,
{
    if n == 0 {
        None
    } else {
        let before = step_upto(f, i, goal, (n - 1) as nat);
        let p = toward(place(f, i).0, place(f, i).1, n - 1);
        let here = Point { x: p.0 as usize, y: p.1 as usize };
        match distance(f, p, (goal.x as int, goal.y as int)) {
            Some(d) => if free(f, p.0, p.1) && (before is None || d < before.unwrap().1 || (d
                == before.unwrap().1 && earlier(here, before.unwrap().0))) {
                Some((here, d))
            } else {
                before
            },
            None => before,
        }
    }
}

/// The field with fighter `i` on the square `p`.
pub open spec fn moved(f: Field, i: int, p: Point) -> Field {
    Field { cells: f.cells, units: f.units.update(i, Unit { position: p, ..f.units[i] }) }
}

impl Cave {
    /// Whether a living foe of fighter `unit_id` stands beside the square.
    pub fn has_foe_beside(&self, unit_id: usize, pos: Point) -> (r: bool)
        requires
            unit_id < self.units.len(),
        ensures
            r == foe_beside(
                self.units@,
                unit_id as int,
                pos.x as int,
                pos.y as int,
                self.units.len() as nat,
            ),
    {
        let foe = self.units[unit_id].ty.enemy();
        let mut j: usize = 0;
        while j < self.units.len()
            invariant
                j <= self.units.len(),
                unit_id < self.units.len(),
                foe == self.units[unit_id as int].ty.foe(),
                !foe_beside(self.units@, unit_id as int, pos.x as int, pos.y as int, j as nat),
            decreases self.units.len() - j,
        {
            let u = &self.units[j];
            if u.hp > 0 && u.ty == foe {
                let q = u.position;
                let near: bool = (q.y == pos.y && ((q.x < pos.x && pos.x - q.x == 1) || (pos.x < q.x
                    && q.x - pos.x == 1))) || (q.x == pos.x && ((q.y < pos.y && pos.y - q.y == 1)
                    || (pos.y < q.y && q.y - pos.y == 1)));
                if near {
                    proof {
                        foe_beside_stays(
                            self.units@,
                            unit_id as int,
                            pos.x as int,
                            pos.y as int,
                            (j + 1) as nat,
                            self.units.len() as nat,
                        );
                    }
                    return true;
                }
            }
            j += 1;
        }
        false
    }

    /// The distance from `from` to `to`: the least number of steps from
    /// square to square beside it, over free squares after `from`. `from`
    /// may be any square, a wall or one outside the cave too.
    pub fn distance_to(&self, from: Point, to: Point) -> (r: Option<usize>)
        ensures
            r == steps_to(self.field(), (from.x as int, from.y as int), to.x as int, to.y as int),
            to == from ==> r == Some(0usize),
    {
        let dist = flood(self, from);
        assert(noted(dist@, (from.x as int, from.y as int), to.x as int, to.y as int) == steps_to(
            self.field(),
            (from.x as int, from.y as int),
            to.x as int,
            to.y as int,
        ));
        if to.x == from.x && to.y == from.y {
            Some(0)
        } else if to.y < dist.len() && to.x < dist[to.y].len() {
            dist[to.y][to.x]
        } else {
            None
        }
    }
}

/// A foe found beside the square among the first `k` fighters is one among
/// more.
pub proof fn foe_beside_stays(units: Seq<Unit>, i: int, x: int, y: int, k: nat, n: nat)
    requires
        k <= n,
        foe_beside(units, i, x, y, k),
    ensures
        foe_beside(units, i, x, y, n),
    decreases n - k,
{
    if k < n {
        foe_beside_stays(units, i, x, y, k, (n - 1) as nat);
    }
}

/// A least number of steps up to `n` is `n` at most.
pub proof fn least_steps_bound(f: Field, from: (int, int), p: (int, int), n: nat)
    ensures
        least_steps(f, from, p, n) is Some ==> least_steps(f, from, p, n).unwrap() <= n,
    decreases n,
{
    if n > 0 {
        least_steps_bound(f, from, p, (n - 1) as nat);
    }
}

/// A note is the distance to its square; for the start that is so where
/// the start has a note.
pub proof fn mark_is_distance(f: Field, from: (int, int), dist: Seq<Vec<Option<usize>>>, x: int, y: int)
    requires
        charted(f, from, dist),
        mark(dist, from.0, from.1) is Some || (x, y) != from,
    ensures
        match mark(dist, x, y) {
            Some(m) => distance(f, from, (x, y)) == Some(m as nat),
            None => distance(f, from, (x, y)) is None,
        },
{
    assert(noted(dist, from, x, y) == steps_to(f, from, x, y));
    least_steps_bound(f, from, (x, y), horizon(f));
}

impl Cave {
    /// The square that fighter `unit_id` makes for.
    pub fn find_closest(&self, unit_id: usize) -> (r: Option<Point>)
        requires
            unit_id < self.units.len(),
        ensures
            r == move_target(self.field(), unit_id as int),
    {
        let ghost f = self.field();
        let ghost i = unit_id as int;
        let from = self.units[unit_id].position;
        let ghost start = (from.x as int, from.y as int);
        let dist = flood(self, from);
        let mut best: Option<(Point, usize)> = None;
        let mut y: usize = 0;
        while y < self.cells.len()
            invariant
                y <= self.cells.len(),
                f == self.field(),
                i == unit_id as int,
                unit_id < self.units.len(),
                start == place(f, i),
                charted(f, start, dist@),
                match best {
                    Some(b) => goal_upto(f, i, y as nat, 0) == Some((b.0, b.1 as nat)),
                    None => goal_upto(f, i, y as nat, 0) is None,
                },
            decreases self.cells.len() - y,
        {
            assert(f.cells[y as int] == self.cells[y as int]@);
            let w: usize = self.cells[y].len();
            let mut x: usize = 0;
            assert(goal_upto(f, i, (y + 1) as nat, 0) == goal_upto(f, i, y as nat, w as nat));
            while x < w
                invariant
                    x <= w,
                    y < self.cells.len(),
                    w == self.cells[y as int].len(),
                    f == self.field(),
                    i == unit_id as int,
                    unit_id < self.units.len(),
                    start == place(f, i),
                    charted(f, start, dist@),
                    x == 0 ==> match best {
                        Some(b) => goal_upto(f, i, y as nat, 0) == Some((b.0, b.1 as nat)),
                        None => goal_upto(f, i, y as nat, 0) is None,
                    },
                    x > 0 ==> match best {
                        Some(b) => goal_upto(f, i, y as nat, x as nat) == Some((b.0, b.1 as nat)),
                        None => goal_upto(f, i, y as nat, x as nat) is None,
                    },
                decreases w - x,
            {
                let p = Point { x, y };
                proof {
                    mark_is_distance(f, start, dist@, x as int, y as int);
                    if x == 0 {
                        goal_row_start(f, i, y as nat);
                    }
                }
                assert(mark(dist@, x as int, y as int) == dist[y as int][x as int]);
                match dist[y][x] {
                    Some(d) => {
                        let nearer = match best {
                            Some(b) => d < b.1,
                            None => true,
                        };
                        if nearer && self.is_free(p) && self.has_foe_beside(unit_id, p) {
                            best = Some((p, d));
                        }
                    },
                    None => {},
                }
                x += 1;
            }
            proof {
                if w == 0 {
                    goal_row_start(f, i, y as nat);
                }
            }
            y += 1;
        }
        let (goal, d) = match best {
            Some(b) => b,
            None => {
                return None;
            },
        };
        if d == usize::MAX {
            proof {
                assert forall|x: int, y: int| #[trigger] distance(f, start, (x, y)) != Some(
                    (d + 1) as nat,
                ) by {
                    least_steps_bound(f, start, (x, y), horizon(f));
                }
            }
            return None;
        }
        let mut y: usize = 0;
        while y < dist.len()
            invariant
                y <= dist.len(),
                d < usize::MAX,
                f == self.field(),
                start == place(f, i),
                i == unit_id as int,
                goal_upto(f, i, f.cells.len(), 0) == Some((goal, d as nat)),
                charted(f, start, dist@),
                forall|cx: int, cy: int|
                    0 <= cy < y ==> #[trigger] mark(dist@, cx, cy) != Some((d + 1) as usize),
            decreases dist.len() - y,
        {
            let mut x: usize = 0;
            while x < dist[y].len()
                invariant
                    x <= dist[y as int].len(),
                    y < dist.len(),
                    d < usize::MAX,
                    f == self.field(),
                    start == place(f, i),
                    i == unit_id as int,
                    goal_upto(f, i, f.cells.len(), 0) == Some((goal, d as nat)),
                    charted(f, start, dist@),
                    forall|cx: int, cy: int|
                        0 <= cy < y ==> #[trigger] mark(dist@, cx, cy) != Some((d + 1) as usize),
                    forall|cx: int|
                        0 <= cx < x ==> #[trigger] mark(dist@, cx, y as int) != Some((d + 1) as usize),
                decreases dist[y as int].len() - x,
            {
                assert(mark(dist@, x as int, y as int) == dist[y as int][x as int]);
                match dist[y][x] {
                    Some(m) => {
                        if m == d + 1 {
                            proof {
                                mark_is_distance(f, start, dist@, x as int, y as int);
                                assert(distance(f, start, (x as int, y as int)) == Some(
                                    (d + 1) as nat,
                                ));
                            }
                            return Some(goal);
                        }
                    },
                    None => {},
                }
                x += 1;
            }
            y += 1;
        }
        proof {
            assert forall|x: int, y: int| #[trigger] distance(f, start, (x, y)) != Some(
                (d + 1) as nat,
            ) by {
                if (x, y) == start {
                    least_steps_exact(f, start, start, 0, horizon(f));
                } else {
                    mark_is_distance(f, start, dist@, x, y);
                    if 0 <= y < dist.len() && 0 <= x < dist[y].len() {
                        assert(mark(dist@, x, y) != Some((d + 1) as usize));
                    }
                }
            }
        }
        None
    }

    /// The step that fighter `unit_id` takes toward `goal`.
    pub fn choose_step(&self, unit_id: usize, goal: Point) -> (r: Option<Point>)
        requires
            unit_id < self.units.len(),
        ensures
            match r {
                Some(p) => step_upto(self.field(), unit_id as int, goal, 4) is Some && step_upto(
                    self.field(),
                    unit_id as int,
                    goal,
                    4,
                ).unwrap().0 == p && free(self.field(), p.x as int, p.y as int),
                None => step_upto(self.field(), unit_id as int, goal, 4) is None,
            },
    {
        let ghost f = self.field();
        let ghost i = unit_id as int;
        let me = self.units[unit_id];
        let mut best: Option<(Point, usize)> = None;
        let mut dir: usize = 0;
        while dir < 4
            invariant
                dir <= 4,
                f == self.field(),
                i == unit_id as int,
                unit_id < self.units.len(),
                me == self.units[unit_id as int],
                match best {
                    Some(b) => step_upto(f, i, goal, dir as nat) == Some((b.0, b.1 as nat)) && free(
                        f,
                        b.0.x as int,
                        b.0.y as int,
                    ),
                    None => step_upto(f, i, goal, dir as nat) is None,
                },
            decreases 4 - dir,
        {
            let ghost spot = toward(me.position.x as int, me.position.y as int, dir as int);
            match me.position.neighbor(dir) {
                Some(p) => {
                    if self.is_free(p) {
                        proof {
                            least_steps_bound(
                                f,
                                (p.x as int, p.y as int),
                                (goal.x as int, goal.y as int),
                                horizon(f),
                            );
                        }
                        match self.distance_to(p, goal) {
                            Some(d) => {
                                let better = match best {
                                    Some(b) => d < b.1 || (d == b.1 && comes_first(p, b.0)),
                                    None => true,
                                };
                                if better {
                                    best = Some((p, d));
                                }
                            },
                            None => {},
                        }
                    }
                },
                None => {
                    proof {
                        if spot.0 > usize::MAX {
                            unreachable_column(self, spot.0, spot.1);
                        }
                        assert(f.cells.len() == self.cells.len());
                        assert(!free(f, spot.0, spot.1));
                    }
                },
            }
            dir += 1;
        }
        match best {
            Some(b) => Some(b.0),
            None => None,
        }
    }
}

/// The search of a row starts from what the rows above gave.
pub proof fn goal_row_start(f: Field, i: int, y: nat)
    ensures
        y > 0 ==> goal_upto(f, i, y, 0) == goal_upto(f, i, (y - 1) as nat, f.cells[y - 1].len()),
        y == 0 ==> goal_upto(f, i, y, 0) is None,
{
}

/// The turn of fighter `i`: the field after it, and whether the combat
/// goes on. A dead fighter does nothing. Where no foe is alive the combat is
/// over. A fighter with a foe beside it attacks; any other makes for the
/// nearest square in range, takes one step, and attacks if a foe is beside
/// it then. `None` where a number does not fit, or no step leads to the
/// square made for.
pub open spec fn turn(f: Field, i: int) -> Option<(Field, bool)> {
    if !alive(f.units[i]) {
        Some((f, true))
    } else if foes_of(f.units, f.units[i].ty, f.units.len()).len() == 0 {
        Some((f, false))
    } else if victim(f, i, 4) is Some {
        match struck(f, i) {
            Some(g) => Some((g, true)),
            None => None,
        }
    } else {
        match move_target(f, i) {
            Some(goal) => match step_upto(f, i, goal, 4) {
                Some(s) => match struck(moved(f, i, s.0), i) {
                    Some(h) => Some((h, true)),
                    None => None,
                },
                None => None,
            },
            None => Some((f, true)),
        }
    }
}

impl Cave {
    /// Lets fighter `unit_id` take its turn. Gives whether the combat goes
    /// on.
    pub fn take_turn(&mut self, unit_id: usize) -> (r: Option<bool>)
        requires
            unit_id < old(self).units.len(),
        ensures
            match turn(old(self).field(), unit_id as int) {
                Some(t) => {
                    &&& r == Some(t.1)
                    &&& final(self).field() == t.0
                    &&& final(self).units.len() == old(self).units.len()
                },
                None => r is None,
            },
            final(self).cells == old(self).cells,
    {
        let ghost f = self.field();
        if self.units[unit_id].hp <= 0 {
            return Some(true);
        }
        let enemies = self.enemies_of(self.units[unit_id].ty);
        if enemies.len() == 0 {
            return Some(false);
        }
        match self.do_attack(unit_id) {
            Some(true) => {
                return Some(true);
            },
            Some(false) => {},
            None => {
                return None;
            },
        }
        assert(self.field() == f);
        let goal = match self.find_closest(unit_id) {
            Some(g) => g,
            None => {
                return Some(true);
            },
        };
        let to = match self.choose_step(unit_id, goal) {
            Some(p) => p,
            None => {
                return None;
            },
        };
        let ghost before = self.units@;
        let walker = Unit { position: to, ..self.units[unit_id] };
        self.units[unit_id] = walker;
        proof {
            assert(self.units@ == before.update(unit_id as int, walker));
            assert(self.field() == moved(f, unit_id as int, to));
        }
        match self.do_attack(unit_id) {
            Some(_) => Some(true),
            None => None,
        }
    }
}

/// The order with fighter `id` put behind the last fighter that does not
/// stand later in reading order.
pub open spec fn slotted(units: Seq<Unit>, order: Seq<usize>, id: usize) -> Seq<usize>
    decreases order.len(),
{
    if order.len() == 0 {
        seq![id]
    } else if !earlier(units[id as int].position, units[order.last() as int].position) {
        order.push(id)
    } else {
        slotted(units, order.drop_last(), id).push(order.last())
    }
}

/// The first `n` fighters by number, in the reading order of where they
/// stand; fighters on one square keep their order.
pub open spec fn ranked(units: Seq<Unit>, n: nat) -> Seq<usize>
    decreases n,
{
    if n == 0 {
        seq![]
    } else {
        slotted(units, ranked(units, (n - 1) as nat), (n - 1) as usize)
    }
}

/// The field after the turns of the first `n` fighters of the order, and
/// whether the combat goes on; once it is over, no further turn is taken.
pub open spec fn round_upto(f: Field, order: Seq<usize>, n: nat) -> Option<(Field, bool)>
    decreases n,
{
    if n == 0 {
        Some((f, true))
    } else {
        match round_upto(f, order, (n - 1) as nat) {
            Some(s) => if s.1 {
                turn(s.0, order[n - 1] as int)
            } else {
                Some(s)
            },
            None => None,
        }
    }
}

/// One round: every fighter takes its turn, in the reading order of where
/// the fighters stand when the round starts. Gives the field after it and
/// whether every turn was taken.
pub open spec fn round(f: Field) -> Option<(Field, bool)> {
    round_upto(f, ranked(f.units, f.units.len()), f.units.len())
}

/// Once the combat is over in a round, or a turn cannot be taken, that is
/// what the round gives.
pub proof fn round_settled(f: Field, order: Seq<usize>, k: nat, n: nat)
    requires
        k <= n,
        round_upto(f, order, k) is None || !round_upto(f, order, k).unwrap().1,
    ensures
        round_upto(f, order, n) == round_upto(f, order, k),
    decreases n - k,
{
    if k < n {
        round_settled(f, order, k, (n - 1) as nat);
    }
}

impl Cave {
    /// The fighters by number in the reading order of where they stand.
    pub fn turn_order(&self) -> (r: Vec<usize>)
        ensures
            r@ == ranked(self.units@, self.units.len() as nat),
            r.len() == self.units.len(),
            forall|k: int| 0 <= k < r.len() ==> (#[trigger] r[k]) < self.units.len(),
    {
        let mut out: Vec<usize> = Vec::new();
        let mut id: usize = 0;
        while id < self.units.len()
            invariant
                id <= self.units.len(),
                out@ == ranked(self.units@, id as nat),
                out.len() == id,
                forall|k: int| 0 <= k < out.len() ==> (#[trigger] out[k]) < id,
            decreases self.units.len() - id,
        {
            let ghost before = out@;
            let here = self.units[id].position;
            let mut p: usize = out.len();
            assert(before.take(p as int) == before);
            assert(before.skip(p as int) =~= Seq::<usize>::empty());
            assert(slotted(self.units@, before, id) =~= slotted(
                self.units@,
                before.take(p as int),
                id,
            ) + before.skip(p as int));
            while p > 0 && comes_first(here, self.units[out[p - 1]].position)
                invariant
                    p <= out.len(),
                    id < self.units.len(),
                    here == self.units[id as int].position,
                    out@ == before,
                    forall|k: int| 0 <= k < out.len() ==> (#[trigger] out[k]) < id,
                    slotted(self.units@, before, id) == slotted(
                        self.units@,
                        before.take(p as int),
                        id,
                    ) + before.skip(p as int),
                decreases p,
            {
                assert(before.take(p as int).drop_last() == before.take(p - 1));
                assert(before.take(p as int).last() == before[p - 1]);
                assert(slotted(self.units@, before.take(p - 1), id).push(before[p - 1]) + before.skip(
                    p as int,
                ) =~= slotted(self.units@, before.take(p - 1), id) + before.skip(p - 1));
                p -= 1;
            }
            proof {
                if p > 0 {
                    assert(before.take(p as int).last() == before[p - 1]);
                    assert(slotted(self.units@, before.take(p as int), id) == before.take(
                        p as int,
                    ).push(id));
                } else {
                    assert(before.take(0) =~= Seq::<usize>::empty());
                }
                assert(before.take(p as int).push(id) + before.skip(p as int) =~= before.insert(
                    p as int,
                    id,
                ));
            }
            out.insert(p, id);
            assert forall|k: int| 0 <= k < out.len() implies (#[trigger] out[k]) < id + 1 by {
                if k < p {
                    assert(out[k] == before[k]);
                } else if k > p {
                    assert(out[k] == before[k - 1]);
                }
            }
            id += 1;
        }
        out
    }

    /// One round. Gives whether every turn was taken, or `None` where a turn
    /// cannot be taken.
    pub fn step(&mut self) -> (r: Option<bool>)
        requires
        ensures
            match round(old(self).field()) {
                Some(t) => {
                    &&& r == Some(t.1)
                    &&& final(self).field() == t.0
                },
                None => r is None,
            },
            final(self).cells == old(self).cells,
    {
        let ghost f = self.field();
        let order = self.turn_order();
        let n: usize = order.len();
        let mut k: usize = 0;
        while k < n
            invariant
                k <= n,
                n == order.len(),
                n == old(self).units.len(),
                self.units.len() == n,
                f == old(self).field(),
                order@ == ranked(f.units, n as nat),
                forall|j: int| 0 <= j < n ==> (#[trigger] order[j]) < n,
                    self.cells == old(self).cells,
                round_upto(f, order@, k as nat) == Some((self.field(), true)),
            decreases n - k,
        {
            match self.take_turn(order[k]) {
                Some(true) => {},
                Some(false) => {
                    proof {
                        round_settled(f, order@, (k + 1) as nat, n as nat);
                    }
                    return Some(false);
                },
                None => {
                    proof {
                        round_settled(f, order@, (k + 1) as nat, n as nat);
                    }
                    return None;
                },
            }
            k += 1;
        }
        Some(true)
    }
}

/// The field after `n` rounds in each of which every turn was taken.
pub open spec fn after_rounds(f: Field, n: nat) -> Option<Field>
    decreases n,
{
    if n == 0 {
        Some(f)
    } else {
        match after_rounds(f, (n - 1) as nat) {
            Some(g) => match round(g) {
                Some(t) => if t.1 {
                    Some(t.0)
                } else {
                    None
                },
                None => None,
            },
            None => None,
        }
    }
}

/// After `n` full rounds the next round ends the combat or cannot be
/// played.
pub open spec fn ends_at(f: Field, n: nat) -> bool {
    after_rounds(f, n) is Some && (round(after_rounds(f, n).unwrap()) is None || !round(
        after_rounds(f, n).unwrap(),
    ).unwrap().1)
}

/// The number of full rounds times the hit points of the living, in
/// decimal. `None` where the hit points do not fit in an `isize` or the
/// product does not fit in a `usize`.
pub open spec fn score(rounds: nat, f: Field) -> Option<Seq<char>> {
    let hp = hit_points(f.units, f.units.len());
    if hp <= isize::MAX && rounds * hp <= usize::MAX {
        Some(decimal(rounds * hp))
    } else {
        None
    }
}

/// The outcome of the combat: the number of full rounds, times the hit
/// points left when it ends. `None` where a round cannot be played, or the
/// combat has not ended after as many rounds as a `usize` counts.
pub open spec fn outcome(f: Field) -> Option<Seq<char>> {
    if exists|n: nat| n <= usize::MAX && ends_at(f, n) {
        let n = choose|n: nat| n <= usize::MAX && ends_at(f, n);
        match round(after_rounds(f, n).unwrap()) {
            Some(t) => score(n, t.0),
            None => None,
        }
    } else {
        None
    }
}

/// The combat ends at most once.
pub proof fn end_is_unique(f: Field, a: nat, b: nat)
    requires
        ends_at(f, a),
        after_rounds(f, b) is Some,
    ensures
        b <= a,
    decreases b,
{
    if b > a {
        if b - 1 > a {
            end_is_unique(f, a, (b - 1) as nat);
        }
    }
}

/// The score of the combat so far.
pub fn tally(cave: &Cave, rounds: usize) -> (r: Option<String>)
    ensures
        opt_view(r) == score(rounds as nat, cave.field()),
{
    let hp = match cave.total_hp() {
        Some(v) => v,
        None => {
            return None;
        },
    };
    match rounds.checked_mul(hp) {
        Some(v) => Some(usize_string(v)),
        None => None,
    }
}

/// The outcome of the combat between elves and goblins of attack power
/// three each: the number of full rounds times the hit points left, in
/// decimal. `None` where a round cannot be played, the combat has not ended after as many rounds
/// as a `usize` counts, or a number does not fit.
pub fn part1(input: &str) -> (r: Option<(String, ())>)
    ensures
        (match r {
            Some((s, _)) => Some(s@),
            None => None,
        }) == outcome(field_of(input@, 3, 3)),
{
    let mut cave = Cave::new(input, 3, 3);
    let ghost f = cave.field();
    let mut rounds: usize = 0;
    loop
        invariant_except_break
            field_of(input@, 3, 3) == f,
            after_rounds(f, rounds as nat) == Some(cave.field()),
        ensures
            field_of(input@, 3, 3) == f,
            ends_at(f, rounds as nat),
            round(after_rounds(f, rounds as nat).unwrap()) == Some((cave.field(), false)),
        decreases usize::MAX - rounds,
    {
        match cave.step() {
            Some(true) => {
                if rounds == usize::MAX {
                    proof {
                        assert forall|n: nat| !(n <= usize::MAX && ends_at(f, n)) by {
                            if n <= usize::MAX && ends_at(f, n) {
                                end_is_unique(f, n, (rounds + 1) as nat);
                            }
                        }
                    }
                    return None;
                }
                rounds += 1;
            },
            Some(false) => {
                break;
            },
            None => {
                proof {
                    assert(rounds <= usize::MAX && ends_at(f, rounds as nat));
                    let n = choose|n: nat| n <= usize::MAX && ends_at(f, n);
                    end_is_unique(f, rounds as nat, n);
                    end_is_unique(f, n, rounds as nat);
                }
                return None;
            },
        }
    }
    proof {
        let n = choose|n: nat| n <= usize::MAX && ends_at(f, n);
        end_is_unique(f, rounds as nat, n);
        end_is_unique(f, n, rounds as nat);
    }
    match tally(&cave, rounds) {
        Some(s) => Some((s, ())),
        None => None,
    }
}

/// The field after `n` rounds in each of which every turn was taken and
/// after each of which every elf was alive.
pub open spec fn calm_rounds(f: Field, n: nat) -> Option<Field>
    decreases n,
{
    if n == 0 {
        Some(f)
    } else {
        match calm_rounds(f, (n - 1) as nat) {
            Some(g) => match round(g) {
                Some(t) => if t.1 && !any_dead(t.0.units, UnitType::Elf, t.0.units.len()) {
                    Some(t.0)
                } else {
                    None
                },
                None => None,
            },
            None => None,
        }
    }
}

/// After `n` calm rounds the next round ends the combat, leaves an elf dead,
/// or cannot be played.
pub open spec fn stops_at(f: Field, n: nat) -> bool {
    calm_rounds(f, n) is Some && !(calm_rounds(f, n + 1) is Some)
}

/// How the combat goes for the elves: the outcome where none of them dies,
/// no outcome where one dies. `None` where a round cannot be played, the
/// combat has not stopped after as many rounds as a `usize` counts, or a
/// number does not fit.
pub open spec fn verdict(f: Field) -> Option<Option<Seq<char>>> {
    if exists|n: nat| n <= usize::MAX && stops_at(f, n) {
        let n = choose|n: nat| n <= usize::MAX && stops_at(f, n);
        match round(calm_rounds(f, n).unwrap()) {
            Some(t) => if any_dead(t.0.units, UnitType::Elf, t.0.units.len()) {
                Some(None)
            } else {
                match score(n, t.0) {
                    Some(s) => Some(Some(s)),
                    None => None,
                }
            },
            None => None,
        }
    } else {
        None
    }
}

/// The calm rounds stop at most once.
pub proof fn stop_is_unique(f: Field, a: nat, b: nat)
    requires
        stops_at(f, a),
        calm_rounds(f, b) is Some,
    ensures
        b <= a,
    decreases b,
{
    if b > a {
        if b - 1 > a {
            stop_is_unique(f, a, (b - 1) as nat);
        }
    }
}

/// The text of a verdict.
pub open spec fn verdict_view(v: Option<Option<String>>) -> Option<Option<Seq<char>>> {
    match v {
        Some(Some(s)) => Some(Some(s@)),
        Some(None) => Some(None),
        None => None,
    }
}

/// Plays the combat with the given attack power for the elves until it
/// ends or an elf dies.
pub fn trial(input: &str, elf_ap: usize) -> (r: Option<Option<String>>)
    ensures
        verdict_view(r) == verdict(field_of(input@, 3, elf_ap)),
{
    let mut cave = Cave::new(input, 3, elf_ap);
    let ghost f = cave.field();
    let mut rounds: usize = 0;
    loop
        invariant_except_break
            field_of(input@, 3, elf_ap) == f,
            calm_rounds(f, rounds as nat) == Some(cave.field()),
        ensures
            field_of(input@, 3, elf_ap) == f,
            stops_at(f, rounds as nat),
            round(calm_rounds(f, rounds as nat).unwrap()) is Some,
            round(calm_rounds(f, rounds as nat).unwrap()).unwrap().0 == cave.field(),
        decreases usize::MAX - rounds,
    {
        match cave.step() {
            Some(more) => {
                if !more || cave.is_any_dead(UnitType::Elf) {
                    break;
                }
                if rounds == usize::MAX {
                    proof {
                        assert forall|n: nat| !(n <= usize::MAX && stops_at(f, n)) by {
                            if n <= usize::MAX && stops_at(f, n) {
                                stop_is_unique(f, n, (rounds + 1) as nat);
                            }
                        }
                    }
                    return None;
                }
                rounds += 1;
            },
            None => {
                proof {
                    assert(rounds <= usize::MAX && stops_at(f, rounds as nat));
                    let n = choose|n: nat| n <= usize::MAX && stops_at(f, n);
                    stop_is_unique(f, rounds as nat, n);
                    stop_is_unique(f, n, rounds as nat);
                }
                return None;
            },
        }
    }
    proof {
        let n = choose|n: nat| n <= usize::MAX && stops_at(f, n);
        stop_is_unique(f, rounds as nat, n);
        stop_is_unique(f, n, rounds as nat);
    }
    if cave.is_any_dead(UnitType::Elf) {
        Some(None)
    } else {
        match tally(&cave, rounds) {
            Some(s) => Some(Some(s)),
            None => None,
        }
    }
}

/// With attack power `p` for the elves the combat ends with every elf
/// alive.
pub open spec fn verdict_at(input: Seq<char>, p: usize) -> Option<Option<Seq<char>>> {
    verdict(field_of(input, 3, p))
}

/// `p` is the least attack power, four or more, with which no elf dies, and
/// with every lesser one an elf dies.
pub open spec fn first_win(input: Seq<char>, p: usize) -> bool {
    &&& p >= 4
    &&& verdict_at(input, p) is Some
    &&& verdict_at(input, p).unwrap() is Some
    &&& forall|q: usize| 4 <= q < p ==> #[trigger] verdict_at(input, q) == Some(None::<Seq<char>>)
}

/// The outcome of the combat with the least attack power for the elves with
/// which none of them dies.
pub open spec fn rescue(input: Seq<char>) -> Option<Seq<char>> {
    if exists|p: usize| first_win(input, p) {
        verdict_at(input, choose|p: usize| first_win(input, p)).unwrap()
    } else {
        None
    }
}

/// The outcome of the combat with the least attack power for the elves,
/// four or more, with which none of them dies, in decimal. The goblins keep
/// attack power three. `None` where the combat cannot be played with an
/// attack power up to that one, or no attack power that a `usize` holds
/// saves every elf.
pub fn part2(input: &str, _unit: ()) -> (r: Option<String>)
    ensures
        opt_view(r) == rescue(input@),
{
    let mut power_level: usize = 4;
    loop
        invariant
            power_level >= 4,
            forall|q: usize|
                4 <= q < power_level ==> #[trigger] verdict_at(input@, q) == Some(
                    None::<Seq<char>>,
                ),
        decreases usize::MAX - power_level,
    {
        match trial(input, power_level) {
            Some(Some(s)) => {
                proof {
                    assert(first_win(input@, power_level));
                    let p = choose|p: usize| first_win(input@, p);
                    if p < power_level {
                        assert(verdict_at(input@, p) == Some(None::<Seq<char>>));
                    } else if power_level < p {
                        assert(verdict_at(input@, power_level) == Some(None::<Seq<char>>));
                    }
                }
                return Some(s);
            },
            Some(None) => {
                if power_level == usize::MAX {
                    proof {
                        assert forall|p: usize| !first_win(input@, p) by {
                            if p >= 4 {
                                assert(verdict_at(input@, p) == Some(None::<Seq<char>>));
                            }
                        }
                    }
                    return None;
                }
                power_level += 1;
            },
            None => {
                proof {
                    assert forall|p: usize| !first_win(input@, p) by {
                        if p > power_level {
                            if first_win(input@, p) {
                                assert(verdict_at(input@, power_level) == Some(None::<Seq<char>>));
                            }
                        } else if 4 <= p < power_level {
                            assert(verdict_at(input@, p) == Some(None::<Seq<char>>));
                        }
                    }
                }
                return None;
            },
        }
    }
}

} // verus!
