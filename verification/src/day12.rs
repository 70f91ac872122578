//! A row of pots with plants that spread by rules on five neighbouring pots:
//! the sum of the numbers of the pots with a plant after twenty generations,
//! and after fifty billion.

use crate::tally::{fits, sum, sums_fit, total};
use crate::text::{chars_of, lines, lines_of, opt_view, signed_decimal, isize_string, trim, trimmed, views};
use vstd::prelude::*;

verus! {

/// The text has the plant sign at index `i`.
pub open spec fn plant_at(t: Seq<char>, i: int) -> bool {
    0 <= i < t.len() && t[i] == '#'
}

/// `weight` where the condition holds, else zero.
pub open spec fn bit(b: bool, weight: nat) -> nat {
    if b {
        weight
    } else {
        0
    }
}

/// The number of a pattern of five pots: the pot at index `i` counts two to
/// the `i` where it has a plant.
pub open spec fn pattern_number(t: Seq<char>) -> nat {
    bit(plant_at(t, 0), 1) + bit(plant_at(t, 1), 2) + bit(plant_at(t, 2), 4) + bit(
        plant_at(t, 3),
        8,
    ) + bit(plant_at(t, 4), 16)
}

/// The rules that the lines write, a later line overruling an earlier one:
/// each line, trimmed, gives a pattern in its first five characters and the
/// outcome in its tenth.
pub open spec fn rules_of(ls: Seq<Seq<char>>) -> Seq<bool>
    decreases ls.len(),
{
    if ls.len() == 0 {
        Seq::new(32, |i: int| false)
    } else {
        rules_of(ls.drop_last()).update(
            pattern_number(trim(ls.last())) as int,
            plant_at(trim(ls.last()), 9),
        )
    }
}

/// The number of the pattern around pot `index`: the pots from two to the
/// left to two to the right.
pub open spec fn window(state: Seq<isize>, index: int) -> nat {
    bit(has(state, index - 2), 1) + bit(has(state, index - 1), 2) + bit(has(state, index), 4) + bit(
        has(state, index + 1),
        8,
    ) + bit(has(state, index + 2), 16)
}

/// Pot `i` has a plant.
pub open spec fn has(state: Seq<isize>, i: int) -> bool {
    exists|k: int| 0 <= k < state.len() && #[trigger] state[k] == i
}

/// The least pot with a plant; there is at least one.
pub open spec fn least(state: Seq<isize>) -> int
    decreases state.len(),
{
    if state.len() <= 1 {
        state[0] as int
    } else if state.last() < least(state.drop_last()) {
        state.last() as int
    } else {
        least(state.drop_last())
    }
}

/// The greatest pot with a plant; there is at least one.
pub open spec fn greatest(state: Seq<isize>) -> int
    decreases state.len(),
{
    if state.len() <= 1 {
        state[0] as int
    } else if state.last() > greatest(state.drop_last()) {
        state.last() as int
    } else {
        greatest(state.drop_last())
    }
}

/// The pots from `lo` up to, not including, `hi` that have a plant in the
/// next generation, in rising order.
pub open spec fn sprouts(state: Seq<isize>, rules: Seq<bool>, lo: int, hi: int) -> Seq<isize>
    decreases hi - lo,
{
    if hi <= lo {
        seq![]
    } else if rules[window(state, hi - 1) as int] {
        sprouts(state, rules, lo, hi - 1).push((hi - 1) as isize)
    } else {
        sprouts(state, rules, lo, hi - 1)
    }
}

/// The next generation can be computed: there is a plant, and the pots four
/// to the left of the least and three to the right of the greatest still
/// have a number.
pub open spec fn can_grow(state: Seq<isize>) -> bool {
    state.len() > 0 && least(state) - 4 >= isize::MIN && greatest(state) + 3 <= isize::MAX
}

/// The next generation: of the pots from two left of the least plant to one
/// right of the greatest, those whose pattern the rules let have a plant.
pub open spec fn grown(state: Seq<isize>, rules: Seq<bool>) -> Option<Seq<isize>> {
    if can_grow(state) {
        Some(sprouts(state, rules, least(state) - 2, greatest(state) + 2))
    } else {
        None
    }
}

/// The state after `n` generations.
pub open spec fn generation(state: Seq<isize>, rules: Seq<bool>, n: nat) -> Option<Seq<isize>>
    decreases n,
{
    if n == 0 {
        Some(state)
    } else {
        match generation(state, rules, (n - 1) as nat) {
            Some(s) => grown(s, rules),
            None => None,
        }
    }
}

/// How many bytes the character takes in UTF-8.
pub open spec fn utf8_len(c: char) -> nat {
    if (c as u32) < 0x80 {
        1
    } else if (c as u32) < 0x800 {
        2
    } else if (c as u32) < 0x10000 {
        3
    } else {
        4
    }
}

/// How many characters from index `from` on make up exactly `bytes` bytes;
/// `None` where no number of them does.
pub open spec fn chars_for_bytes(s: Seq<char>, from: int, bytes: int) -> Option<int>
    decreases s.len() - from,
{
    if bytes == 0 {
        Some(from)
    } else if from < 0 || from >= s.len() || utf8_len(s[from]) > bytes {
        None
    } else {
        chars_for_bytes(s, from + 1, bytes - utf8_len(s[from]))
    }
}

/// The pots named by the text: the indices of its plant signs.
pub open spec fn pots_of(t: Seq<char>) -> Seq<isize>
    decreases t.len(),
{
    if t.len() == 0 {
        seq![]
    } else if t.last() == '#' {
        pots_of(t.drop_last()).push((t.len() - 1) as isize)
    } else {
        pots_of(t.drop_last())
    }
}

/// The lines from index `from` on; none where there are not that many.
pub open spec fn lines_from(ls: Seq<Seq<char>>, from: int) -> Seq<Seq<char>> {
    if 0 <= from <= ls.len() {
        ls.skip(from)
    } else {
        seq![]
    }
}

/// The lines that are not empty.
pub open spec fn non_empty(ls: Seq<Seq<char>>) -> Seq<Seq<char>>
    decreases ls.len(),
{
    if ls.len() == 0 {
        seq![]
    } else if ls.last().len() > 0 {
        non_empty(ls.drop_last()).push(ls.last())
    } else {
        non_empty(ls.drop_last())
    }
}

/// The rules and the first state that the input writes: the state stands in
/// the first line after its first fifteen bytes, trimmed; the rules are the
/// non-empty lines from the third on. `None` where there is no first line or
/// it cannot be cut after fifteen bytes.
pub open spec fn garden_of(input: Seq<char>) -> Option<(Seq<bool>, Seq<isize>)> {
    let ls = lines(input);
    if ls.len() == 0 {
        None
    } else {
        match chars_for_bytes(ls[0], 0, 15) {
            Some(k) => Some(
                (
                    rules_of(non_empty(lines_from(ls, 2))),
                    pots_of(trim(ls[0].subrange(k, ls[0].len() as int))),
                ),
            ),
            None => None,
        }
    }
}

/// The sum of the pots, in decimal, where it and every partial sum fit.
pub open spec fn pot_sum(state: Seq<isize>) -> Option<Seq<char>> {
    if sums_fit(state) {
        Some(signed_decimal(sum(state)))
    } else {
        None
    }
}

/// The sum of the pots with a plant after twenty generations.
pub open spec fn twenty_answer(rules: Seq<bool>, state: Seq<isize>) -> Option<Seq<char>> {
    match generation(state, rules, 20) {
        Some(s) => pot_sum(s),
        None => None,
    }
}

/// The rules written by the lines.
pub fn parse_rules(ls: &Vec<Vec<char>>) -> (rules: [bool; 32])
    ensures
        rules@ == rules_of(views(ls@)),
{
    let mut arr: [bool; 32] = [false; 32];
    assert(arr@ =~= Seq::new(32, |i: int| false));
    assert(views(ls@).take(0) =~= seq![]);
    let mut k: usize = 0;
    while k < ls.len()
        invariant
            k <= ls.len(),
            arr@ == rules_of(views(ls@).take(k as int)),
        decreases ls.len() - k,
    {
        assert(views(ls@).take(k + 1).drop_last() == views(ls@).take(k as int));
        assert(views(ls@).take(k + 1).last() == ls[k as int]@);
        let t = trimmed(&ls[k]);
        let mut bits: usize = 0;
        if t.len() > 0 && t[0] == '#' {
            bits += 1;
        }
        if t.len() > 1 && t[1] == '#' {
            bits += 2;
        }
        if t.len() > 2 && t[2] == '#' {
            bits += 4;
        }
        if t.len() > 3 && t[3] == '#' {
            bits += 8;
        }
        if t.len() > 4 && t[4] == '#' {
            bits += 16;
        }
        let outcome: bool = t.len() > 9 && t[9] == '#';
        let ghost prev = arr@;
        arr[bits] = outcome;
        assert(arr@ =~= prev.update(bits as int, outcome));
        k += 1;
    }
    assert(views(ls@).take(ls.len() as int) == views(ls@));
    arr
}

/// Whether pot `i` has a plant.
pub fn has_plant(state: &Vec<isize>, i: isize) -> (r: bool)
    ensures
        r == has(state@, i as int),
{
    let mut k: usize = 0;
    while k < state.len()
        invariant
            k <= state.len(),
            forall|j: int| 0 <= j < k ==> state[j] != i,
        decreases state.len() - k,
    {
        if state[k] == i {
            return true;
        }
        k += 1;
    }
    false
}

/// The number of the pattern around pot `index`.
pub fn get_window_bits(state: &Vec<isize>, index: isize) -> (r: usize)
    requires
        isize::MIN + 2 <= index <= isize::MAX - 2,
    ensures
        r == window(state@, index as int),
        r < 32,
{
    let mut bits: usize = 0;
    if has_plant(state, index - 2) {
        bits += 1;
    }
    if has_plant(state, index - 1) {
        bits += 2;
    }
    if has_plant(state, index) {
        bits += 4;
    }
    if has_plant(state, index + 1) {
        bits += 8;
    }
    if has_plant(state, index + 2) {
        bits += 16;
    }
    bits
}

/// The least and the greatest pot with a plant.
pub fn span(state: &Vec<isize>) -> (r: (isize, isize))
    requires
        state.len() > 0,
    ensures
        r.0 == least(state@),
        r.1 == greatest(state@),
{
    let mut lo: isize = state[0];
    let mut hi: isize = state[0];
    let mut k: usize = 1;
    assert(state@.take(1)[0] == state[0]);
    while k < state.len()
        invariant
            1 <= k <= state.len(),
            lo == least(state@.take(k as int)),
            hi == greatest(state@.take(k as int)),
        decreases state.len() - k,
    {
        assert(state@.take(k + 1).drop_last() == state@.take(k as int));
        if state[k] < lo {
            lo = state[k];
        }
        if state[k] > hi {
            hi = state[k];
        }
        k += 1;
    }
    assert(state@.take(state.len() as int) == state@);
    (lo, hi)
}

/// The next generation.
pub fn step(state: Vec<isize>, rules: &[bool; 32]) -> (r: Option<Vec<isize>>)
    ensures
        match r {
            Some(next) => grown(state@, rules@) == Some(next@),
            None => grown(state@, rules@) is None,
        },
{
    if state.len() == 0 {
        return None;
    }
    let (lo, hi) = span(&state);
    if lo < isize::MIN + 4 || hi > isize::MAX - 3 {
        return None;
    }
    let mut next: Vec<isize> = Vec::new();
    let mut i: isize = lo - 2;
    while i < hi + 2
        invariant
            lo == least(state@),
            hi == greatest(state@),
            lo - 4 >= isize::MIN,
            hi + 3 <= isize::MAX,
            lo - 2 <= i,
            lo - 2 <= hi + 2,
            i <= hi + 2,
            next@ == sprouts(state@, rules@, lo - 2, i as int),
        decreases hi + 2 - i,
    {
        if rules[get_window_bits(&state, i)] {
            next.push(i);
        }
        i += 1;
    }
    Some(next)
}

/// How many leading characters of `line` make up exactly `bytes` bytes.
pub fn cut_after(line: &Vec<char>, bytes: usize) -> (r: Option<usize>)
    ensures
        match r {
            Some(k) => chars_for_bytes(line@, 0, bytes as int) == Some(k as int) && k <= line.len(),
            None => chars_for_bytes(line@, 0, bytes as int) is None,
        },
{
    let mut left: usize = bytes;
    let mut k: usize = 0;
    while left > 0
        invariant
            k <= line.len(),
            chars_for_bytes(line@, 0, bytes as int) == chars_for_bytes(line@, k as int, left as int),
        decreases left,
    {
        if k >= line.len() {
            return None;
        }
        let code: u32 = line[k] as u32;
        let width: usize = if code < 0x80 {
            1
        } else if code < 0x800 {
            2
        } else if code < 0x10000 {
            3
        } else {
            4
        };
        if width > left {
            return None;
        }
        left -= width;
        k += 1;
    }
    Some(k)
}

/// The indices of the plant signs in the text.
pub fn read_pots(t: &Vec<char>) -> (r: Vec<isize>)
    ensures
        r@ == pots_of(t@),
{
    let mut pots: Vec<isize> = Vec::new();
    let mut i: usize = 0;
    while i < t.len()
        invariant
            i <= t.len(),
            pots@ == pots_of(t@.take(i as int)),
        decreases t.len() - i,
    {
        assert(t@.take(i + 1).drop_last() == t@.take(i as int));
        if t[i] == '#' {
            pots.push(i as isize);
        }
        i += 1;
    }
    assert(t@.take(t.len() as int) == t@);
    pots
}

/// The lines from index `from` on that are not empty.
pub fn rule_lines(ls: &Vec<Vec<char>>, from: usize) -> (r: Vec<Vec<char>>)
    ensures
        views(r@) == non_empty(lines_from(views(ls@), from as int)),
{
    let mut out: Vec<Vec<char>> = Vec::new();
    if from >= ls.len() {
        assert(lines_from(views(ls@), from as int) =~= seq![]);
        assert(views(out@) =~= seq![]);
        return out;
    }
    let ghost rest = views(ls@).skip(from as int);
    let mut i: usize = from;
    assert(rest.take(0) =~= seq![]);
    assert(views(out@) =~= seq![]);
    while i < ls.len()
        invariant
            from <= i <= ls.len(),
            rest == views(ls@).skip(from as int),
            views(out@) == non_empty(rest.take(i - from)),
        decreases ls.len() - i,
    {
        assert(rest.take(i - from + 1).drop_last() == rest.take(i - from));
        assert(rest.take(i - from + 1).last() == ls[i as int]@);
        if ls[i].len() > 0 {
            let ghost before = views(out@);
            let line = &ls[i];
            out.push(crate::text::slice_of(line, 0, line.len()));
            assert(line@.subrange(0, line.len() as int) == line@);
            assert(views(out@) =~= before.push(line@));
        }
        i += 1;
    }
    assert(rest.take(ls.len() - from) == rest);
    out
}

/// A copy of the pots.
pub fn copy_pots(state: &Vec<isize>) -> (r: Vec<isize>)
    ensures
        r@ == state@,
{
    let mut out: Vec<isize> = Vec::new();
    let mut i: usize = 0;
    while i < state.len()
        invariant
            i <= state.len(),
            out@ == state@.take(i as int),
        decreases state.len() - i,
    {
        out.push(state[i]);
        assert(state@.take(i + 1) == state@.take(i as int).push(state[i as int]));
        i += 1;
    }
    assert(state@.take(state.len() as int) == state@);
    out
}

/// The state after `n` more generations.
pub fn advance(state: Vec<isize>, rules: &[bool; 32], n: u64) -> (r: Option<Vec<isize>>)
    ensures
        match r {
            Some(s) => generation(state@, rules@, n as nat) == Some(s@),
            None => generation(state@, rules@, n as nat) is None,
        },
{
    let ghost start = state@;
    let mut current = state;
    let mut k: u64 = 0;
    while k < n
        invariant
            k <= n,
            start == state@,
            generation(start, rules@, k as nat) == Some(current@),
        decreases n - k,
    {
        current = match step(current, rules) {
            Some(next) => next,
            None => {
                proof {
                    withered_stays(start, rules@, (k + 1) as nat, n as nat);
                }
                return None;
            },
        };
        k += 1;
    }
    Some(current)
}

/// Once a generation cannot be computed, no later one can.
pub proof fn withered_stays(state: Seq<isize>, rules: Seq<bool>, k: nat, n: nat)
    requires
        k <= n,
        generation(state, rules, k) is None,
    ensures
        generation(state, rules, n) is None,
    decreases n - k,
{
    if k < n {
        withered_stays(state, rules, k, (n - 1) as nat);
    }
}

/// The sum of the numbers of the pots that have a plant after twenty
/// generations, in decimal, together with the rules and the first state.
/// `None` where the input writes no garden, a generation cannot be computed,
/// or the sum does not fit.
pub fn part1(input: &str) -> (r: Option<(String, ([bool; 32], Vec<isize>))>)
    ensures
        match garden_of(input@) {
            Some((rules, state)) => match r {
                Some((s, out)) => twenty_answer(rules, state) == Some(s@) && out.0@ == rules
                    && out.1@ == state,
                None => twenty_answer(rules, state) is None,
            },
            None => r is None,
        },
{
    let chars = chars_of(input);
    let ls = lines_of(&chars);
    if ls.len() == 0 {
        return None;
    }
    assert(views(ls@)[0] == ls[0]@);
    let k = match cut_after(&ls[0], 15) {
        Some(k) => k,
        None => {
            return None;
        },
    };
    let first = &ls[0];
    let initial = read_pots(&trimmed(&crate::text::slice_of(first, k, first.len())));
    let rules = parse_rules(&rule_lines(&ls, 2));
    let last = match advance(copy_pots(&initial), &rules, 20) {
        Some(s) => s,
        None => {
            return None;
        },
    };
    match total(&last) {
        Some(v) => Some((isize_string(v), (rules, initial))),
        None => None,
    }
}

/// The number of generations asked for in part two.
pub open spec fn horizon() -> nat {
    50_000_000_000
}

/// The state can be moved so that its least pot is pot zero.
pub open spec fn alignable(s: Seq<isize>) -> bool {
    s.len() > 0 && forall|i: int| 0 <= i < s.len() ==> fits(#[trigger] s[i] - least(s))
}

/// The state moved so that its least pot is pot zero.
pub open spec fn aligned(s: Seq<isize>) -> Seq<isize> {
    Seq::new(s.len(), |i: int| (s[i] - least(s)) as isize)
}

/// The state after `n` generations, aligned.
pub open spec fn shape(state: Seq<isize>, rules: Seq<bool>, n: nat) -> Seq<isize> {
    aligned(generation(state, rules, n).unwrap())
}

/// The first of the generations 1 to `n` whose shape is that of generation
/// `g`.
pub open spec fn twin(state: Seq<isize>, rules: Seq<bool>, g: nat, n: nat) -> Option<nat>
    decreases n,
{
    if n == 0 {
        None
    } else {
        match twin(state, rules, g, (n - 1) as nat) {
            Some(d) => Some(d),
            None => if shape(state, rules, n) == shape(state, rules, g) {
                Some(n)
            } else {
                None
            },
        }
    }
}

/// Generation `g` has the shape of an earlier generation, not counting the
/// first state.
pub open spec fn repeats_at(state: Seq<isize>, rules: Seq<bool>, g: nat) -> bool {
    twin(state, rules, g, (g - 1) as nat) is Some
}

/// Generation `g` can be computed and aligned.
pub open spec fn sound_at(state: Seq<isize>, rules: Seq<bool>, g: nat) -> bool {
    generation(state, rules, g) is Some && alignable(generation(state, rules, g).unwrap())
}

/// `g` is the first generation, at most the horizon, whose shape repeats an
/// earlier one, and every generation up to it can be computed and aligned.
pub open spec fn first_repeat(state: Seq<isize>, rules: Seq<bool>, g: nat) -> bool {
    &&& 1 <= g <= horizon()
    &&& repeats_at(state, rules, g)
    &&& forall|j: nat| 1 <= j <= g ==> #[trigger] sound_at(state, rules, j)
    &&& forall|j: nat| 1 <= j < g ==> !#[trigger] repeats_at(state, rules, j)
}

/// The first generation whose shape repeats, where there is one.
pub open spec fn repeat_generation(state: Seq<isize>, rules: Seq<bool>) -> nat {
    choose|g: nat| first_repeat(state, rules, g)
}

/// The state moved by `by`.
pub open spec fn moved(s: Seq<isize>, by: int) -> Seq<isize> {
    Seq::new(s.len(), |i: int| (s[i] + by) as isize)
}

/// The sum after the horizon, taking the repeat of generation `d` by
/// generation `g` as a cycle: the state of generation `g` is moved by the
/// drift of as many whole cycles as fit before the horizon, and the
/// generations that are left are computed. `None` where the drift or a moved
/// pot does not fit, a generation cannot be computed, or the sum does not
/// fit.
pub open spec fn shortcut(state: Seq<isize>, rules: Seq<bool>, g: nat, d: nat) -> Option<
    Seq<char>,
> {
    let now = generation(state, rules, g).unwrap();
    let then = generation(state, rules, d).unwrap();
    let period = g - d;
    let cycles = (horizon() - g) / period;
    let drift = (least(now) - least(then)) * cycles;
    if fits(least(now) - least(then)) && fits(drift) && (forall|i: int|
        0 <= i < now.len() ==> fits(#[trigger] now[i] + drift)) {
        match generation(moved(now, drift), rules, (horizon() - g - cycles * period) as nat) {
            Some(s) => pot_sum(s),
            None => None,
        }
    } else {
        None
    }
}

/// The sum of the pots with a plant at the horizon, found through the first
/// generation whose shape repeats an earlier one. `None` where no shape
/// repeats up to the horizon, or a generation up to the first repeat cannot
/// be computed or aligned.
pub open spec fn horizon_answer(rules: Seq<bool>, state: Seq<isize>) -> Option<Seq<char>> {
    if exists|g: nat| first_repeat(state, rules, g) {
        let g = repeat_generation(state, rules);
        shortcut(state, rules, g, twin(state, rules, g, (g - 1) as nat).unwrap())
    } else {
        None
    }
}

/// There is at most one first repeat.
pub proof fn first_repeat_is_unique(state: Seq<isize>, rules: Seq<bool>, g: nat)
    requires
        first_repeat(state, rules, g),
    ensures
        repeat_generation(state, rules) == g,
{
    let other = repeat_generation(state, rules);
    assert(first_repeat(state, rules, other));
    if other < g {
        assert(!repeats_at(state, rules, other));
    } else if g < other {
        assert(!repeats_at(state, rules, g));
    }
}

/// Whether two states hold the same pots in the same order.
pub fn same_pots(a: &Vec<isize>, b: &Vec<isize>) -> (r: bool)
    ensures
        r == (a@ == b@),
{
    if a.len() != b.len() {
        return false;
    }
    let mut i: usize = 0;
    while i < a.len()
        invariant
            a.len() == b.len(),
            i <= a.len(),
            forall|j: int| 0 <= j < i ==> a[j] == b[j],
        decreases a.len() - i,
    {
        if a[i] != b[i] {
            return false;
        }
        i += 1;
    }
    assert(a@ =~= b@);
    true
}

/// The state moved by `by`, where every moved pot fits.
pub fn move_pots(state: &Vec<isize>, by: isize) -> (r: Option<Vec<isize>>)
    ensures
        match r {
            Some(m) => m@ == moved(state@, by as int) && forall|i: int|
                0 <= i < state.len() ==> fits(#[trigger] state[i] + by),
            None => exists|i: int| 0 <= i < state.len() && !fits(#[trigger] state[i] + by),
        },
{
    let mut out: Vec<isize> = Vec::new();
    let mut i: usize = 0;
    while i < state.len()
        invariant
            i <= state.len(),
            out.len() == i,
            forall|j: int| 0 <= j < i ==> fits(#[trigger] state[j] + by) && out[j] == state[j] + by,
        decreases state.len() - i,
    {
        match state[i].checked_add(by) {
            Some(v) => out.push(v),
            None => {
                assert(!fits(state[i as int] + by));
                return None;
            },
        }
        i += 1;
    }
    assert(out@ =~= moved(state@, by as int));
    Some(out)
}

/// The state moved so that its least pot is pot zero, with that least pot.
pub fn align(state: &Vec<isize>) -> (r: Option<(Vec<isize>, isize)>)
    ensures
        match r {
            Some((a, low)) => alignable(state@) && a@ == aligned(state@) && low == least(state@),
            None => !alignable(state@),
        },
{
    if state.len() == 0 {
        return None;
    }
    let (low, _) = span(state);
    let mut out: Vec<isize> = Vec::new();
    let mut i: usize = 0;
    while i < state.len()
        invariant
            i <= state.len(),
            out.len() == i,
            low == least(state@),
            forall|j: int|
                0 <= j < i ==> fits(#[trigger] state[j] - low) && out[j] == state[j] - low,
        decreases state.len() - i,
    {
        match state[i].checked_sub(low) {
            Some(v) => out.push(v),
            None => {
                assert(!fits(state[i as int] - least(state@)));
                return None;
            },
        }
        i += 1;
    }
    assert(out@ =~= aligned(state@));
    Some((out, low))
}

/// A shape seen before: the shape, its generation, and its least pot.
pub struct Seen {
    pub shape: Vec<isize>,
    pub generation: u64,
    pub least: isize,
}

/// The first of the shapes seen that equals `shape`.
pub fn find_shape(seen: &Vec<Seen>, shape: &Vec<isize>) -> (r: Option<usize>)
    ensures
        match r {
            Some(k) => k < seen.len() && seen[k as int].shape@ == shape@ && forall|j: int|
                0 <= j < k ==> (#[trigger] seen[j]).shape@ != shape@,
            None => forall|j: int| 0 <= j < seen.len() ==> (#[trigger] seen[j]).shape@ != shape@,
        },
{
    let mut k: usize = 0;
    while k < seen.len()
        invariant
            k <= seen.len(),
            forall|j: int| 0 <= j < k ==> (#[trigger] seen[j]).shape@ != shape@,
        decreases seen.len() - k,
    {
        if same_pots(&seen[k].shape, shape) {
            return Some(k);
        }
        k += 1;
    }
    None
}

/// The twin among the first `n` generations, given the shapes seen.
pub proof fn twin_matches(
    state: Seq<isize>,
    rules: Seq<bool>,
    g: nat,
    n: nat,
    seen: Seq<Seen>,
    found: Option<usize>,
)
    requires
        n <= seen.len(),
        forall|j: int| 0 <= j < seen.len() ==> (#[trigger] seen[j]).shape@ == shape(
            state,
            rules,
            (j + 1) as nat,
        ),
        match found {
            Some(k) => seen[k as int].shape@ == shape(state, rules, g) && forall|j: int|
                0 <= j < k ==> (#[trigger] seen[j]).shape@ != shape(state, rules, g),
            None => forall|j: int|
                0 <= j < seen.len() ==> (#[trigger] seen[j]).shape@ != shape(state, rules, g),
        },
    ensures
        twin(state, rules, g, n) == (match found {
            Some(k) => if k < n {
                Some((k + 1) as nat)
            } else {
                None
            },
            None => None,
        }),
    decreases n,
{
    if n > 0 {
        twin_matches(state, rules, g, (n - 1) as nat, seen, found);
        assert(seen[n - 1].shape@ == shape(state, rules, n));
    }
}

/// The product of a drift per cycle and a number of cycles, where it fits in
/// an `isize`.
pub fn drift_over(per_cycle: isize, cycles: u64) -> (r: Option<isize>)
    requires
        cycles <= 50_000_000_000,
    ensures
        match r {
            Some(v) => v == per_cycle * cycles,
            None => !fits(per_cycle * cycles),
        },
{
    assert(-0x8000_0000_0000_0000 * 50_000_000_000 <= per_cycle * cycles
        <= 0x8000_0000_0000_0000 * 50_000_000_000) by (nonlinear_arith)
        requires
            -0x8000_0000_0000_0000 <= per_cycle <= 0x8000_0000_0000_0000,
            0 <= cycles <= 50_000_000_000,
    ;
    let wide: i128 = (per_cycle as i128) * (cycles as i128);
    if wide < isize::MIN as i128 || wide > isize::MAX as i128 {
        None
    } else {
        Some(wide as isize)
    }
}

/// The sum of the numbers of the pots that have a plant after fifty billion
/// generations, in decimal, found through the first generation whose shape
/// repeats an earlier one. `None` where no shape repeats in time, a
/// generation cannot be computed or aligned, or a number does not fit.
pub fn part2(_input: &str, garden: ([bool; 32], Vec<isize>)) -> (r: Option<String>)
    ensures
        opt_view(r) == horizon_answer(garden.0@, garden.1@),
{
    let ghost init = garden.1@;
    let ghost rs = garden.0@;
    let (rules, initial) = garden;
    let mut seen: Vec<Seen> = Vec::new();
    let mut state = initial;
    let mut generation_now: u64 = 0;
    let mut twin_at: usize = 0;
    let mut low_now: isize = 0;
    loop
        invariant_except_break
            generation_now <= 50_000_000_000,
            forall|j: nat| 1 <= j <= generation_now ==> !#[trigger] repeats_at(init, rs, j),
            seen.len() == generation_now,
        invariant
            init == garden.1@,
            rs == garden.0@,
            rs == rules@,
            generation(init, rs, generation_now as nat) == Some(state@),
            forall|j: int|
                0 <= j < seen.len() ==> (#[trigger] seen[j]).shape@ == shape(
                    init,
                    rs,
                    (j + 1) as nat,
                ) && seen[j].generation == j + 1 && seen[j].least == least(
                    generation(init, rs, (j + 1) as nat).unwrap(),
                ),
            forall|j: nat| 1 <= j <= seen.len() ==> #[trigger] sound_at(init, rs, j),
        ensures
            first_repeat(init, rs, generation_now as nat),
            twin_at < seen.len(),
            seen.len() < generation_now,
            twin(init, rs, generation_now as nat, (generation_now - 1) as nat) == Some(
                (twin_at + 1) as nat,
            ),
            low_now == least(state@),
        decreases 50_000_000_000 - generation_now,
    {
        let ghost done = generation_now as nat;
        if generation_now >= 50_000_000_000 {
            assert forall|g: nat| !first_repeat(init, rs, g) by {
                if g <= done && g >= 1 {
                    assert(!repeats_at(init, rs, g));
                }
            }
            return None;
        }
        generation_now += 1;
        let ghost next = generation_now as nat;
        state = match step(state, &rules) {
            Some(s) => s,
            None => {
                assert(!sound_at(init, rs, next));
                assert forall|g: nat| !first_repeat(init, rs, g) by {
                    if g <= done && g >= 1 {
                        assert(!repeats_at(init, rs, g));
                    }
                }
                return None;
            },
        };
        let (shape_now, low) = match align(&state) {
            Some(x) => x,
            None => {
                assert(!sound_at(init, rs, next));
                assert forall|g: nat| !first_repeat(init, rs, g) by {
                    if g <= done && g >= 1 {
                        assert(!repeats_at(init, rs, g));
                    }
                }
                return None;
            },
        };
        assert(sound_at(init, rs, next));
        let found = find_shape(&seen, &shape_now);
        proof {
            twin_matches(init, rs, next, done, seen@, found);
        }
        match found {
            Some(k) => {
                twin_at = k;
                low_now = low;
                assert forall|j: nat| 1 <= j <= next implies #[trigger] sound_at(init, rs, j) by {
                    if j < next {
                        assert(sound_at(init, rs, j));
                    }
                }
                assert(repeats_at(init, rs, next));
                break;
            },
            None => {
                assert(!repeats_at(init, rs, next));
                seen.push(Seen { shape: shape_now, generation: generation_now, least: low });
            },
        }
    }
    proof {
        first_repeat_is_unique(init, rs, generation_now as nat);
    }
    let earlier = &seen[twin_at];
    let period: u64 = generation_now - earlier.generation;
    let cycles: u64 = (50_000_000_000 - generation_now) / period;
    let per_cycle = match low_now.checked_sub(earlier.least) {
        Some(v) => v,
        None => {
            return None;
        },
    };
    let drift = match drift_over(per_cycle, cycles) {
        Some(v) => v,
        None => {
            return None;
        },
    };
    let shifted = match move_pots(&state, drift) {
        Some(m) => m,
        None => {
            return None;
        },
    };
    assert(cycles * period <= 50_000_000_000 - generation_now) by (nonlinear_arith)
        requires
            cycles == (50_000_000_000 - generation_now) / (period as int),
            period > 0,
            generation_now <= 50_000_000_000,
    ;
    let rest: u64 = 50_000_000_000 - generation_now - cycles * period;
    let last = match advance(shifted, &rules, rest) {
        Some(s) => s,
        None => {
            return None;
        },
    };
    match total(&last) {
        Some(v) => Some(isize_string(v)),
        None => None,
    }
}

/// Every pot of the state, moved by `by`, still has a number.
pub open spec fn movable(s: Seq<isize>, by: int) -> bool {
    forall|i: int| 0 <= i < s.len() ==> fits(#[trigger] s[i] + by)
}

/// A moved state has a plant exactly where the state has one, moved.
pub proof fn has_moved(s: Seq<isize>, by: int, i: int)
    requires
        movable(s, by),
    ensures
        has(moved(s, by), i + by) == has(s, i),
{
    let m = moved(s, by);
    if has(s, i) {
        let k = choose|k: int| 0 <= k < s.len() && #[trigger] s[k] == i;
        assert(fits(s[k] + by));
        assert(m[k] == i + by);
    }
    if has(m, i + by) {
        let k = choose|k: int| 0 <= k < m.len() && #[trigger] m[k] == i + by;
        assert(fits(s[k] + by));
        assert(s[k] == i);
    }
}

/// The pattern around a pot of a moved state is the pattern around the pot
/// it came from.
pub proof fn window_moved(s: Seq<isize>, by: int, i: int)
    requires
        movable(s, by),
    ensures
        window(moved(s, by), i + by) == window(s, i),
{
    has_moved(s, by, i - 2);
    has_moved(s, by, i - 1);
    has_moved(s, by, i);
    has_moved(s, by, i + 1);
    has_moved(s, by, i + 2);
}

/// The least and the greatest pot of a moved state are those of the state,
/// moved.
pub proof fn span_moved(s: Seq<isize>, by: int)
    requires
        movable(s, by),
        s.len() > 0,
    ensures
        least(moved(s, by)) == least(s) + by,
        greatest(moved(s, by)) == greatest(s) + by,
    decreases s.len(),
{
    let m = moved(s, by);
    assert(fits(s[0] + by));
    assert(fits(s[s.len() - 1] + by));
    if s.len() > 1 {
        assert(movable(s.drop_last(), by)) by {
            assert forall|i: int| 0 <= i < s.drop_last().len() implies fits(
                #[trigger] s.drop_last()[i] + by,
            ) by {
                assert(fits(s[i] + by));
            }
        }
        span_moved(s.drop_last(), by);
        assert(m.drop_last() =~= moved(s.drop_last(), by));
    }
}

/// What sprouts from a moved state is what sprouts from the state, moved.
pub proof fn sprouts_moved(s: Seq<isize>, rules: Seq<bool>, by: int, lo: int, hi: int)
    requires
        movable(s, by),
        lo <= hi,
        fits(lo) && fits(hi),
        fits(lo + by) && fits(hi + by),
    ensures
        sprouts(moved(s, by), rules, lo + by, hi + by) == moved(sprouts(s, rules, lo, hi), by),
        movable(sprouts(s, rules, lo, hi), by),
        forall|i: int|
            0 <= i < sprouts(s, rules, lo, hi).len() ==> lo <= #[trigger] sprouts(s, rules, lo, hi)[i]
                < hi,
    decreases hi - lo,
{
    if lo < hi {
        sprouts_moved(s, rules, by, lo, hi - 1);
        window_moved(s, by, hi - 1);
        let before = sprouts(s, rules, lo, hi - 1);
        let now = sprouts(s, rules, lo, hi);
        assert forall|i: int| 0 <= i < now.len() implies lo <= #[trigger] now[i] < hi by {
            if i < before.len() {
                assert(now[i] == before[i]);
            }
        }
        assert forall|i: int| 0 <= i < now.len() implies fits(#[trigger] now[i] + by) by {
            assert(lo <= now[i] < hi);
        }
        assert(sprouts(moved(s, by), rules, lo + by, hi + by) =~= moved(now, by)) by {
            assert(hi + by - 1 == (hi - 1) + by);
            if rules[window(s, hi - 1) as int] {
                assert(moved(now, by) =~= moved(before, by).push(((hi - 1) + by) as isize));
            }
        }
    } else {
        assert(sprouts(moved(s, by), rules, lo + by, hi + by) =~= moved(
            sprouts(s, rules, lo, hi),
            by,
        ));
    }
}

/// The next generation of a moved state is the next generation of the
/// state, moved, where both can be computed.
pub proof fn grown_moved(s: Seq<isize>, rules: Seq<bool>, by: int)
    requires
        movable(s, by),
        can_grow(s),
        can_grow(moved(s, by)),
    ensures
        movable(grown(s, rules).unwrap(), by),
        grown(moved(s, by), rules) == Some(moved(grown(s, rules).unwrap(), by)),
{
    span_moved(s, by);
    least_is_least(s);
    sprouts_moved(s, rules, by, least(s) - 2, greatest(s) + 2);
}

/// The least pot is no greater than the greatest.
pub proof fn least_is_least(s: Seq<isize>)
    requires
        s.len() > 0,
    ensures
        least(s) <= greatest(s),
    decreases s.len(),
{
    if s.len() > 1 {
        least_is_least(s.drop_last());
    }
}

/// Generations after generations are generations.
pub proof fn generation_adds(s: Seq<isize>, rules: Seq<bool>, a: nat, b: nat)
    ensures
        generation(s, rules, a + b) == (match generation(s, rules, a) {
            Some(t) => generation(t, rules, b),
            None => None,
        }),
    decreases b,
{
    if b > 0 {
        generation_adds(s, rules, a, (b - 1) as nat);
    }
}

/// A generation that can be computed has only generations before it that
/// can be.
pub proof fn generation_needs(s: Seq<isize>, rules: Seq<bool>, k: nat, n: nat)
    requires
        k <= n,
        generation(s, rules, n) is Some,
    ensures
        generation(s, rules, k) is Some,
    decreases n - k,
{
    if k < n {
        generation_needs(s, rules, k, (n - 1) as nat);
        if generation(s, rules, k) is None {
            withered_stays(s, rules, k, (n - 1) as nat);
        }
    }
}

/// Two states of one shape are one state moved.
pub proof fn same_shape_is_moved(a: Seq<isize>, b: Seq<isize>)
    requires
        alignable(a),
        alignable(b),
        aligned(a) == aligned(b),
    ensures
        movable(b, least(a) - least(b)),
        a == moved(b, least(a) - least(b)),
{
    let by = least(a) - least(b);
    assert(a.len() == aligned(a).len());
    assert(b.len() == aligned(b).len());
    assert(a.len() == b.len());
    assert forall|i: int| 0 <= i < b.len() implies fits(#[trigger] b[i] + by) && a[i] == b[i]
        + by by {
        let x = a[i] - least(a);
        let y = b[i] - least(b);
        assert(fits(x));
        assert(fits(y));
        assert(aligned(a)[i] == x as isize);
        assert(aligned(b)[i] == y as isize);
        assert(x == y);
        assert(a[i] == b[i] + by);
    }
    assert(a =~= moved(b, by));
}

/// Once a generation is an earlier one moved, every later generation is the
/// one as much earlier, moved as far.
pub proof fn moved_ever_after(
    state: Seq<isize>,
    rules: Seq<bool>,
    g: nat,
    d: nat,
    by: int,
    k: nat,
)
    requires
        d <= g,
        generation(state, rules, g + k) is Some,
        generation(state, rules, d) is Some,
        movable(generation(state, rules, d).unwrap(), by),
        generation(state, rules, g) == Some(moved(generation(state, rules, d).unwrap(), by)),
    ensures
        generation(state, rules, d + k) is Some,
        movable(generation(state, rules, d + k).unwrap(), by),
        generation(state, rules, g + k) == Some(
            moved(generation(state, rules, d + k).unwrap(), by),
        ),
    decreases k,
{
    if k > 0 {
        generation_needs(state, rules, (g + k - 1) as nat, g + k);
        moved_ever_after(state, rules, g, d, by, (k - 1) as nat);
        generation_needs(state, rules, d + k, g + k);
        let earlier = generation(state, rules, (d + k - 1) as nat).unwrap();
        assert(generation(state, rules, d + k) == grown(earlier, rules));
        assert(generation(state, rules, g + k) == grown(moved(earlier, by), rules));
        grown_moved(earlier, rules, by);
    }
}

/// Moving a state twice is moving it once by the sum.
pub proof fn moved_twice(s: Seq<isize>, a: int, b: int)
    requires
        movable(s, a),
        movable(moved(s, a), b),
    ensures
        movable(s, a + b),
        moved(moved(s, a), b) == moved(s, a + b),
{
    assert forall|i: int| 0 <= i < s.len() implies fits(#[trigger] s[i] + (a + b)) && moved(
        moved(s, a),
        b,
    )[i] == s[i] + (a + b) by {
        assert(fits(s[i] + a));
        assert(fits(moved(s, a)[i] + b));
    }
    assert(moved(moved(s, a), b) =~= moved(s, a + b));
}

/// After whole cycles the state is that of the first repeat, moved by the
/// drift of one cycle for each.
pub proof fn cycles_drift(
    state: Seq<isize>,
    rules: Seq<bool>,
    g: nat,
    d: nat,
    period: nat,
    by: int,
    m: nat,
)
    requires
        d < g,
        period == g - d,
        generation(state, rules, g + m * period) is Some,
        generation(state, rules, d) is Some,
        movable(generation(state, rules, d).unwrap(), by),
        generation(state, rules, g) == Some(moved(generation(state, rules, d).unwrap(), by)),
    ensures
        movable(generation(state, rules, g).unwrap(), m * by),
        generation(state, rules, g + m * period) == Some(
            moved(generation(state, rules, g).unwrap(), m * by),
        ),
    decreases m,
{
    let now = generation(state, rules, g).unwrap();
    if m == 0 {
        assert(m * period == 0) by (nonlinear_arith)
            requires
                m == 0,
        ;
        assert(m * by == 0) by (nonlinear_arith)
            requires
                m == 0,
        ;
        assert(now =~= moved(now, 0));
    } else {
        let fewer = (m - 1) as nat;
        let shorter = fewer * period;
        assert(m * period == shorter + period) by (nonlinear_arith)
            requires
                shorter == fewer * period,
                fewer == m - 1,
        ;
        assert(m * by == fewer * by + by) by (nonlinear_arith)
            requires
                fewer == m - 1,
        ;
        generation_needs(state, rules, g + shorter, g + m * period);
        cycles_drift(state, rules, g, d, period, by, fewer);
        assert(d + (shorter + period) == g + shorter);
        moved_ever_after(state, rules, g, d, by, shorter + period);
        moved_twice(now, fewer * by, by);
    }
}

/// The sum found through the first repeat of a shape is the sum of the pots
/// that have a plant after fifty billion generations, wherever all those
/// generations can be computed and the way through the repeat gives a sum.
pub proof fn shortcut_is_sound(state: Seq<isize>, rules: Seq<bool>, g: nat)
    requires
        first_repeat(state, rules, g),
        generation(state, rules, horizon()) is Some,
        horizon_answer(rules, state) is Some,
    ensures
        horizon_answer(rules, state) == pot_sum(generation(state, rules, horizon()).unwrap()),
{
    first_repeat_is_unique(state, rules, g);
    twin_found(state, rules, g, (g - 1) as nat);
    let d = twin(state, rules, g, (g - 1) as nat).unwrap();
    let now = generation(state, rules, g).unwrap();
    let then = generation(state, rules, d).unwrap();
    let period = (g - d) as nat;
    let cycles = ((horizon() - g) / (period as int)) as nat;
    let by = least(now) - least(then);
    let rest = (horizon() - g - cycles * period) as nat;
    assert(sound_at(state, rules, g));
    assert(sound_at(state, rules, d));
    same_shape_is_moved(now, then);
    assert(cycles * period <= horizon() - g) by (nonlinear_arith)
        requires
            cycles == (horizon() - g) / (period as int),
            period > 0,
            horizon() - g >= 0,
    ;
    generation_needs(state, rules, g + cycles * period, horizon());
    cycles_drift(state, rules, g, d, period, by, cycles);
    assert(cycles * by == by * cycles) by (nonlinear_arith);
    generation_adds(state, rules, g + cycles * period, rest);
}

/// The twin found among the first `n` generations is one of them and has
/// the shape of generation `g`.
pub proof fn twin_found(state: Seq<isize>, rules: Seq<bool>, g: nat, n: nat)
    ensures
        twin(state, rules, g, n) is Some ==> 1 <= twin(state, rules, g, n).unwrap() <= n && shape(
            state,
            rules,
            twin(state, rules, g, n).unwrap(),
        ) == shape(state, rules, g),
    decreases n,
{
    if n > 0 {
        twin_found(state, rules, g, (n - 1) as nat);
    }
}

} // verus!
