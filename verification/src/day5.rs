//! A polymer of units that react in pairs: how long it is once every
//! reaction has happened, and how short it gets without one kind of unit.

use crate::text::{chars_of, decimal, usize_string};
use vstd::prelude::*;

verus! {

/// An ASCII capital letter.
pub open spec fn is_upper(c: char) -> bool {
    'A' <= c <= 'Z'
}

/// The code of `c`, or of its small letter where `c` is an ASCII capital.
pub open spec fn lower_code(c: char) -> u32 {
    if is_upper(c) {
        (c as u32 + 32) as u32
    } else {
        c as u32
    }
}

/// Two units react: the same letter, one capital and one small.
pub open spec fn reacts(a: char, b: char) -> bool {
    lower_code(a) == lower_code(b) && is_upper(a) != is_upper(b)
}

/// ASCII white space: space, tab, line feed, form feed, carriage return.
pub open spec fn is_ascii_space(c: char) -> bool {
    c == ' ' || c == '\t' || c == '\n' || c == '\x0C' || c == '\r'
}

/// What is left of the polymer when its units are added one by one, white
/// space left out, and a unit that reacts with the one before it removes
/// both.
pub open spec fn reacted(s: Seq<char>) -> Seq<char>
    decreases s.len(),
{
    if s.len() == 0 {
        seq![]
    } else {
        let rest = reacted(s.drop_last());
        let c = s.last();
        if is_ascii_space(c) {
            rest
        } else if rest.len() > 0 && reacts(rest.last(), c) {
            rest.drop_last()
        } else {
            rest.push(c)
        }
    }
}

/// The polymer without the units of one letter, capital or small.
pub open spec fn without_unit(s: Seq<char>, unit: char) -> Seq<char>
    decreases s.len(),
{
    if s.len() == 0 {
        seq![]
    } else if lower_code(s.last()) != unit as u32 {
        without_unit(s.drop_last(), unit).push(s.last())
    } else {
        without_unit(s.drop_last(), unit)
    }
}

/// The small letter number `i` of the alphabet, counting from zero.
pub open spec fn letter(i: nat) -> char {
    (97 + i) as char
}

/// The least length that is left after removing one of the first `n`
/// letters of the alphabet and letting the rest react; `n` is at least one.
pub open spec fn shortest(s: Seq<char>, n: nat) -> nat
    decreases n,
{
    let here = reacted(without_unit(s, letter((n - 1) as nat))).len();
    if n <= 1 {
        here
    } else if here < shortest(s, (n - 1) as nat) {
        here
    } else {
        shortest(s, (n - 1) as nat)
    }
}

/// What is left after all reactions holds no white space and no two
/// neighbours that react.
pub proof fn reacted_is_stable(s: Seq<char>)
    ensures
        forall|i: int| 0 <= i < reacted(s).len() ==> !is_ascii_space(#[trigger] reacted(s)[i]),
        forall|i: int|
            0 <= i < reacted(s).len() - 1 ==> !reacts(#[trigger] reacted(s)[i], reacted(s)[i + 1]),
        reacted(s).len() <= s.len(),
    decreases s.len(),
{
    if s.len() > 0 {
        reacted_is_stable(s.drop_last());
    }
}

/// Whether two units react.
pub fn are_pairs(a: char, b: char) -> (r: bool)
    ensures
        r == reacts(a, b),
{
    let a_upper: bool = 'A' <= a && a <= 'Z';
    let b_upper: bool = 'A' <= b && b <= 'Z';
    let a_low: u32 = if a_upper {
        a as u32 + 32
    } else {
        a as u32
    };
    let b_low: u32 = if b_upper {
        b as u32 + 32
    } else {
        b as u32
    };
    a_low == b_low && a_upper != b_upper
}

/// The length of the polymer once every reaction has happened.
pub fn reacted_length(s: &Vec<char>) -> (r: usize)
    ensures
        r == reacted(s@).len(),
{
    let mut stack: Vec<char> = Vec::new();
    let mut i: usize = 0;
    while i < s.len()
        invariant
            i <= s.len(),
            stack@ == reacted(s@.take(i as int)),
        decreases s.len() - i,
    {
        assert(s@.take(i + 1).drop_last() == s@.take(i as int));
        let c: char = s[i];
        if !(c == ' ' || c == '\t' || c == '\n' || c == '\x0C' || c == '\r') {
            if stack.len() == 0 {
                stack.push(c);
            } else if are_pairs(stack[stack.len() - 1], c) {
                stack.pop();
            } else {
                stack.push(c);
            }
        }
        i += 1;
    }
    assert(s@.take(s.len() as int) == s@);
    stack.len()
}

/// The polymer without the units of one letter, capital or small.
pub fn remove_unit(s: &Vec<char>, unit: char) -> (r: Vec<char>)
    ensures
        r@ == without_unit(s@, unit),
{
    let mut out: Vec<char> = Vec::new();
    let mut i: usize = 0;
    while i < s.len()
        invariant
            i <= s.len(),
            out@ == without_unit(s@.take(i as int), unit),
        decreases s.len() - i,
    {
        assert(s@.take(i + 1).drop_last() == s@.take(i as int));
        let c: char = s[i];
        let low: u32 = if 'A' <= c && c <= 'Z' {
            c as u32 + 32
        } else {
            c as u32
        };
        if low != unit as u32 {
            out.push(c);
        }
        i += 1;
    }
    assert(s@.take(s.len() as int) == s@);
    out
}

/// The length of the polymer once every reaction has happened, in decimal.
pub fn part1(input: &str) -> (r: (String, ()))
    ensures
        r.0@ == decimal(reacted(input@).len()),
{
    let chars = chars_of(input);
    (usize_string(reacted_length(&chars)), ())
}

/// The least length that is left after removing all units of one letter of
/// the alphabet and letting the rest react, in decimal.
pub fn part2(input: &str, _unit: ()) -> (r: String)
    ensures
        r@ == decimal(shortest(input@, 26)),
{
    let chars = chars_of(input);
    let mut best: usize = reacted_length(&remove_unit(&chars, 'a'));
    let mut i: u8 = 1;
    while i < 26
        invariant
            1 <= i <= 26,
            chars@ == input@,
            best == shortest(input@, i as nat),
        decreases 26 - i,
    {
        let unit: char = (97 + i) as char;
        let here = reacted_length(&remove_unit(&chars, unit));
        if here < best {
            best = here;
        }
        i += 1;
    }
    usize_string(best)
}

} // verus!
