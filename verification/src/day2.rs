//! Box labels: a checksum from repeated letters, and the letters shared by
//! the two labels that differ in one place.

use crate::text::{chars_of, decimal, lines, lines_of, opt_view, string_of, usize_string, views};
use vstd::prelude::*;

verus! {

/// How often `c` occurs in `s`.
pub open spec fn occurrences(s: Seq<char>, c: char) -> nat
    decreases s.len(),
{
    if s.len() == 0 {
        0
    } else {
        occurrences(s.drop_last(), c) + if s.last() == c {
            1nat
        } else {
            0nat
        }
    }
}

/// Some character occurs in `s` exactly `amount` times.
pub open spec fn has_exactly(s: Seq<char>, amount: nat) -> bool {
    exists|i: int| 0 <= i < s.len() && occurrences(s, #[trigger] s[i]) == amount
}

/// In how many of the first `n` places `a` and `b` differ.
pub open spec fn differing(a: Seq<char>, b: Seq<char>, n: nat) -> nat
    decreases n,
{
    if n == 0 {
        0
    } else {
        differing(a, b, (n - 1) as nat) + if a[n - 1] != b[n - 1] {
            1nat
        } else {
            0nat
        }
    }
}

/// The characters that `a` and `b` share in the first `n` places, in order.
pub open spec fn shared(a: Seq<char>, b: Seq<char>, n: nat) -> Seq<char>
    decreases n,
{
    if n == 0 {
        seq![]
    } else if a[n - 1] == b[n - 1] {
        shared(a, b, (n - 1) as nat).push(a[n - 1])
    } else {
        shared(a, b, (n - 1) as nat)
    }
}

/// The length of the shorter of two texts.
pub open spec fn overlap(a: Seq<char>, b: Seq<char>) -> nat {
    if a.len() <= b.len() {
        a.len()
    } else {
        b.len()
    }
}

/// How many of the labels hold a character exactly `amount` times.
pub open spec fn count_with(ls: Seq<Seq<char>>, amount: nat) -> nat
    decreases ls.len(),
{
    if ls.len() == 0 {
        0
    } else {
        count_with(ls.drop_last(), amount) + if has_exactly(ls.last(), amount) {
            1nat
        } else {
            0nat
        }
    }
}

/// The checksum in decimal, where it fits in a `usize`.
pub open spec fn checksum(ls: Seq<Seq<char>>) -> Option<Seq<char>> {
    if count_with(ls, 2) * count_with(ls, 3) <= usize::MAX {
        Some(decimal(count_with(ls, 2) * count_with(ls, 3)))
    } else {
        None
    }
}

/// `a` and `b` differ in exactly one of the places they both have.
pub open spec fn close(a: Seq<char>, b: Seq<char>) -> bool {
    differing(a, b, overlap(a, b)) == 1
}

/// The first label from index `j` on that is close to label `i`.
pub open spec fn partner_from(ls: Seq<Seq<char>>, i: int, j: int) -> Option<int>
    decreases ls.len() - j,
{
    if j < 0 || j >= ls.len() {
        None
    } else if close(ls[i], ls[j]) {
        Some(j)
    } else {
        partner_from(ls, i, j + 1)
    }
}

/// What the first close pair shares, taking the labels from index `i` on in
/// order, each with its first partner.
pub open spec fn shared_from(ls: Seq<Seq<char>>, i: int) -> Option<Seq<char>>
    decreases ls.len() - i,
{
    if i < 0 || i >= ls.len() {
        None
    } else {
        match partner_from(ls, i, 0) {
            Some(j) => Some(shared(ls[i], ls[j], overlap(ls[i], ls[j]))),
            None => shared_from(ls, i + 1),
        }
    }
}

/// How often `c` occurs in `s`.
pub fn count_of(s: &Vec<char>, c: char) -> (r: usize)
    ensures
        r == occurrences(s@, c),
{
    let mut n: usize = 0;
    let mut i: usize = 0;
    while i < s.len()
        invariant
            i <= s.len(),
            n <= i,
            n == occurrences(s@.take(i as int), c),
        decreases s.len() - i,
    {
        assert(s@.take(i + 1).drop_last() == s@.take(i as int));
        if s[i] == c {
            n += 1;
        }
        i += 1;
    }
    assert(s@.take(s.len() as int) == s@);
    n
}

/// Whether some character occurs in `s` exactly `amount` times.
pub fn contains_exactly(s: &Vec<char>, amount: usize) -> (r: bool)
    ensures
        r == has_exactly(s@, amount as nat),
{
    let mut i: usize = 0;
    while i < s.len()
        invariant
            i <= s.len(),
            forall|j: int| 0 <= j < i ==> occurrences(s@, #[trigger] s@[j]) != amount,
        decreases s.len() - i,
    {
        if count_of(s, s[i]) == amount {
            return true;
        }
        i += 1;
    }
    false
}

/// In how many places two labels differ, up to the length of the shorter.
pub fn differing_characters(a: &Vec<char>, b: &Vec<char>) -> (r: usize)
    ensures
        r == differing(a@, b@, overlap(a@, b@)),
{
    let n: usize = if a.len() <= b.len() {
        a.len()
    } else {
        b.len()
    };
    let mut d: usize = 0;
    let mut i: usize = 0;
    while i < n
        invariant
            i <= n,
            n <= a.len(),
            n <= b.len(),
            d <= i,
            d == differing(a@, b@, i as nat),
        decreases n - i,
    {
        if a[i] != b[i] {
            d += 1;
        }
        i += 1;
    }
    d
}

/// The characters two labels share place by place, up to the length of the
/// shorter.
pub fn equal_chars(a: &Vec<char>, b: &Vec<char>) -> (r: String)
    ensures
        r@ == shared(a@, b@, overlap(a@, b@)),
{
    let n: usize = if a.len() <= b.len() {
        a.len()
    } else {
        b.len()
    };
    let mut out: Vec<char> = Vec::new();
    let mut i: usize = 0;
    while i < n
        invariant
            i <= n,
            n <= a.len(),
            n <= b.len(),
            out@ == shared(a@, b@, i as nat),
        decreases n - i,
    {
        if a[i] == b[i] {
            out.push(a[i]);
        }
        i += 1;
    }
    string_of(&out)
}

/// How many of the labels hold a character exactly `amount` times.
pub fn count_labels(ls: &Vec<Vec<char>>, amount: usize) -> (r: usize)
    ensures
        r == count_with(views(ls@), amount as nat),
        r <= ls.len(),
{
    let mut n: usize = 0;
    let mut i: usize = 0;
    while i < ls.len()
        invariant
            i <= ls.len(),
            n <= i,
            n == count_with(views(ls@).take(i as int), amount as nat),
        decreases ls.len() - i,
    {
        assert(views(ls@).take(i + 1).drop_last() == views(ls@).take(i as int));
        assert(views(ls@).take(i + 1).last() == ls[i as int]@);
        if contains_exactly(&ls[i], amount) {
            n += 1;
        }
        i += 1;
    }
    assert(views(ls@).take(ls.len() as int) == views(ls@));
    n
}

/// The number of labels with a letter exactly twice times the number with a
/// letter exactly three times, in decimal. `None` where the product does not
/// fit in a `usize`.
pub fn part1(input: &str) -> (r: Option<(String, ())>)
    ensures
        (match r {
            Some((s, _)) => Some(s@),
            None => None,
        }) == checksum(lines(input@)),
{
    let chars = chars_of(input);
    let ls = lines_of(&chars);
    let twos = count_labels(&ls, 2);
    let threes = count_labels(&ls, 3);
    match twos.checked_mul(threes) {
        Some(p) => Some((usize_string(p), ())),
        None => None,
    }
}

/// The characters shared by the first two labels that differ in exactly one
/// place, going through the labels in order and pairing each with every
/// label in order. `None` where no two labels do.
pub fn part2(input: &str, _unit: ()) -> (r: Option<String>)
    ensures
        opt_view(r) == shared_from(lines(input@), 0),
{
    let chars = chars_of(input);
    let ls = lines_of(&chars);
    let n: usize = ls.len();
    let mut i: usize = 0;
    while i < n
        invariant
            n == ls.len(),
            i <= n,
            views(ls@) == lines(input@),
            shared_from(views(ls@), 0) == shared_from(views(ls@), i as int),
        decreases n - i,
    {
        let mut j: usize = 0;
        while j < n
            invariant
                n == ls.len(),
                i < n,
                j <= n,
                views(ls@) == lines(input@),
                shared_from(views(ls@), 0) == shared_from(views(ls@), i as int),
                partner_from(views(ls@), i as int, 0) == partner_from(views(ls@), i as int, j as int),
            decreases n - j,
        {
            assert(views(ls@)[i as int] == ls[i as int]@);
            assert(views(ls@)[j as int] == ls[j as int]@);
            if differing_characters(&ls[i], &ls[j]) == 1 {
                return Some(equal_chars(&ls[i], &ls[j]));
            }
            j += 1;
        }
        i += 1;
    }
    None
}

} // verus!
