//! A list of frequency changes: where they lead, and which frequency is
//! reached twice first when the list is applied over and over.

use crate::text::{
    as_isize, chars_of, isize_string, lines, lines_of, opt_view, read_isize, signed_decimal, views,
};
use crate::tally::{fits, sum, sums_fit, total};
use std::collections::HashSet;
use vstd::prelude::*;
use vstd::set_lib::{lemma_int_range, lemma_len_subset, set_int_range};

verus! {

/// The changes that the lines write, if every line writes a number.
pub open spec fn changes_of(ls: Seq<Seq<char>>) -> Option<Seq<isize>> {
    if forall|i: int| 0 <= i < ls.len() ==> (#[trigger] as_isize(ls[i])) is Some {
        Some(Seq::new(ls.len(), |i: int| as_isize(ls[i]).unwrap()))
    } else {
        None
    }
}

/// The frequency after `k` changes, starting from zero and taking the list
/// again from its start whenever it runs out.
pub open spec fn freq(cs: Seq<isize>, k: nat) -> int
    decreases k,
{
    if k == 0 || cs.len() == 0 {
        0
    } else {
        freq(cs, (k - 1) as nat) + cs[(k - 1) % (cs.len() as int)]
    }
}

/// The frequency after `k` changes was already reached after fewer, at least
/// one.
pub open spec fn repeats_at(cs: Seq<isize>, k: nat) -> bool {
    exists|j: nat| 1 <= j < k && #[trigger] freq(cs, j) == freq(cs, k)
}

/// `k` is the first number of changes after which the frequency repeats or
/// no longer fits in an `isize`.
pub open spec fn first_stop(cs: Seq<isize>, k: nat) -> bool {
    &&& k >= 1
    &&& repeats_at(cs, k) || !fits(freq(cs, k))
    &&& forall|j: nat| 1 <= j < k ==> !repeats_at(cs, j) && fits(#[trigger] freq(cs, j))
}

/// The first number of changes after which the frequency repeats or no
/// longer fits, where there is one.
pub open spec fn stop_index(cs: Seq<isize>) -> nat {
    choose|k: nat| first_stop(cs, k)
}

/// The first frequency reached twice, in decimal; `None` where there are no
/// changes or the frequency stops fitting in an `isize` first.
pub open spec fn repeat_answer(cs: Seq<isize>) -> Option<Seq<char>> {
    if cs.len() > 0 && fits(freq(cs, stop_index(cs))) {
        Some(signed_decimal(freq(cs, stop_index(cs))))
    } else {
        None
    }
}

/// There is at most one first stop.
pub proof fn first_stop_is_unique(cs: Seq<isize>, k: nat)
    requires
        first_stop(cs, k),
    ensures
        stop_index(cs) == k,
{
    let other = stop_index(cs);
    assert(first_stop(cs, other));
    if other < k {
        assert(!repeats_at(cs, other) && fits(freq(cs, other)));
    } else if k < other {
        assert(!repeats_at(cs, k) && fits(freq(cs, k)));
    }
}

/// Reads one change from each line.
pub fn parse(ls: &Vec<Vec<char>>) -> (r: Option<Vec<isize>>)
    ensures
        match r {
            Some(cs) => changes_of(views(ls@)) == Some(cs@),
            None => changes_of(views(ls@)) is None,
        },
{
    let mut cs: Vec<isize> = Vec::new();
    let mut i: usize = 0;
    while i < ls.len()
        invariant
            i <= ls.len(),
            cs.len() == i,
            forall|j: int| 0 <= j < i ==> #[trigger] as_isize(views(ls@)[j]) == Some(cs[j]),
        decreases ls.len() - i,
    {
        assert(views(ls@)[i as int] == ls[i as int]@);
        match read_isize(&ls[i]) {
            Some(c) => cs.push(c),
            None => {
                return None;
            },
        }
        i += 1;
    }
    assert(cs@ =~= Seq::new(views(ls@).len(), |i: int| as_isize(views(ls@)[i]).unwrap()));
    Some(cs)
}

/// The frequency that the changes lead to from zero, in decimal. `None` where
/// a line writes no number or a sum on the way does not fit.
pub fn part1(input: &str) -> (r: Option<(String, ())>)
    ensures
        match changes_of(lines(input@)) {
            Some(cs) => match r {
                Some((s, _)) => sums_fit(cs) && s@ == signed_decimal(sum(cs)),
                None => !sums_fit(cs),
            },
            None => r is None,
        },
{
    let chars = chars_of(input);
    let ls = lines_of(&chars);
    let cs = match parse(&ls) {
        Some(cs) => cs,
        None => {
            return None;
        },
    };
    match total(&cs) {
        Some(v) => Some((isize_string(v), ())),
        None => None,
    }
}

/// Pairwise distinct values that all fit in an `isize` are no more than there
/// are `isize` values.
pub proof fn distinct_values_bounded(s: Seq<int>)
    requires
        s.no_duplicates(),
        forall|i: int| 0 <= i < s.len() ==> fits(#[trigger] s[i]),
    ensures
        s.len() <= isize::MAX - isize::MIN + 1,
{
    let range = set_int_range(isize::MIN as int, isize::MAX + 1);
    lemma_int_range(isize::MIN as int, isize::MAX + 1);
    s.unique_seq_to_set();
    assert(s.to_set().subset_of(range)) by {
        assert forall|v: int| s.to_set().contains(v) implies range.contains(v) by {
            let i = choose|i: int| 0 <= i < s.len() && s[i] == v;
            assert(fits(s[i]));
        }
    }
    lemma_len_subset(s.to_set(), range);
}

/// The first frequency reached twice when the changes are applied over and
/// over from zero. `None` where the frequency leaves the range of `isize`
/// before that.
pub fn first_repeat(cs: &Vec<isize>) -> (r: Option<isize>)
    requires
        cs.len() > 0,
    ensures
        match r {
            Some(v) => exists|k: nat| first_stop(cs@, k) && v == #[trigger] freq(cs@, k),
            None => exists|k: nat| first_stop(cs@, k) && !fits(#[trigger] freq(cs@, k)),
        },
{
    let mut seen: HashSet<isize> = HashSet::new();
    let mut acc: isize = 0;
    let mut i: usize = 0;
    let ghost mut k: nat = 0;
    loop
        invariant
            cs.len() > 0,
            i < cs.len(),
            i == k % (cs.len() as nat),
            acc == freq(cs@, k),
            forall|j: nat| 1 <= j <= k ==> !repeats_at(cs@, j) && fits(#[trigger] freq(cs@, j)),
            forall|v: isize|
                seen@.contains(v) <==> exists|j: nat| 1 <= j <= k && #[trigger] freq(cs@, j) == v,
        decreases isize::MAX - isize::MIN + 2 - k,
    {
        broadcast use vstd::std_specs::hash::group_hash_axioms;

        let ghost next = (k + 1) as nat;
        assert(freq(cs@, next) == acc + cs[i as int]);
        let v = match acc.checked_add(cs[i]) {
            Some(v) => v,
            None => {
                assert(first_stop(cs@, next));
                return None;
            },
        };
        if seen.contains(&v) {
            assert(repeats_at(cs@, next));
            assert(first_stop(cs@, next));
            return Some(v);
        }
        seen.insert(v);
        acc = v;
        proof {
            assert(!repeats_at(cs@, next));
            let trail = Seq::new(next, |j: int| freq(cs@, (j + 1) as nat));
            assert forall|a: int, b: int| 0 <= a < trail.len() && 0 <= b < trail.len() && a != b implies trail[a] != trail[b] by {
                if a < b {
                    assert(!repeats_at(cs@, (b + 1) as nat));
                    assert(freq(cs@, (a + 1) as nat) != freq(cs@, (b + 1) as nat));
                } else {
                    assert(!repeats_at(cs@, (a + 1) as nat));
                    assert(freq(cs@, (b + 1) as nat) != freq(cs@, (a + 1) as nat));
                }
            }
            assert forall|j: int| 0 <= j < trail.len() implies fits(#[trigger] trail[j]) by {
                assert(fits(freq(cs@, (j + 1) as nat)));
            }
            distinct_values_bounded(trail);
            assert(next % (cs.len() as nat) == if i + 1 == cs.len() {
                0
            } else {
                i + 1
            }) by (nonlinear_arith)
                requires
                    i == k % (cs.len() as nat),
                    next == k + 1,
                    i < cs.len(),
                    cs.len() > 0,
            ;
            k = next;
        }
        i = if i + 1 == cs.len() {
            0
        } else {
            i + 1
        };
    }
}

/// The first frequency reached twice when the changes are applied over and
/// over from zero, in decimal. `None` where a line writes no number, where
/// there is no line at all, or where the frequency leaves the range of
/// `isize` before any is reached twice.
pub fn part2(input: &str, _unit: ()) -> (r: Option<String>)
    ensures
        opt_view(r) == (match changes_of(lines(input@)) {
            Some(cs) => repeat_answer(cs),
            None => None,
        }),
{
    let chars = chars_of(input);
    let ls = lines_of(&chars);
    let cs = match parse(&ls) {
        Some(cs) => cs,
        None => {
            return None;
        },
    };
    if cs.len() == 0 {
        return None;
    }
    match first_repeat(&cs) {
        Some(v) => {
            proof {
                let k = choose|k: nat| first_stop(cs@, k) && v == #[trigger] freq(cs@, k);
                first_stop_is_unique(cs@, k);
            }
            Some(isize_string(v))
        },
        None => {
            proof {
                let k = choose|k: nat| first_stop(cs@, k) && !fits(#[trigger] freq(cs@, k));
                first_stop_is_unique(cs@, k);
            }
            None
        },
    }
}

} // verus!
