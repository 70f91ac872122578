//! Matching a line of text against a regular expression.

use vstd::prelude::*;

verus! {

/// What the regular expression `pattern` captures in `haystack`: the text of
/// each group of the leftmost match, group 0 being the whole match and a
/// group that took no part being `None`. `None` where `pattern` is no valid
/// expression or matches nowhere in `haystack`.
pub uninterp spec fn captures(pattern: Seq<char>, haystack: Seq<char>) -> Option<
    Seq<Option<Seq<char>>>,
>;

/// The texts held by a list of groups.
pub open spec fn group_views(groups: Seq<Option<Vec<char>>>) -> Seq<Option<Seq<char>>> {
    Seq::new(
        groups.len(),
        |i: int|
            match groups[i] {
                Some(v) => Some(v@),
                None => None,
            },
    )
}

/// Compiles `pattern` with `regex::Regex::new` and searches `haystack` with
/// `Regex::captures`; the groups come from `Captures::iter` and their texts
/// from `Match::as_str`. Nothing is proved of the result: the contract only
/// gives it its name.
#[verifier::external_body]
pub(crate) fn find_captures(pattern: &str, haystack: &Vec<char>) -> (r: Option<
    Vec<Option<Vec<char>>>,
>)
    ensures
        match r {
            Some(groups) => captures(pattern@, haystack@) == Some(group_views(groups@)),
            None => captures(pattern@, haystack@) is None,
        },
{
    let text: String = haystack.iter().collect();
    match regex::Regex::new(pattern) {
        Ok(re) => re.captures(&text).map(
            |caps| caps.iter().map(|m| m.map(|m| m.as_str().chars().collect())).collect(),
        ),
        Err(_) => None,
    }
}

/// The texts of groups 1 to `count`, where each of them took part in the
/// match.
pub open spec fn fields(groups: Seq<Option<Seq<char>>>, count: nat) -> Option<Seq<Seq<char>>> {
    if groups.len() > count && (forall|i: int| 1 <= i <= count ==> (#[trigger] groups[i]) is Some) {
        Some(Seq::new(count, |i: int| groups[i + 1].unwrap()))
    } else {
        None
    }
}

/// The texts that `pattern` captures in `line` in its groups 1 to `count`.
pub open spec fn fields_of(pattern: Seq<char>, line: Seq<char>, count: nat) -> Option<
    Seq<Seq<char>>,
> {
    match captures(pattern, line) {
        Some(groups) => fields(groups, count),
        None => None,
    }
}

/// The texts of groups 1 to `count` of a match.
pub fn take_fields(groups: &Vec<Option<Vec<char>>>, count: usize) -> (r: Option<Vec<Vec<char>>>)
    ensures
        match r {
            Some(texts) => fields(group_views(groups@), count as nat) == Some(
                crate::text::views(texts@),
            ),
            None => fields(group_views(groups@), count as nat) is None,
        },
{
    if groups.len() <= count {
        return None;
    }
    let mut texts: Vec<Vec<char>> = Vec::new();
    let mut i: usize = 0;
    while i < count
        invariant
            i <= count < groups.len(),
            texts.len() == i,
            forall|j: int| 1 <= j <= i ==> (#[trigger] group_views(groups@)[j]) is Some,
            forall|j: int| 0 <= j < i ==> (#[trigger] texts[j])@ == group_views(groups@)[j + 1].unwrap(),
        decreases count - i,
    {
        match &groups[i + 1] {
            Some(v) => {
                texts.push(crate::text::slice_of(v, 0, v.len()));
                assert(v@.subrange(0, v.len() as int) == v@);
            },
            None => {
                assert(group_views(groups@)[i + 1] is None);
                return None;
            },
        }
        i += 1;
    }
    assert(crate::text::views(texts@) =~= Seq::new(
        count as nat,
        |i: int| group_views(groups@)[i + 1].unwrap(),
    ));
    Some(texts)
}

/// Matches `line` against `pattern` and hands out groups 1 to `count`.
pub fn match_fields(pattern: &str, line: &Vec<char>, count: usize) -> (r: Option<Vec<Vec<char>>>)
    ensures
        match r {
            Some(texts) => fields_of(pattern@, line@, count as nat) == Some(
                crate::text::views(texts@),
            ),
            None => fields_of(pattern@, line@, count as nat) is None,
        },
{
    match find_captures(pattern, line) {
        Some(groups) => take_fields(&groups, count),
        None => None,
    }
}

} // verus!
