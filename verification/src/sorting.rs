//! Texts in dictionary order by character code, and sorting them.

use crate::text::views;
use vstd::prelude::*;
use vstd::relations::{sorted_by, total_ordering};
use vstd::seq_lib::{lemma_sorted_unique, to_multiset_insert};

verus! {

/// `a` comes no later than `b` in dictionary order by character code.
pub open spec fn lex_le(a: Seq<char>, b: Seq<char>) -> bool
    decreases a.len(),
{
    if a.len() == 0 {
        true
    } else if b.len() == 0 {
        false
    } else if a[0] != b[0] {
        a[0] < b[0]
    } else {
        lex_le(a.drop_first(), b.drop_first())
    }
}

/// Dictionary order as a relation.
pub open spec fn by_text() -> spec_fn(Seq<char>, Seq<char>) -> bool {
    |a: Seq<char>, b: Seq<char>| lex_le(a, b)
}

/// Every text comes no later than itself.
pub proof fn lex_le_reflexive(a: Seq<char>)
    ensures
        lex_le(a, a),
    decreases a.len(),
{
    if a.len() > 0 {
        lex_le_reflexive(a.drop_first());
    }
}

/// Two texts that each come no later than the other are the same text.
pub proof fn lex_le_antisymmetric(a: Seq<char>, b: Seq<char>)
    requires
        lex_le(a, b),
        lex_le(b, a),
    ensures
        a == b,
    decreases a.len(),
{
    if a.len() > 0 {
        lex_le_antisymmetric(a.drop_first(), b.drop_first());
        assert(a =~= seq![a[0]] + a.drop_first());
        assert(b =~= seq![b[0]] + b.drop_first());
    } else {
        assert(a =~= b);
    }
}

/// Dictionary order passes along a chain.
pub proof fn lex_le_transitive(a: Seq<char>, b: Seq<char>, c: Seq<char>)
    requires
        lex_le(a, b),
        lex_le(b, c),
    ensures
        lex_le(a, c),
    decreases a.len(),
{
    if a.len() > 0 && a[0] == b[0] && b[0] == c[0] {
        lex_le_transitive(a.drop_first(), b.drop_first(), c.drop_first());
    }
}

/// Of two texts, one comes no later than the other.
pub proof fn lex_le_total(a: Seq<char>, b: Seq<char>)
    ensures
        lex_le(a, b) || lex_le(b, a),
    decreases a.len(),
{
    if a.len() > 0 && b.len() > 0 && a[0] == b[0] {
        lex_le_total(a.drop_first(), b.drop_first());
    }
}

/// Dictionary order is a total order.
pub proof fn by_text_is_total()
    ensures
        total_ordering(by_text()),
{
    let r = by_text();
    assert forall|a: Seq<char>| #[trigger] r(a, a) by {
        lex_le_reflexive(a);
    }
    assert forall|a: Seq<char>, b: Seq<char>| #[trigger] r(a, b) && #[trigger] r(b, a) implies a
        == b by {
        lex_le_antisymmetric(a, b);
    }
    assert forall|a: Seq<char>, b: Seq<char>, c: Seq<char>| #[trigger]
        r(a, b) && #[trigger] r(b, c) implies r(a, c) by {
        lex_le_transitive(a, b, c);
    }
    assert forall|a: Seq<char>, b: Seq<char>| #[trigger] r(a, b) || #[trigger] r(b, a) by {
        lex_le_total(a, b);
    }
}

/// Whether `a` comes no later than `b` in dictionary order.
pub fn text_le(a: &Vec<char>, b: &Vec<char>) -> (r: bool)
    ensures
        r == lex_le(a@, b@),
{
    let mut i: usize = 0;
    assert(a@.skip(0) == a@);
    assert(b@.skip(0) == b@);
    while i < a.len() && i < b.len()
        invariant
            i <= a.len(),
            i <= b.len(),
            lex_le(a@, b@) == lex_le(a@.skip(i as int), b@.skip(i as int)),
        decreases a.len() - i,
    {
        assert(a@.skip(i as int)[0] == a[i as int]);
        assert(b@.skip(i as int)[0] == b[i as int]);
        assert(a@.skip(i as int).drop_first() == a@.skip(i + 1));
        assert(b@.skip(i as int).drop_first() == b@.skip(i + 1));
        if a[i] != b[i] {
            return a[i] < b[i];
        }
        i += 1;
    }
    i == a.len()
}

/// The texts in dictionary order.
pub fn sort_texts(ls: Vec<Vec<char>>) -> (r: Vec<Vec<char>>)
    ensures
        views(r@) == views(ls@).sort_by(by_text()),
{
    broadcast use {
        vstd::seq_lib::group_to_multiset_ensures,
        vstd::multiset::group_multiset_axioms,
        to_multiset_insert,
    };

    let ghost all = views(ls@);
    let mut rest = ls;
    let mut out: Vec<Vec<char>> = Vec::new();
    proof {
        by_text_is_total();
        assert(views(out@) =~= Seq::<Seq<char>>::empty());
        assert(views(out@).to_multiset().add(all.to_multiset()) =~= all.to_multiset());
    }
    while rest.len() > 0
        invariant
            total_ordering(by_text()),
            sorted_by(views(out@), by_text()),
            views(out@).to_multiset().add(views(rest@).to_multiset()) == all.to_multiset(),
        decreases rest.len(),
    {
        let ghost rest_before = views(rest@);
        let ghost out_before = views(out@);
        let item = rest.pop().unwrap();
        assert(rest_before =~= views(rest@).push(item@));
        let mut p: usize = 0;
        while p < out.len() && text_le(&out[p], &item)
            invariant
                p <= out.len(),
                out_before == views(out@),
                forall|j: int| 0 <= j < p ==> lex_le(#[trigger] out_before[j], item@),
            decreases out.len() - p,
        {
            assert(out_before[p as int] == out[p as int]@);
            p += 1;
        }
        out.insert(p, item);
        proof {
            let now = views(out@);
            assert(now =~= out_before.insert(p as int, item@));
            assert forall|i: int, j: int| 0 <= i < j < now.len() implies by_text()(
                now[i],
                now[j],
            ) by {
                if j == p {
                    assert(lex_le(out_before[i], item@));
                } else if i == p {
                    assert(out_before[p as int] == now[p + 1]);
                    lex_le_total(out_before[p as int], item@);
                    assert(by_text()(out_before[p as int], out_before[j - 1]));
                    lex_le_transitive(item@, out_before[p as int], out_before[j - 1]);
                } else {
                    let oi = if i < p {
                        i
                    } else {
                        i - 1
                    };
                    let oj = if j < p {
                        j
                    } else {
                        j - 1
                    };
                    assert(by_text()(out_before[oi], out_before[oj]));
                }
            }
            to_multiset_insert(out_before, p as int, item@);
            vstd::seq_lib::to_multiset_build(views(rest@), item@);
            assert(now.to_multiset() =~= out_before.to_multiset().insert(item@));
            assert(rest_before.to_multiset() =~= views(rest@).to_multiset().insert(item@));
            assert(now.to_multiset().add(views(rest@).to_multiset()) =~= out_before.to_multiset().add(
                rest_before.to_multiset(),
            ));
        }
    }
    proof {
        assert(views(rest@) =~= Seq::<Seq<char>>::empty());
        assert(views(out@).to_multiset() =~= all.to_multiset());
        all.lemma_sort_by_ensures(by_text());
        lemma_sorted_unique(views(out@), all.sort_by(by_text()), by_text());
    }
    out
}

} // verus!
