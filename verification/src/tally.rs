//! Counting the squares of a rectangle that have a given property, picking
//! the index at which a function is greatest, and adding up numbers.

use vstd::prelude::*;

verus! {

/// How many squares `(x, y)` with `y0 <= y < y1` have the property.
pub open spec fn count_in_column(p: spec_fn(int, int) -> bool, x: int, y0: int, y1: int) -> nat
    decreases y1 - y0,
{
    if y1 <= y0 {
        0
    } else {
        count_in_column(p, x, y0, y1 - 1) + if p(x, y1 - 1) {
            1nat
        } else {
            0nat
        }
    }
}

/// How many squares `(x, y)` with `x0 <= x < x1` and `y0 <= y < y1` have the
/// property.
pub open spec fn count_in_box(p: spec_fn(int, int) -> bool, x0: int, x1: int, y0: int, y1: int) -> nat
    decreases x1 - x0,
{
    if x1 <= x0 {
        0
    } else {
        count_in_box(p, x0, x1 - 1, y0, y1) + count_in_column(p, x1 - 1, y0, y1)
    }
}

/// A count over part of a column is no more than the count over all of it.
pub proof fn column_count_grows(p: spec_fn(int, int) -> bool, x: int, y0: int, y: int, y1: int)
    requires
        y <= y1,
    ensures
        count_in_column(p, x, y0, y) <= count_in_column(p, x, y0, y1),
    decreases y1 - y,
{
    if y < y1 {
        column_count_grows(p, x, y0, y, y1 - 1);
    }
}

/// A count over the first columns is no more than the count over all.
pub proof fn box_count_grows(p: spec_fn(int, int) -> bool, x0: int, x: int, x1: int, y0: int, y1: int)
    requires
        x <= x1,
    ensures
        count_in_box(p, x0, x, y0, y1) <= count_in_box(p, x0, x1, y0, y1),
    decreases x1 - x,
{
    if x < x1 {
        box_count_grows(p, x0, x, x1 - 1, y0, y1);
    }
}

/// The count over whole columns and part of the next is no more than the
/// count over the box.
pub proof fn partial_count_bounded(
    p: spec_fn(int, int) -> bool,
    x0: int,
    x: int,
    x1: int,
    y0: int,
    y: int,
    y1: int,
)
    requires
        x0 <= x < x1,
        y <= y1,
    ensures
        count_in_box(p, x0, x, y0, y1) + count_in_column(p, x, y0, y) <= count_in_box(
            p,
            x0,
            x1,
            y0,
            y1,
        ),
{
    column_count_grows(p, x, y0, y, y1);
    box_count_grows(p, x0, x + 1, x1, y0, y1);
}

/// The last index below `n` at which `f` is greatest; 0 where `n` is 0.
pub open spec fn last_max(f: spec_fn(int) -> int, n: nat) -> int
    decreases n,
{
    if n <= 1 {
        0
    } else {
        let before = last_max(f, (n - 1) as nat);
        if f(n - 1) >= f(before) {
            n - 1
        } else {
            before
        }
    }
}

/// `last_max` is an index at which `f` is greatest, and `f` is smaller at
/// every later index.
pub proof fn last_max_is_greatest(f: spec_fn(int) -> int, n: nat)
    requires
        n > 0,
    ensures
        0 <= last_max(f, n) < n,
        forall|j: int| 0 <= j < n ==> #[trigger] f(j) <= f(last_max(f, n)),
        forall|j: int| last_max(f, n) < j < n ==> #[trigger] f(j) < f(last_max(f, n)),
    decreases n,
{
    if n > 1 {
        last_max_is_greatest(f, (n - 1) as nat);
    }
}

/// The value fits in an `isize`.
pub open spec fn fits(v: int) -> bool {
    isize::MIN <= v <= isize::MAX
}

/// The sum of the numbers.
pub open spec fn sum(cs: Seq<isize>) -> int
    decreases cs.len(),
{
    if cs.len() == 0 {
        0
    } else {
        sum(cs.drop_last()) + cs.last()
    }
}

/// The sum of the numbers and of each of their prefixes fits in an `isize`.
pub open spec fn sums_fit(cs: Seq<isize>) -> bool {
    forall|k: int| 0 <= k <= cs.len() ==> fits(#[trigger] sum(cs.take(k)))
}

/// The sum of the numbers, where it and every partial sum on the way fit.
pub fn total(cs: &Vec<isize>) -> (r: Option<isize>)
    ensures
        match r {
            Some(v) => sums_fit(cs@) && v == sum(cs@),
            None => !sums_fit(cs@),
        },
{
    let mut acc: isize = 0;
    let mut i: usize = 0;
    while i < cs.len()
        invariant
            i <= cs.len(),
            acc == sum(cs@.take(i as int)),
            forall|k: int| 0 <= k <= i ==> fits(#[trigger] sum(cs@.take(k))),
        decreases cs.len() - i,
    {
        assert(cs@.take(i + 1).drop_last() == cs@.take(i as int));
        match acc.checked_add(cs[i]) {
            Some(v) => {
                acc = v;
            },
            None => {
                assert(!fits(sum(cs@.take(i + 1))));
                return None;
            },
        }
        i += 1;
    }
    assert(cs@.take(cs.len() as int) == cs@);
    Some(acc)
}

/// The number as the signed number that the same bits write.
pub open spec fn as_signed(p: usize) -> int {
    if p <= isize::MAX {
        p as int
    } else {
        p - usize::MAX - 1
    }
}

/// The number as the signed number that the same bits write.
pub fn to_signed(p: usize) -> (r: isize)
    ensures
        r == as_signed(p),
{
    if p <= isize::MAX as usize {
        p as isize
    } else {
        ((p - isize::MAX as usize - 1) as isize) + isize::MIN
    }
}

} // verus!
