//! Merge sort of `(token, count)` entries into ranking order: the larger
//! count first, and among equal counts the smaller token first.

use vstd::prelude::*;
use vstd::seq_lib::*;

verus! {

/// Whether entry `a` may stand before entry `b`: it has the larger count, or
/// the same count and a token that is not larger.
pub open spec fn entry_leq(a: (i32, usize), b: (i32, usize)) -> bool {
    a.1 > b.1 || (a.1 == b.1 && a.0 <= b.0)
}

/// Whether each entry of `s` may stand before all that follow it.
pub open spec fn sorted(s: Seq<(i32, usize)>) -> bool {
    forall|i: int, j: int| 0 <= i < j < s.len() ==> entry_leq(#[trigger] s[i], #[trigger] s[j])
}

/// Whether `a` may stand before `b`.
fn at_or_before(a: (i32, usize), b: (i32, usize)) -> (r: bool)
    ensures
        r == entry_leq(a, b),
{
    a.1 > b.1 || (a.1 == b.1 && a.0 <= b.0)
}

/// Merges two sorted runs into one.
fn merge(left: &Vec<(i32, usize)>, right: &Vec<(i32, usize)>) -> (out: Vec<(i32, usize)>)
    requires
        sorted(left@),
        sorted(right@),
    ensures
        sorted(out@),
        out@.to_multiset() == left@.to_multiset().add(right@.to_multiset()),
{
    broadcast use {vstd::multiset::group_multiset_axioms, group_to_multiset_ensures};

    let mut out: Vec<(i32, usize)> = Vec::new();
    let mut i: usize = 0;
    let mut j: usize = 0;
    assert(left@.take(0) =~= Seq::<(i32, usize)>::empty());
    assert(right@.take(0) =~= Seq::<(i32, usize)>::empty());
    while i < left.len() || j < right.len()
        invariant
            i <= left.len(),
            j <= right.len(),
            sorted(left@),
            sorted(right@),
            sorted(out@),
            forall|x: int|
                0 <= x < out.len() && i < left.len() ==> entry_leq(
                    #[trigger] out@[x],
                    left@[i as int],
                ),
            forall|x: int|
                0 <= x < out.len() && j < right.len() ==> entry_leq(
                    #[trigger] out@[x],
                    right@[j as int],
                ),
            out@.to_multiset() == left@.take(i as int).to_multiset().add(
                right@.take(j as int).to_multiset(),
            ),
        decreases (left.len() - i) + (right.len() - j),
    {
        let from_left = if i == left.len() {
            false
        } else if j == right.len() {
            true
        } else {
            at_or_before(left[i], right[j])
        };
        if from_left {
            let e = left[i];
            proof {
                assert(left@.take(i + 1) =~= left@.take(i as int).push(e));
                to_multiset_build(out@, e);
                to_multiset_build(left@.take(i as int), e);
                assert(out@.push(e).to_multiset() =~= left@.take(i + 1).to_multiset().add(
                    right@.take(j as int).to_multiset(),
                ));
            }
            out.push(e);
            i = i + 1;
        } else {
            let e = right[j];
            proof {
                assert(right@.take(j + 1) =~= right@.take(j as int).push(e));
                to_multiset_build(out@, e);
                to_multiset_build(right@.take(j as int), e);
                assert(out@.push(e).to_multiset() =~= left@.take(i as int).to_multiset().add(
                    right@.take(j + 1).to_multiset(),
                ));
            }
            out.push(e);
            j = j + 1;
        }
    }
    assert(left@.take(i as int) =~= left@);
    assert(right@.take(j as int) =~= right@);
    out
}

/// Sorts the entries from index `lo` up to `hi`.
fn sort_range(entries: &Vec<(i32, usize)>, lo: usize, hi: usize) -> (out: Vec<(i32, usize)>)
    requires
        lo <= hi <= entries.len(),
    ensures
        sorted(out@),
        out@.to_multiset() == entries@.subrange(lo as int, hi as int).to_multiset(),
    decreases hi - lo,
{
    broadcast use {vstd::multiset::group_multiset_axioms, group_to_multiset_ensures};

    if hi - lo <= 1 {
        let mut out: Vec<(i32, usize)> = Vec::new();
        if hi - lo == 1 {
            out.push(entries[lo]);
        }
        assert(out@ =~= entries@.subrange(lo as int, hi as int));
        out
    } else {
        let mid = lo + (hi - lo) / 2;
        let left = sort_range(entries, lo, mid);
        let right = sort_range(entries, mid, hi);
        proof {
            let a = entries@.subrange(lo as int, mid as int);
            let b = entries@.subrange(mid as int, hi as int);
            assert(a + b =~= entries@.subrange(lo as int, hi as int));
            lemma_multiset_commutative(a, b);
        }
        merge(&left, &right)
    }
}

/// Sorts entries into ranking order. The result holds what `entries` holds,
/// each entry as often.
pub fn sort_entries(entries: &Vec<(i32, usize)>) -> (out: Vec<(i32, usize)>)
    ensures
        sorted(out@),
        out@.to_multiset() == entries@.to_multiset(),
{
    assert(entries@.subrange(0, entries@.len() as int) =~= entries@);
    sort_range(entries, 0, entries.len())
}

} // verus!
