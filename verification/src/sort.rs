//! Sorting the pair list and the distance columns.
//!
//! Both sorts are insertion sorts whose result is pinned down exactly: it is
//! `Seq::sort_by` of the input under the respective total order.

use vstd::prelude::*;

verus! {

use vstd::seq_lib::*;
use vstd::relations::{sorted_by, total_ordering, transitive};
use crate::pair::{Pair, pair_le, pair_leq, pair_le_exec, lemma_pair_le_total};

/// The usual order on signed integers, packaged for `Seq::sort_by`.
pub open spec fn i32_le() -> spec_fn(i32, i32) -> bool {
    |x: i32, y: i32| x <= y
}

pub proof fn lemma_i32_le_total()
    ensures
        total_ordering(i32_le()),
{
}

/// The pair list in ascending lexicographic order.
pub open spec fn spec_sort_pairs(s: Seq<Pair>) -> Seq<Pair> {
    s.sort_by(pair_leq())
}

/// A column in ascending order.
pub open spec fn spec_sort_i32(s: Seq<i32>) -> Seq<i32> {
    s.sort_by(i32_le())
}

/// Inserting an element anywhere in a sequence inserts it into the multiset
/// of its elements.
pub proof fn lemma_to_multiset_insert<A>(s: Seq<A>, k: int, x: A)
    requires
        0 <= k <= s.len(),
    ensures
        s.insert(k, x).to_multiset() == s.to_multiset().insert(x),
{
    broadcast use vstd::multiset::group_multiset_axioms;
    broadcast use group_to_multiset_ensures;

    s.insert_ensures(k, x);
    let t = s.insert(k, x);
    assert(t.remove(k) =~= s);
    assert(t.remove(k).to_multiset() =~= t.to_multiset().remove(t[k]));
    assert(t[k] == x);
    assert(t.to_multiset().contains(x)) by {
        assert(t.contains(x));
    }
    assert(t.to_multiset() =~= s.to_multiset().insert(x)) by {
        assert forall|y: A| t.to_multiset().count(y) == s.to_multiset().insert(x).count(
            y,
        ) by {
            assert(s.to_multiset().count(y) == t.to_multiset().remove(x).count(y));
        }
    }
}

/// Inserting an element between the elements below it and those above it
/// keeps a sequence sorted.
pub proof fn lemma_sorted_insert<A>(s: Seq<A>, k: int, x: A, leq: spec_fn(A, A) -> bool)
    requires
        sorted_by(s, leq),
        total_ordering(leq),
        0 <= k <= s.len(),
        forall|m: int| 0 <= m < k ==> leq(#[trigger] s[m], x),
        k < s.len() ==> leq(x, s[k]),
    ensures
        sorted_by(s.insert(k, x), leq),
{
    s.insert_ensures(k, x);
    let t = s.insert(k, x);
    assert forall|i: int, j: int| 0 <= i < j < t.len() implies #[trigger] leq(t[i], t[j]) by {
        if j < k {
            assert(leq(s[i], s[j]));
        } else if j == k {
            assert(leq(s[i], x));
        } else if i < k {
            assert(t[j] == s[j - 1]);
            assert(leq(s[i], s[j - 1]));
        } else if i == k {
            assert(t[j] == s[j - 1]);
            assert(leq(x, s[k]));
            if k < j - 1 {
                assert(leq(s[k], s[j - 1]));
                assert(transitive(leq));
                assert(leq(x, s[j - 1]));
            }
        } else {
            assert(t[i] == s[i - 1]);
            assert(t[j] == s[j - 1]);
            assert(leq(s[i - 1], s[j - 1]));
        }
    }
}

/// Sort the pair list in place, ascending lexicographically.
pub fn sort_pairs(v: &mut Vec<Pair>)
    ensures
        final(v)@ == spec_sort_pairs(old(v)@),
{
    let ghost orig = v@;
    let mut out: Vec<Pair> = Vec::new();
    let mut idx: usize = 0;
    proof {
        assert(orig.take(0) =~= Seq::<Pair>::empty());
        assert(Seq::<Pair>::empty().to_multiset() =~= out@.to_multiset());
    }
    while idx < v.len()
        invariant
            0 <= idx <= v@.len(),
            v@ == orig,
            sorted_by(out@, pair_leq()),
            out@.to_multiset() == orig.take(idx as int).to_multiset(),
        decreases v@.len() - idx,
    {
        let x = v[idx];
        let ghost pre = out@;
        let mut pos: usize = 0;
        while pos < out.len() && pair_le_exec(&out[pos], &x)
            invariant
                0 <= pos <= out@.len(),
                out@ == pre,
                forall|m: int| 0 <= m < pos ==> pair_le(#[trigger] out@[m], x),
            decreases out@.len() - pos,
        {
            pos = pos + 1;
        }
        out.insert(pos, x);
        proof {
            lemma_pair_le_total();
            if pos < pre.len() {
                assert(pair_le(x, pre[pos as int]));
            }
            lemma_sorted_insert(pre, pos as int, x, pair_leq());
            lemma_to_multiset_insert(pre, pos as int, x);
            assert(orig.take(idx + 1) =~= orig.take(idx as int).push(x));
            orig.take(idx as int).to_multiset_ensures();
            assert(out@.to_multiset() == orig.take(idx + 1).to_multiset());
        }
        idx = idx + 1;
    }
    proof {
        assert(orig.take(orig.len() as int) =~= orig);
        lemma_pair_le_total();
        orig.lemma_sort_by_ensures(pair_leq());
        lemma_sorted_unique(out@, orig.sort_by(pair_leq()), pair_leq());
    }
    *v = out;
}

/// Sort a column in place, ascending.
pub fn sort_i32(v: &mut Vec<i32>)
    ensures
        final(v)@ == spec_sort_i32(old(v)@),
{
    let ghost orig = v@;
    let mut out: Vec<i32> = Vec::new();
    let mut idx: usize = 0;
    proof {
        assert(orig.take(0) =~= Seq::<i32>::empty());
        assert(Seq::<i32>::empty().to_multiset() =~= out@.to_multiset());
    }
    while idx < v.len()
        invariant
            0 <= idx <= v@.len(),
            v@ == orig,
            sorted_by(out@, i32_le()),
            out@.to_multiset() == orig.take(idx as int).to_multiset(),
        decreases v@.len() - idx,
    {
        let x = v[idx];
        let ghost pre = out@;
        let mut pos: usize = 0;
        while pos < out.len() && out[pos] <= x
            invariant
                0 <= pos <= out@.len(),
                out@ == pre,
                forall|m: int| 0 <= m < pos ==> #[trigger] out@[m] <= x,
            decreases out@.len() - pos,
        {
            pos = pos + 1;
        }
        out.insert(pos, x);
        proof {
            lemma_i32_le_total();
            if pos < pre.len() {
                assert(x <= pre[pos as int]);
            }
            lemma_sorted_insert(pre, pos as int, x, i32_le());
            lemma_to_multiset_insert(pre, pos as int, x);
            assert(orig.take(idx + 1) =~= orig.take(idx as int).push(x));
            orig.take(idx as int).to_multiset_ensures();
            assert(out@.to_multiset() == orig.take(idx + 1).to_multiset());
        }
        idx = idx + 1;
    }
    proof {
        assert(orig.take(orig.len() as int) =~= orig);
        lemma_i32_le_total();
        orig.lemma_sort_by_ensures(i32_le());
        lemma_sorted_unique(out@, orig.sort_by(i32_le()), i32_le());
    }
    *v = out;
}

} // verus!
