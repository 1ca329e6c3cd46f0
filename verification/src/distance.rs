//! The distance operation: split the parsed pairs into two columns, sort
//! each column on its own (deliberately discarding row pairing), and sum the
//! elementwise absolute differences.

use vstd::prelude::*;

verus! {

use vstd::seq_lib::*;
use vstd::multiset::Multiset;
use crate::lines::{spec_lines, split_lines};
use crate::parse::{spec_pairs_i32, parse_pairs_i32, spec_parse_pair_i32, lemma_pairs_i32_concat};
use crate::sort::{i32_le, lemma_i32_le_total, spec_sort_i32, sort_i32};

/// The first element of a signed pair.
pub open spec fn fst() -> spec_fn((i32, i32)) -> i32 {
    |p: (i32, i32)| p.0
}

/// The second element of a signed pair.
pub open spec fn snd() -> spec_fn((i32, i32)) -> i32 {
    |p: (i32, i32)| p.1
}

/// The left column: all first elements, in file order.
pub open spec fn left_col(ps: Seq<(i32, i32)>) -> Seq<i32> {
    ps.map_values(fst())
}

/// The right column: all second elements, in file order.
pub open spec fn right_col(ps: Seq<(i32, i32)>) -> Seq<i32> {
    ps.map_values(snd())
}

pub open spec fn abs_diff(a: int, b: int) -> int {
    if a >= b {
        a - b
    } else {
        b - a
    }
}

/// Sum of elementwise absolute differences of two columns (up to the length
/// of the shorter one; the two columns always have equal length here).
pub open spec fn sum_abs(l: Seq<i32>, r: Seq<i32>) -> int
    decreases l.len(),
{
    if l.len() == 0 || r.len() == 0 {
        0
    } else {
        abs_diff(l[0] as int, r[0] as int) + sum_abs(l.drop_first(), r.drop_first())
    }
}

/// What the distance operation returns for a given input file.
pub open spec fn spec_distance(input: Seq<u8>) -> int {
    let ps = spec_pairs_i32(spec_lines(input));
    sum_abs(spec_sort_i32(left_col(ps)), spec_sort_i32(right_col(ps)))
}

/// The distance operation on a file's bytes: parse, split into columns,
/// sort each column, sum the absolute differences.
pub fn total_distance(input: &Vec<u8>) -> (r: u128)
    ensures
        r as int == spec_distance(input@),
{
    let lines = split_lines(input);
    let prs = parse_pairs_i32(&lines);
    let mut left: Vec<i32> = Vec::new();
    let mut right: Vec<i32> = Vec::new();
    let mut k: usize = 0;
    while k < prs.len()
        invariant
            0 <= k <= prs@.len(),
            left@.len() == k,
            right@.len() == k,
            forall|m: int| 0 <= m < k ==> left@[m] == (#[trigger] prs@[m]).0,
            forall|m: int| 0 <= m < k ==> right@[m] == (#[trigger] prs@[m]).1,
        decreases prs@.len() - k,
    {
        let p = prs[k];
        left.push(p.0);
        right.push(p.1);
        k = k + 1;
    }
    proof {
        assert(left@ =~= left_col(prs@));
        assert(right@ =~= right_col(prs@));
    }
    sort_i32(&mut left);
    sort_i32(&mut right);
    let ghost sl = left@;
    let ghost sr = right@;
    proof {
        broadcast use group_to_multiset_ensures;

        lemma_i32_le_total();
        left_col(prs@).lemma_sort_by_ensures(i32_le());
        right_col(prs@).lemma_sort_by_ensures(i32_le());
        assert(sl.to_multiset().len() == sl.len());
        assert(left_col(prs@).to_multiset().len() == left_col(prs@).len());
        assert(sr.to_multiset().len() == sr.len());
        assert(right_col(prs@).to_multiset().len() == right_col(prs@).len());
        assert(sl.len() == prs@.len());
        assert(sr.len() == prs@.len());
        assert(sl.skip(0) =~= sl);
        assert(sr.skip(0) =~= sr);
    }
    let n = left.len();
    let mut total: u128 = 0;
    let mut i: usize = 0;
    while i < n
        invariant
            0 <= i <= n,
            n == sl.len(),
            n == sr.len(),
            left@ == sl,
            right@ == sr,
            n == left@.len(),
            n == right@.len(),
            total as int + sum_abs(sl.skip(i as int), sr.skip(i as int)) == sum_abs(sl, sr),
            total as int <= i as int * 0xFFFF_FFFF,
        decreases n - i,
    {
        let a = left[i];
        let b = right[i];
        let d: u64 = if a >= b {
            (a as i64 - b as i64) as u64
        } else {
            (b as i64 - a as i64) as u64
        };
        proof {
            assert(d as int == abs_diff(a as int, b as int));
            assert(d <= 0xFFFF_FFFF);
            assert(sl.skip(i as int).drop_first() =~= sl.skip(i as int + 1));
            assert(sr.skip(i as int).drop_first() =~= sr.skip(i as int + 1));
            assert(sum_abs(sl.skip(i as int), sr.skip(i as int)) == abs_diff(
                sl[i as int] as int,
                sr[i as int] as int,
            ) + sum_abs(sl.skip(i as int + 1), sr.skip(i as int + 1)));
            assert(i as int + 1 <= 0x1_0000_0000_0000_0000);
            assert((i as int + 1) * 0xFFFF_FFFF <= 0x1_0000_0000_0000_0000 * 0xFFFF_FFFF)
                by (nonlinear_arith)
                requires
                    i as int + 1 <= 0x1_0000_0000_0000_0000,
            ;
        }
        total = total + (d as u128);
        i = i + 1;
    }
    proof {
        assert(sl.skip(n as int) =~= Seq::<i32>::empty());
        assert(sr.skip(n as int) =~= Seq::<i32>::empty());
    }
    total
}

/// Two line files that are permutations of one another yield
/// permutation-equal pair lists.
pub proof fn lemma_pairs_i32_permutation(a: Seq<Seq<u8>>, b: Seq<Seq<u8>>)
    requires
        a.to_multiset() == b.to_multiset(),
    ensures
        spec_pairs_i32(a).to_multiset() == spec_pairs_i32(b).to_multiset(),
    decreases a.len(),
{
    broadcast use group_to_multiset_ensures;
    broadcast use vstd::multiset::group_multiset_axioms;

    if a.len() == 0 {
        assert(a.to_multiset().len() == 0);
        assert(b.len() == 0);
    } else {
        let x = a.last();
        let a2 = a.drop_last();
        assert(a.contains(x));
        assert(b.to_multiset().count(x) > 0);
        assert(b.contains(x));
        let j = choose|j: int| 0 <= j < b.len() && b[j] == x;
        let b2 = b.remove(j);
        assert(b2.to_multiset() =~= b.to_multiset().remove(x));
        assert(a =~= a2.push(x));
        assert(a.to_multiset() =~= a2.to_multiset().insert(x));
        assert(a2.to_multiset() =~= b2.to_multiset());
        lemma_pairs_i32_permutation(a2, b2);
        assert(b2 =~= b.take(j) + b.skip(j + 1));
        assert(b =~= b.take(j) + (seq![x] + b.skip(j + 1)));
        lemma_pairs_i32_concat(b.take(j), seq![x] + b.skip(j + 1));
        lemma_pairs_i32_concat(seq![x], b.skip(j + 1));
        lemma_pairs_i32_concat(b.take(j), b.skip(j + 1));
        lemma_multiset_commutative(spec_pairs_i32(b.take(j)), spec_pairs_i32(
            seq![x] + b.skip(j + 1),
        ));
        lemma_multiset_commutative(spec_pairs_i32(seq![x]), spec_pairs_i32(b.skip(j + 1)));
        lemma_multiset_commutative(spec_pairs_i32(b.take(j)), spec_pairs_i32(b.skip(j + 1)));
        assert(spec_pairs_i32(seq![x]).to_multiset() =~= match spec_parse_pair_i32(x) {
            Some(p) => Multiset::<(i32, i32)>::empty().insert(p),
            None => Multiset::<(i32, i32)>::empty(),
        }) by {
            assert(seq![x].drop_last() =~= Seq::<Seq<u8>>::empty());
            assert(spec_pairs_i32(Seq::<Seq<u8>>::empty()) == Seq::<(i32, i32)>::empty());
            match spec_parse_pair_i32(x) {
                Some(p) => {
                    assert(spec_pairs_i32(seq![x]) == Seq::<(i32, i32)>::empty().push(p));
                },
                None => {},
            }
        }
        assert(spec_pairs_i32(a) == match spec_parse_pair_i32(x) {
            Some(p) => spec_pairs_i32(a2).push(p),
            None => spec_pairs_i32(a2),
        });
        assert(spec_pairs_i32(a).to_multiset() =~= spec_pairs_i32(b).to_multiset());
    }
}

/// Mapping two permutation-equal sequences gives permutation-equal images.
pub proof fn lemma_map_values_multiset<A, B>(s: Seq<A>, t: Seq<A>, f: spec_fn(A) -> B)
    requires
        s.to_multiset() == t.to_multiset(),
    ensures
        s.map_values(f).to_multiset() == t.map_values(f).to_multiset(),
    decreases s.len(),
{
    broadcast use group_to_multiset_ensures;
    broadcast use vstd::multiset::group_multiset_axioms;

    if s.len() == 0 {
        assert(s.to_multiset().len() == 0);
        assert(t.len() == 0);
        assert(s.map_values(f) =~= Seq::<B>::empty());
        assert(t.map_values(f) =~= Seq::<B>::empty());
    } else {
        let x = s.last();
        let s2 = s.drop_last();
        assert(s.contains(x));
        assert(t.to_multiset().count(x) > 0);
        assert(t.contains(x));
        let j = choose|j: int| 0 <= j < t.len() && t[j] == x;
        let t2 = t.remove(j);
        assert(t2.to_multiset() =~= t.to_multiset().remove(x));
        assert(s =~= s2.push(x));
        assert(s.to_multiset() =~= s2.to_multiset().insert(x));
        assert(s2.to_multiset() =~= t2.to_multiset());
        lemma_map_values_multiset(s2, t2, f);
        assert(s.map_values(f) =~= s2.map_values(f).push(f(x)));
        assert(s.map_values(f).to_multiset() =~= s2.map_values(f).to_multiset().insert(f(x)));
        assert(t2.map_values(f) =~= t.map_values(f).remove(j));
        assert(t.map_values(f)[j] == f(x));
        assert(t.map_values(f).remove(j).to_multiset() =~= t.map_values(f).to_multiset().remove(
            f(x),
        ));
        assert(t.map_values(f).contains(f(x))) by {
            assert(t.map_values(f)[j] == f(x));
        }
        assert(t.map_values(f).to_multiset().count(f(x)) > 0);
        assert(s.map_values(f).to_multiset() =~= t.map_values(f).to_multiset());
    }
}

/// The distance does not depend on the order of the input lines: any
/// permutation of them yields the same distance.
pub proof fn lemma_distance_permutation(x: Seq<u8>, y: Seq<u8>)
    requires
        spec_lines(x).to_multiset() == spec_lines(y).to_multiset(),
    ensures
        spec_distance(x) == spec_distance(y),
{
    let pa = spec_pairs_i32(spec_lines(x));
    let pb = spec_pairs_i32(spec_lines(y));
    lemma_pairs_i32_permutation(spec_lines(x), spec_lines(y));
    lemma_map_values_multiset(pa, pb, fst());
    lemma_map_values_multiset(pa, pb, snd());
    lemma_i32_le_total();
    left_col(pa).lemma_sort_by_ensures(i32_le());
    left_col(pb).lemma_sort_by_ensures(i32_le());
    lemma_sorted_unique(spec_sort_i32(left_col(pa)), spec_sort_i32(left_col(pb)), i32_le());
    right_col(pa).lemma_sort_by_ensures(i32_le());
    right_col(pb).lemma_sort_by_ensures(i32_le());
    lemma_sorted_unique(spec_sort_i32(right_col(pa)), spec_sort_i32(right_col(pb)), i32_le());
}

/// The distance of a column to itself is zero.
pub proof fn lemma_sum_abs_same(s: Seq<i32>)
    ensures
        sum_abs(s, s) == 0,
    decreases s.len(),
{
    if s.len() > 0 {
        lemma_sum_abs_same(s.drop_first());
    }
}

/// A file whose every pair holds twice the same value has distance zero.
pub proof fn lemma_distance_identical(input: Seq<u8>)
    requires
        forall|i: int|
            0 <= i < spec_pairs_i32(spec_lines(input)).len() ==> (#[trigger] spec_pairs_i32(
                spec_lines(input),
            )[i]).0 == spec_pairs_i32(spec_lines(input))[i].1,
    ensures
        spec_distance(input) == 0,
{
    let ps = spec_pairs_i32(spec_lines(input));
    assert(left_col(ps) =~= right_col(ps));
    lemma_sum_abs_same(spec_sort_i32(left_col(ps)));
}

} // verus!
