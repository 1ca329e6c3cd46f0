//! The pair of unsigned values read from one input line, and its
//! lexicographic order.

use vstd::prelude::*;

verus! {

use vstd::relations::total_ordering;

/// Two unsigned integers read from one input line, compared
/// lexicographically: first element primary, second element secondary.
#[derive(PartialEq, Eq, Structural, Clone, Copy, Debug)]
pub struct Pair {
    pub a: u32,
    pub b: u32,
}

/// Lexicographic "less or equal" on pairs.
pub open spec fn pair_le(x: Pair, y: Pair) -> bool {
    x.a < y.a || (x.a == y.a && x.b <= y.b)
}

/// The same order packaged as a function value, for `Seq::sort_by`.
pub open spec fn pair_leq() -> spec_fn(Pair, Pair) -> bool {
    |x: Pair, y: Pair| pair_le(x, y)
}

/// The lexicographic order on pairs is a total order.
pub proof fn lemma_pair_le_total()
    ensures
        total_ordering(pair_leq()),
{
}

/// Executable comparison, equal to the specification order.
pub fn pair_le_exec(x: &Pair, y: &Pair) -> (r: bool)
    ensures
        r == pair_le(*x, *y),
{
    x.a < y.a || (x.a == y.a && x.b <= y.b)
}

} // verus!
