//! Probability masses as fixed-point integers: sums and prefix sums of a row
//! of weights, the arithmetic backbone of the sampler's multinomial pick and
//! of top-p nucleus clamping.

use vstd::prelude::*;

verus! {

/// Sum of all weights in `s`, as an unbounded integer.
pub open spec fn total_mass(s: Seq<u32>) -> int
    decreases s.len(),
{
    if s.len() == 0 {
        0
    } else {
        total_mass(s.drop_last()) + s.last()
    }
}

/// Sum of the first `k` weights of `s`.
pub open spec fn prefix_mass(s: Seq<u32>, k: int) -> int {
    total_mass(s.take(k))
}

pub proof fn lemma_total_mass_nonneg(s: Seq<u32>)
    ensures
        total_mass(s) >= 0,
    decreases s.len(),
{
    if s.len() > 0 {
        lemma_total_mass_nonneg(s.drop_last());
    }
}

/// Each weight is a `u32`, so the total is at most `len * u32::MAX`.
pub proof fn lemma_total_mass_bound(s: Seq<u32>)
    ensures
        total_mass(s) <= s.len() * (u32::MAX as int),
    decreases s.len(),
{
    if s.len() > 0 {
        lemma_total_mass_bound(s.drop_last());
        assert(s.drop_last().len() * (u32::MAX as int) + (u32::MAX as int) == s.len() * (
        u32::MAX as int)) by (nonlinear_arith)
            requires
                s.len() >= 1 && s.drop_last().len() == s.len() - 1,
        ;
    }
}

/// Extending a prefix by one element adds that element's weight.
pub proof fn lemma_prefix_mass_step(s: Seq<u32>, k: int)
    requires
        0 <= k < s.len(),
    ensures
        prefix_mass(s, k + 1) == prefix_mass(s, k) + s[k],
{
    assert(s.take(k + 1).drop_last() =~= s.take(k));
    assert(s.take(k + 1).last() == s[k]);
}

/// The full prefix is the total.
pub proof fn lemma_prefix_mass_total(s: Seq<u32>)
    ensures
        prefix_mass(s, s.len() as int) == total_mass(s),
{
    assert(s.take(s.len() as int) =~= s);
}

pub proof fn lemma_prefix_mass_nonneg(s: Seq<u32>, k: int)
    ensures
        prefix_mass(s, k) >= 0,
{
    lemma_total_mass_nonneg(s.take(k));
}

/// The total dominates every single weight.
pub proof fn lemma_total_mass_ge_elem(s: Seq<u32>, x: int)
    requires
        0 <= x < s.len(),
    ensures
        total_mass(s) >= s[x],
{
    lemma_prefix_mass_step(s, x);
    lemma_prefix_mass_nonneg(s, x);
    lemma_prefix_mass_monotone(s, x + 1, s.len() as int);
    lemma_prefix_mass_total(s);
}

/// A row of zero weights has zero total mass.
pub proof fn lemma_total_mass_zero(s: Seq<u32>)
    requires
        forall|j: int| 0 <= j < s.len() ==> s[j] == 0,
    ensures
        total_mass(s) == 0,
    decreases s.len(),
{
    if s.len() > 0 {
        lemma_total_mass_zero(s.drop_last());
    }
}

/// Prefix masses grow with the prefix.
pub proof fn lemma_prefix_mass_monotone(s: Seq<u32>, a: int, b: int)
    requires
        0 <= a <= b <= s.len(),
    ensures
        prefix_mass(s, a) <= prefix_mass(s, b),
    decreases b - a,
{
    if a < b {
        lemma_prefix_mass_step(s, b - 1);
        lemma_prefix_mass_monotone(s, a, b - 1);
    }
}

} // verus!
