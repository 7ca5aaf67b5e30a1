//! The logits processor: turns a batch of per-token weights into one sampled
//! token per row, by argmax, plain multinomial, top-k, top-p, or top-k
//! followed by top-p. Weights and the parameters `p` and `temperature` are
//! fixed-point integers scaled by `SCALE_ONE`; the caller produces them from
//! the model's logits (temperature division and softmax happen there, before
//! this module is reached).

use vstd::prelude::*;

use crate::mass::lemma_prefix_mass_monotone;
use crate::mass::lemma_prefix_mass_step;
use crate::mass::lemma_prefix_mass_total;
use crate::mass::lemma_total_mass_bound;
use crate::mass::lemma_total_mass_ge_elem;
use crate::mass::lemma_total_mass_nonneg;
use crate::mass::lemma_total_mass_zero;
use crate::mass::prefix_mass;
use crate::mass::total_mass;
use crate::rng::draw_below;
use crate::rng::rng_from_seed;
use crate::sort::is_desc_perm;
use crate::sort::lemma_desc_perm_onto;
use crate::sort::sort_desc_indices;

verus! {

/// Fixed-point representation of 1.0: weights, `p` and `temperature` are
/// real values multiplied by this scale and rounded.
pub const SCALE_ONE: u32 = 1048576;

/// Index of the largest weight, lowest index on ties (the token argmax
/// picks, and the fallback when a clamped distribution has no mass left).
pub open spec fn spec_argmax(s: Seq<u32>) -> int
    decreases s.len(),
{
    if s.len() <= 1 {
        0
    } else {
        let a = spec_argmax(s.drop_last());
        if s.last() > s[a] {
            s.len() - 1
        } else {
            a
        }
    }
}

pub proof fn lemma_spec_argmax(s: Seq<u32>)
    requires
        s.len() > 0,
    ensures
        0 <= spec_argmax(s) < s.len(),
        forall|j: int| 0 <= j < s.len() ==> #[trigger] s[j] <= s[spec_argmax(s)],
        forall|j: int| 0 <= j < spec_argmax(s) ==> #[trigger] s[j] < s[spec_argmax(s)],
    decreases s.len(),
{
    if s.len() > 1 {
        lemma_spec_argmax(s.drop_last());
        assert(forall|j: int| 0 <= j < s.len() - 1 ==> s[j] == s.drop_last()[j]);
    }
}

/// A draw of `d` lands on token `i`: `d` falls inside the half-open mass
/// interval that `i`'s weight covers.
pub open spec fn is_pick(s: Seq<u32>, d: int, i: int) -> bool {
    &&& 0 <= i < s.len()
    &&& prefix_mass(s, i) <= d < prefix_mass(s, i) + s[i]
}

/// The weights of `prs` read in the order of the permutation `idx`.
pub open spec fn sorted_weights(prs: Seq<u32>, idx: Seq<usize>) -> Seq<u32> {
    Seq::new(idx.len(), |i: int| prs[idx[i] as int])
}

/// `m` is the size of the top-p nucleus over the descending weights `s`:
/// the shortest prefix whose cumulative mass reaches `p`, or all of `s`
/// when the total never reaches `p`.
pub open spec fn is_nucleus_cutoff(s: Seq<u32>, p: int, m: int) -> bool {
    &&& 0 <= m <= s.len()
    &&& (prefix_mass(s, m) >= p || m == s.len())
    &&& forall|k: int| 0 <= k < m ==> prefix_mass(s, k) < p
}

/// What a plain multinomial draw over `prs` can return: a token with
/// positive weight; on a row with no mass at all, the argmax fallback.
pub open spec fn mult_sampled(prs: Seq<u32>, tok: int) -> bool {
    if total_mass(prs) > 0 {
        0 <= tok < prs.len() && prs[tok] > 0
    } else {
        tok == spec_argmax(prs)
    }
}

/// One concrete way top-k sampling arrives at `tok`: `idx` is the
/// descending order, `j` the position drawn among its first `min(k, len)`
/// entries (`j` is zero in the no-mass argmax fallback).
pub open spec fn topk_witness(prs: Seq<u32>, k: int, tok: int, idx: Seq<usize>, j: int) -> bool {
    &&& is_desc_perm(prs, idx)
    &&& {
        let kk = if k < prs.len() {
            k
        } else {
            prs.len() as int
        };
        let sel = sorted_weights(prs, idx).take(kk);
        if total_mass(sel) > 0 {
            0 <= j < kk && sel[j] > 0 && tok == idx[j]
        } else {
            j == 0 && tok == spec_argmax(prs)
        }
    }
}

/// What top-k sampling over `prs` can return: a positive-weight token among
/// the `min(k, len)` first tokens of the descending order; argmax when
/// those have no mass.
pub open spec fn topk_sampled(prs: Seq<u32>, k: int, tok: int) -> bool {
    exists|idx: Seq<usize>, j: int| topk_witness(prs, k, tok, idx, j)
}

/// One concrete way top-p sampling arrives at `tok`: `idx` is the
/// descending order, `m` the nucleus size over it, `j` the position drawn
/// inside the nucleus (`j` is zero in the no-mass argmax fallback).
pub open spec fn topp_witness(
    prs: Seq<u32>,
    p: int,
    tok: int,
    idx: Seq<usize>,
    m: int,
    j: int,
) -> bool {
    &&& is_desc_perm(prs, idx)
    &&& is_nucleus_cutoff(sorted_weights(prs, idx), p, m)
    &&& if total_mass(prs) > 0 {
        0 <= j < m && sorted_weights(prs, idx)[j] > 0 && tok == idx[j]
    } else {
        j == 0 && tok == spec_argmax(prs)
    }
}

/// What top-p sampling over `prs` can return, for `0 < p < SCALE_ONE`:
/// a positive-weight token inside the nucleus of the descending order;
/// argmax when the row has no mass at all.
pub open spec fn topp_sampled(prs: Seq<u32>, p: int, tok: int) -> bool {
    exists|idx: Seq<usize>, m: int, j: int| topp_witness(prs, p, tok, idx, m, j)
}

/// One concrete way top-k-then-top-p sampling arrives at `tok`. Top-k keeps
/// the `min(k, len)` first tokens of the descending order `idx`; when `p`
/// is positive and below their joint mass, a nucleus of size `m` over that
/// prefix clamps it further (`m` is zero when no nucleus is formed, and `j`
/// is zero in the no-mass argmax fallback).
pub open spec fn topk_topp_witness(
    prs: Seq<u32>,
    k: int,
    p: int,
    tok: int,
    idx: Seq<usize>,
    m: int,
    j: int,
) -> bool {
    &&& is_desc_perm(prs, idx)
    &&& {
        let kk = if k < prs.len() {
            k
        } else {
            prs.len() as int
        };
        let sel = sorted_weights(prs, idx).take(kk);
        if p <= 0 || p >= total_mass(sel) {
            m == 0 && if total_mass(sel) > 0 {
                0 <= j < kk && sel[j] > 0 && tok == idx[j]
            } else {
                j == 0 && tok == spec_argmax(prs)
            }
        } else {
            is_nucleus_cutoff(sel, p, m) && 0 <= j < m && sel[j] > 0 && tok == idx[j]
        }
    }
}

/// What top-k-then-top-p sampling can return.
pub open spec fn topk_topp_sampled(prs: Seq<u32>, k: int, p: int, tok: int) -> bool {
    exists|idx: Seq<usize>, m: int, j: int| topk_topp_witness(prs, k, p, tok, idx, m, j)
}

/// Sum of the weights of a row, exact.
pub fn sum_mass(prs: &Vec<u32>) -> (r: u128)
    ensures
        r == total_mass(prs@),
{
    let n = prs.len();
    let mut total: u128 = 0;
    let mut i: usize = 0;
    proof {
        lemma_total_mass_nonneg(prs@);
        lemma_total_mass_bound(prs@);
    }
    while i < n
        invariant
            i <= n,
            n == prs@.len(),
            total == prefix_mass(prs@, i as int),
            total_mass(prs@) <= prs@.len() * (u32::MAX as int),
            prs@.len() <= usize::MAX,
        decreases n - i,
    {
        proof {
            lemma_prefix_mass_step(prs@, i as int);
            lemma_prefix_mass_monotone(prs@, i + 1, n as int);
            lemma_prefix_mass_total(prs@);
            assert(prs@.len() * (u32::MAX as int) <= usize::MAX * (u32::MAX as int))
                by (nonlinear_arith)
                requires
                    prs@.len() <= usize::MAX,
            ;
        }
        total = total + (prs[i] as u128);
        i = i + 1;
    }
    proof {
        lemma_prefix_mass_total(prs@);
    }
    total
}

/// Index of the largest weight, lowest index on ties.
pub fn argmax(prs: &Vec<u32>) -> (r: usize)
    requires
        prs@.len() > 0,
    ensures
        r == spec_argmax(prs@),
        r < prs@.len(),
        forall|j: int| 0 <= j < prs@.len() ==> #[trigger] prs@[j] <= prs@[r as int],
        forall|j: int| 0 <= j < r ==> #[trigger] prs@[j] < prs@[r as int],
    {
    let n = prs.len();
    let mut best: usize = 0;
    let mut i: usize = 1;
    while i < n
        invariant
            1 <= i <= n,
            n == prs@.len(),
            best < i,
            best == spec_argmax(prs@.take(i as int)),
            forall|j: int| 0 <= j < i ==> #[trigger] prs@[j] <= prs@[best as int],
            forall|j: int| 0 <= j < best ==> #[trigger] prs@[j] < prs@[best as int],
        decreases n - i,
    {
        proof {
            assert(prs@.take(i + 1).drop_last() =~= prs@.take(i as int));
            assert forall|j: int| 0 <= j < i + 1 implies prs@.take(i + 1)[j] == prs@[j] by {}
        }
        if prs[i] > prs[best] {
            best = i;
        }
        i = i + 1;
    }
    proof {
        assert(prs@.take(n as int) =~= prs@);
    }
    best
}

/// Walks the cumulative masses and returns the token whose interval holds
/// the draw `d`.
pub fn weighted_pick(prs: &Vec<u32>, d: u128) -> (r: usize)
    requires
        (d as int) < total_mass(prs@),
    ensures
        is_pick(prs@, d as int, r as int),
        prs@[r as int] > 0,
{
    let n = prs.len();
    proof {
        lemma_total_mass_nonneg(prs@);
        lemma_total_mass_bound(prs@);
        lemma_prefix_mass_total(prs@);
    }
    let mut cum: u128 = 0;
    let mut i: usize = 0;
    while i < n
        invariant
            i <= n,
            n == prs@.len(),
            cum == prefix_mass(prs@, i as int),
            cum <= d,
            (d as int) < total_mass(prs@),
            total_mass(prs@) <= prs@.len() * (u32::MAX as int),
            prs@.len() <= usize::MAX,
            prefix_mass(prs@, n as int) == total_mass(prs@),
        decreases n - i,
    {
        proof {
            lemma_prefix_mass_step(prs@, i as int);
            lemma_prefix_mass_monotone(prs@, i + 1, n as int);
            assert(prs@.len() * (u32::MAX as int) <= usize::MAX * (u32::MAX as int))
                by (nonlinear_arith)
                requires
                    prs@.len() <= usize::MAX,
            ;
        }
        let w = prs[i] as u128;
        if d < cum + w {
            return i;
        }
        cum = cum + w;
        i = i + 1;
    }
    proof {
        assert(false);
    }
    0
}

/// The weights of `prs` read through the index list `idx`, as a vector:
/// the executable counterpart of `sorted_weights`.
pub fn gather_weights(prs: &Vec<u32>, idx: &Vec<usize>, upto: usize) -> (r: Vec<u32>)
    requires
        upto <= idx@.len(),
        forall|i: int| 0 <= i < idx@.len() ==> (#[trigger] idx@[i]) < prs@.len(),
    ensures
        r@ =~= sorted_weights(prs@, idx@).take(upto as int),
{
    let mut r: Vec<u32> = Vec::new();
    let mut i: usize = 0;
    while i < upto
        invariant
            i <= upto,
            upto <= idx@.len(),
            forall|q: int| 0 <= q < idx@.len() ==> (#[trigger] idx@[q]) < prs@.len(),
            r@.len() == i,
            forall|q: int| 0 <= q < i ==> #[trigger] r@[q] == prs@[idx@[q] as int],
        decreases upto - i,
    {
        r.push(prs[idx[i]]);
        i = i + 1;
    }
    r
}

/// Number of descending weights the top-p nucleus keeps: scans the
/// cumulative mass and stops the first time it reaches `p`.
pub fn nucleus_cutoff(sorted: &Vec<u32>, p: u32) -> (m: usize)
    requires
        p > 0,
    ensures
        is_nucleus_cutoff(sorted@, p as int, m as int),
{
    let n = sorted.len();
    proof {
        lemma_total_mass_bound(sorted@);
    }
    let mut cum: u128 = 0;
    let mut i: usize = 0;
    while i < n
        invariant
            i <= n,
            n == sorted@.len(),
            cum == prefix_mass(sorted@, i as int),
            forall|k: int| 0 <= k <= i ==> prefix_mass(sorted@, k) < p,
            total_mass(sorted@) <= sorted@.len() * (u32::MAX as int),
            sorted@.len() <= usize::MAX,
        decreases n - i,
    {
        proof {
            lemma_prefix_mass_step(sorted@, i as int);
            lemma_prefix_mass_monotone(sorted@, i + 1, n as int);
            lemma_prefix_mass_total(sorted@);
            assert(sorted@.len() * (u32::MAX as int) <= usize::MAX * (u32::MAX as int))
                by (nonlinear_arith)
                requires
                    sorted@.len() <= usize::MAX,
            ;
        }
        cum = cum + (sorted[i] as u128);
        if cum >= p as u128 {
            return i + 1;
        }
        i = i + 1;
    }
    n
}

/// One multinomial draw over a row of weights; argmax of the row when it
/// has no mass at all.
fn multinomial_row(rng: &mut rand::rngs::StdRng, prs: &Vec<u32>) -> (tok: usize)
    requires
        prs@.len() > 0,
    ensures
        tok < prs@.len(),
        mult_sampled(prs@, tok as int),
{
    let total = sum_mass(prs);
    if total == 0 {
        argmax(prs)
    } else {
        let d = draw_below(rng, total);
        weighted_pick(prs, d)
    }
}

/// One top-k draw over a row: keeps the `min(k, len)` first tokens of the
/// descending order and draws among them.
fn topk_row(rng: &mut rand::rngs::StdRng, prs: &Vec<u32>, k: usize) -> (tok: usize)
    requires
        prs@.len() > 0,
    ensures
        tok < prs@.len(),
        topk_sampled(prs@, k as int, tok as int),
{
    let n = prs.len();
    let idx = sort_desc_indices(prs);
    let kk = if k < n {
        k
    } else {
        n
    };
    let sel = gather_weights(prs, &idx, kk);
    let total = sum_mass(&sel);
    if total == 0 {
        let tok = argmax(prs);
        proof {
            assert(topk_witness(prs@, k as int, tok as int, idx@, 0));
        }
        tok
    } else {
        let d = draw_below(rng, total);
        let j = weighted_pick(&sel, d);
        let tok = idx[j];
        proof {
            assert(sel@[j as int] > 0 && 0 <= j < kk && tok == idx@[j as int]);
            assert(topk_witness(prs@, k as int, tok as int, idx@, j as int));
        }
        tok
    }
}

/// One top-p draw over a row, for `0 < p`: clamps the descending order to
/// its nucleus and draws inside it; argmax of the row when the row has no
/// mass at all.
fn topp_row(rng: &mut rand::rngs::StdRng, prs: &Vec<u32>, p: u32) -> (tok: usize)
    requires
        prs@.len() > 0,
        p > 0,
    ensures
        tok < prs@.len(),
        topp_sampled(prs@, p as int, tok as int),
{
    let n = prs.len();
    let idx = sort_desc_indices(prs);
    let sorted = gather_weights(prs, &idx, n);
    proof {
        assert(sorted@ =~= sorted_weights(prs@, idx@));
    }
    let m = nucleus_cutoff(&sorted, p);
    let kept = gather_weights(prs, &idx, m);
    let total = sum_mass(&kept);
    if total == 0 {
        // The nucleus holds mass at least `p > 0` unless it is the whole
        // row; a whole row without mass is a row of zeros.
        proof {
            let sw = sorted_weights(prs@, idx@);
            lemma_prefix_mass_total(sw);
            assert(kept@ =~= sw.take(m as int));
            assert(m == n);
            assert(kept@ =~= sw);
            assert forall|t: int| 0 <= t < prs@.len() implies prs@[t] == 0 by {
                lemma_desc_perm_onto(prs@, idx@, t);
                let i = idx@.lemma_contains_to_index(t as usize);
                lemma_total_mass_ge_elem(sw, i);
            }
            lemma_total_mass_zero(prs@);
        }
        let tok = argmax(prs);
        proof {
            assert(topp_witness(prs@, p as int, tok as int, idx@, m as int, 0));
        }
        tok
    } else {
        let d = draw_below(rng, total);
        let j = weighted_pick(&kept, d);
        let tok = idx[j];
        proof {
            let sw = sorted_weights(prs@, idx@);
            assert(kept@ =~= sw.take(m as int));
            assert(sw[j as int] == kept@[j as int]);
            lemma_total_mass_ge_elem(prs@, idx@[j as int] as int);
            assert(total_mass(prs@) > 0);
            assert(0 <= j < m && sw[j as int] > 0 && tok == idx@[j as int]);
            assert(topp_witness(prs@, p as int, tok as int, idx@, m as int, j as int));
        }
        tok
    }
}

/// One top-k-then-top-p draw over a row: the top-k prefix of the descending
/// order, clamped further to its own nucleus when `p` is positive and below
/// the prefix's joint mass.
fn topk_topp_row(rng: &mut rand::rngs::StdRng, prs: &Vec<u32>, k: usize, p: u32) -> (tok: usize)
    requires
        prs@.len() > 0,
    ensures
        tok < prs@.len(),
        topk_topp_sampled(prs@, k as int, p as int, tok as int),
{
    let n = prs.len();
    let idx = sort_desc_indices(prs);
    let kk = if k < n {
        k
    } else {
        n
    };
    let sel = gather_weights(prs, &idx, kk);
    let total_sel = sum_mass(&sel);
    if p == 0 || (p as u128) >= total_sel {
        if total_sel == 0 {
            let tok = argmax(prs);
            proof {
                assert(topk_topp_witness(prs@, k as int, p as int, tok as int, idx@, 0, 0));
            }
            tok
        } else {
            let d = draw_below(rng, total_sel);
            let j = weighted_pick(&sel, d);
            let tok = idx[j];
            proof {
                assert(sel@[j as int] > 0 && 0 <= j < kk && tok == idx@[j as int]);
                assert(topk_topp_witness(prs@, k as int, p as int, tok as int, idx@, 0, j as int));
            }
            tok
        }
    } else {
        let m = nucleus_cutoff(&sel, p);
        let kept = gather_weights(prs, &idx, m);
        let total_kept = sum_mass(&kept);
        proof {
            let sw = sorted_weights(prs@, idx@);
            assert(sel@ =~= sw.take(kk as int));
            assert(kept@ =~= sw.take(m as int));
            assert(kept@ =~= sel@.take(m as int));
            lemma_prefix_mass_total(sel@);
            if m < kk {
                assert(prefix_mass(sel@, m as int) >= p);
            }
            assert(total_kept > 0);
        }
        let d = draw_below(rng, total_kept);
        let j = weighted_pick(&kept, d);
        let tok = idx[j];
        proof {
            assert(sel@[j as int] == kept@[j as int]);
            assert(is_nucleus_cutoff(sel@, p as int, m as int) && 0 <= j < m && sel@[j as int] > 0
                && tok == idx@[j as int]);
            assert(topk_topp_witness(prs@, k as int, p as int, tok as int, idx@, m as int,
                j as int));
        }
        tok
    }
}

/// What one decoded token can be, by variant: the dispatch table of
/// `LogitsProcessor::sample` for a single batch row.
pub open spec fn row_sampled(sampling: Sampling, prs: Seq<u32>, tok: int) -> bool {
    match sampling {
        Sampling::ArgMax => tok == spec_argmax(prs),
        Sampling::All { .. } => mult_sampled(prs, tok),
        Sampling::TopK { k, .. } => topk_sampled(prs, k as int, tok),
        Sampling::TopP { p, .. } => if p == 0 || p >= SCALE_ONE {
            mult_sampled(prs, tok)
        } else {
            topp_sampled(prs, p as int, tok)
        },
        Sampling::TopKThenTopP { k, p, .. } => topk_topp_sampled(prs, k as int, p as int, tok),
    }
}

/// The decoding rule of one request. `temperature` and `p` are fixed-point
/// values scaled by `SCALE_ONE`; the caller applies the temperature when it
/// turns logits into the weights handed to `sample`, the variant only
/// records it.
#[derive(Clone, PartialEq, Debug)]
pub enum Sampling {
    ArgMax,
    All { temperature: u32 },
    TopK { k: usize, temperature: u32 },
    TopP { p: u32, temperature: u32 },
    TopKThenTopP { k: usize, p: u32, temperature: u32 },
}

/// Samples one token per batch row from rows of fixed-point weights,
/// deterministically for a fixed seed: rows are drawn in ascending row
/// order from a generator seeded at construction.
pub struct LogitsProcessor {
    rng: rand::rngs::StdRng,
    pub sampling: Sampling,
}

impl LogitsProcessor {
    /// The configured decoding rule. (The struct also holds the random
    /// generator, an opaque outside type, so its fields cannot be spoken of
    /// directly outside this module.)
    pub closed spec fn spec_sampling(&self) -> Sampling {
        self.sampling
    }

    /// A processor with the given decoding rule and a generator seeded with
    /// `seed`.
    pub fn from_sampling(seed: u64, sampling: Sampling) -> (r: Self)
        ensures
            r.spec_sampling() == sampling,
    {
        let rng = rng_from_seed(seed);
        LogitsProcessor { rng, sampling }
    }

    /// The legacy constructor: no temperature (or a zero one) means argmax;
    /// otherwise plain sampling, clamped by top-p when `top_p` is given.
    pub fn new(seed: u64, temperature: Option<u32>, top_p: Option<u32>) -> (r: Self)
        ensures
            r.spec_sampling() == match temperature {
                None => Sampling::ArgMax,
                Some(t) => if t == 0 {
                    Sampling::ArgMax
                } else {
                    match top_p {
                        None => Sampling::All { temperature: t },
                        Some(p) => Sampling::TopP { p, temperature: t },
                    }
                },
            },
    {
        let sampling = match temperature {
            None => Sampling::ArgMax,
            Some(t) => {
                if t == 0 {
                    Sampling::ArgMax
                } else {
                    match top_p {
                        None => Sampling::All { temperature: t },
                        Some(p) => Sampling::TopP { p, temperature: t },
                    }
                }
            },
        };
        Self::from_sampling(seed, sampling)
    }

    /// Decodes one token per row of `probs` according to the configured
    /// variant. Rows are handled in ascending order, each consuming at most
    /// one draw from the shared generator, so a fixed seed gives a fixed
    /// trace. Rows must not be empty, and row length is capped so a token
    /// index always fits the token type.
    pub fn sample(&mut self, probs: &Vec<Vec<u32>>) -> (r: Vec<u32>)
        requires
            forall|b: int|
                0 <= b < probs@.len() ==> 0 < (#[trigger] probs@[b])@.len() <= u32::MAX,
        ensures
            final(self).spec_sampling() == old(self).spec_sampling(),
            r@.len() == probs@.len(),
            forall|b: int|
                0 <= b < probs@.len() ==> row_sampled(
                    old(self).spec_sampling(),
                    probs@[b]@,
                    #[trigger] r@[b] as int,
                ),
    {
        let batch = probs.len();
        let mut out: Vec<u32> = Vec::new();
        let mut b: usize = 0;
        while b < batch
            invariant
                b <= batch,
                batch == probs@.len(),
                self.sampling == old(self).sampling,
                forall|q: int|
                    0 <= q < probs@.len() ==> 0 < (#[trigger] probs@[q])@.len() <= u32::MAX,
                out@.len() == b,
                forall|q: int|
                    0 <= q < b ==> row_sampled(
                        old(self).sampling,
                        probs@[q]@,
                        #[trigger] out@[q] as int,
                    ),
            decreases batch - b,
        {
            let row = &probs[b];
            let tok: usize = match &self.sampling {
                Sampling::ArgMax => argmax(row),
                Sampling::All { temperature: _ } => multinomial_row(&mut self.rng, row),
                Sampling::TopK { k, temperature: _ } => topk_row(&mut self.rng, row, *k),
                Sampling::TopP { p, temperature: _ } => {
                    if *p == 0 || *p >= SCALE_ONE {
                        multinomial_row(&mut self.rng, row)
                    } else {
                        topp_row(&mut self.rng, row, *p)
                    }
                },
                Sampling::TopKThenTopP { k, p, temperature: _ } => {
                    topk_topp_row(&mut self.rng, row, *k, *p)
                },
            };
            out.push(tok as u32);
            b = b + 1;
        }
        out
    }
}


/// Top-p keeps just enough mass: the nucleus reaches `p`, and dropping its
/// smallest member (the last kept weight of the descending order) falls
/// short of `p` — the nucleus is the minimal reaching prefix.
pub proof fn lemma_top_p_mass(s: Seq<u32>, p: int, m: int)
    requires
        is_nucleus_cutoff(s, p, m),
        p > 0,
        total_mass(s) >= p,
    ensures
        prefix_mass(s, m) >= p,
        m > 0 ==> prefix_mass(s, m - 1) < p,
{
    lemma_prefix_mass_total(s);
}

/// A row peaked on a single token is decoded to that token by every
/// variant: in the zero-temperature limit, where softmax hands all mass to
/// the argmax, All, top-k and top-p all coincide with argmax.
pub proof fn lemma_peaked_row_sampling(sampling: Sampling, prs: Seq<u32>, t: int, tok: int)
    requires
        0 <= t < prs.len(),
        prs[t] > 0,
        forall|j: int| 0 <= j < prs.len() && j != t ==> prs[j] == 0,
        row_sampled(sampling, prs, tok),
    ensures
        tok == t,
{
    lemma_total_mass_ge_elem(prs, t);
    lemma_spec_argmax(prs);
    let a = spec_argmax(prs);
    assert(prs[t] <= prs[a]);
    assert(a == t);
    match sampling {
        Sampling::ArgMax => {},
        Sampling::All { .. } => {},
        Sampling::TopK { k, .. } => {
            let (idx, j) = choose|idx: Seq<usize>, j: int|
                topk_witness(prs, k as int, tok, idx, j);
            lemma_peak_take_branch(prs, t, tok, idx, j,
                if (k as int) < prs.len() { k as int } else { prs.len() as int });
        },
        Sampling::TopP { p, .. } => {
            if p == 0 || p >= SCALE_ONE {
            } else {
                let (idx, m, j) = choose|idx: Seq<usize>, m: int, j: int|
                    topp_witness(prs, p as int, tok, idx, m, j);
                assert(total_mass(prs) > 0);
                assert(sorted_weights(prs, idx)[j] > 0 && tok == idx[j]);
                assert(prs[idx[j] as int] > 0);
                assert(idx[j] == t as usize);
            }
        },
        Sampling::TopKThenTopP { k, p, .. } => {
            let (idx, m, j) = choose|idx: Seq<usize>, m: int, j: int|
                topk_topp_witness(prs, k as int, p as int, tok, idx, m, j);
            lemma_peak_take_branch(prs, t, tok, idx, j,
                if (k as int) < prs.len() { k as int } else { prs.len() as int });
        },
    }
}

/// Helper for the peaked-row law: a draw that fell on a positive weight of
/// a truncated descending order names the peak token.
proof fn lemma_peak_take_branch(
    prs: Seq<u32>,
    t: int,
    tok: int,
    idx: Seq<usize>,
    j: int,
    kk: int,
)
    requires
        0 <= t < prs.len(),
        prs[t] > 0,
        forall|q: int| 0 <= q < prs.len() && q != t ==> prs[q] == 0,
        is_desc_perm(prs, idx),
        (total_mass(sorted_weights(prs, idx).take(kk)) > 0 && 0 <= j < kk
            && sorted_weights(prs, idx).take(kk)[j] > 0 && tok == idx[j]) || tok == spec_argmax(
            prs,
        ),
        0 <= kk <= prs.len(),
    ensures
        tok == t,
{
    lemma_total_mass_ge_elem(prs, t);
    lemma_spec_argmax(prs);
    let a = spec_argmax(prs);
    assert(prs[t] <= prs[a]);
    assert(a == t);
    if !(tok == spec_argmax(prs)) {
        assert(sorted_weights(prs, idx).take(kk)[j] == prs[idx[j] as int]);
        assert(prs[idx[j] as int] > 0);
        assert(idx[j] == t as usize);
    }
}

} // verus!
