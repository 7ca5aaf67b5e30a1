//! Repetition penalty over fixed-point logits: for each batch row whose
//! penalty is neither zero nor one, every distinct token already in the
//! row's context has its logit divided by the penalty when nonnegative and
//! multiplied by it when negative, signs preserved. Rows are independent
//! and the input is not mutated.

use vstd::prelude::*;

use vstd::arithmetic::div_mod::lemma_div_is_ordered;
use vstd::arithmetic::div_mod::lemma_div_is_ordered_by_denominator;
use vstd::arithmetic::div_mod::lemma_div_multiples_vanish;
use vstd::arithmetic::mul::lemma_mul_inequality;

use crate::sampling::LogitsProcessor;
use crate::sampling::SCALE_ONE;

verus! {

/// Largest logit magnitude the penalty arithmetic admits; about 6.7e7 as a
/// real value at the `SCALE_ONE` scale.
pub const LOGIT_LIMIT: i64 = 0x400000000000;

/// Largest admissible penalty; about 1.3e5 as a real value.
pub const PEN_LIMIT: u64 = 0x2000000000;

/// Smallest admissible nonzero penalty; about 1e-3 as a real value.
pub const PEN_MIN: u64 = 1024;

/// The penalised value of one logit: divided by the penalty when
/// nonnegative, multiplied by it when negative, in fixed-point arithmetic
/// truncated toward zero.
pub open spec fn spec_penalize(l: int, pen: int) -> int {
    if l >= 0 {
        (l * SCALE_ONE) / pen
    } else {
        -(((-l) * pen) / (SCALE_ONE as int))
    }
}

/// The value row entry `t` takes after the penalty pass: penalised exactly
/// when the row's penalty is neither zero nor one, the context holds more
/// than one token, and token `t` occurs in it.
pub open spec fn spec_row_penalized(
    logits: Seq<i64>,
    pen: int,
    context: Seq<u32>,
    t: int,
) -> int {
    if pen != 0 && pen != SCALE_ONE && context.len() > 1 && context.contains(t as u32) {
        spec_penalize(logits[t] as int, pen)
    } else {
        logits[t] as int
    }
}

/// Linear scan for a token in a context row.
fn contains_token(context: &Vec<u32>, x: u32) -> (r: bool)
    ensures
        r == context@.contains(x),
{
    let n = context.len();
    let mut i: usize = 0;
    while i < n
        invariant
            i <= n,
            n == context@.len(),
            forall|j: int| 0 <= j < i ==> context@[j] != x,
        decreases n - i,
    {
        if context[i] == x {
            return true;
        }
        i = i + 1;
    }
    false
}

/// One penalised logit, exactly `spec_penalize`.
fn penalize(l: i64, pen: u64) -> (r: i64)
    requires
        -LOGIT_LIMIT <= l <= LOGIT_LIMIT,
        PEN_MIN <= pen <= PEN_LIMIT,
    ensures
        r == spec_penalize(l as int, pen as int),
{
    if l >= 0 {
        proof {
            assert((l as u128) * (SCALE_ONE as u128) <= 0x400000000000u128 * 0x100000u128)
                by (nonlinear_arith)
                requires
                    l as u128 <= 0x400000000000u128,
            ;
        }
        let num: u128 = (l as u128) * (SCALE_ONE as u128);
        let q: u128 = num / (pen as u128);
        proof {
            lemma_div_is_ordered_by_denominator(num as int, PEN_MIN as int, pen as int);
            lemma_div_is_ordered(num as int, 0x40000000000000000 as int, PEN_MIN as int);
        }
        q as i64
    } else {
        let neg: u128 = (-(l as i128)) as u128;
        proof {
            assert(neg * (pen as u128) <= 0x400000000000u128 * 0x2000000000u128)
                by (nonlinear_arith)
                requires
                    neg <= 0x400000000000u128,
                    pen as u128 <= 0x2000000000u128,
            ;
        }
        let mag: u128 = neg * (pen as u128);
        let q: u128 = mag / (SCALE_ONE as u128);
        proof {
            lemma_div_is_ordered(mag as int, 0x800000000000000000000 as int, SCALE_ONE as int);
        }
        (-(q as i128)) as i64
    }
}

/// One batch row after the penalty pass.
pub fn penalize_row(logits: &Vec<i64>, penalty: u64, context: &Vec<u32>) -> (r: Vec<i64>)
    requires
        logits@.len() <= u32::MAX,
        forall|t: int| 0 <= t < logits@.len() ==> -LOGIT_LIMIT <= #[trigger] logits@[t]
            <= LOGIT_LIMIT,
        penalty == 0 || (PEN_MIN <= penalty <= PEN_LIMIT),
    ensures
        r@.len() == logits@.len(),
        forall|t: int|
            0 <= t < logits@.len() ==> #[trigger] r@[t] == spec_row_penalized(
                logits@,
                penalty as int,
                context@,
                t,
            ),
{
    let n = logits.len();
    let active = penalty != 0 && penalty != (SCALE_ONE as u64) && context.len() > 1;
    let mut r: Vec<i64> = Vec::new();
    let mut t: usize = 0;
    while t < n
        invariant
            t <= n,
            n == logits@.len(),
            n <= u32::MAX,
            forall|q: int| 0 <= q < n ==> -LOGIT_LIMIT <= #[trigger] logits@[q] <= LOGIT_LIMIT,
            penalty == 0 || (PEN_MIN <= penalty <= PEN_LIMIT),
            active == (penalty != 0 && penalty != SCALE_ONE && context@.len() > 1),
            r@.len() == t,
            forall|q: int|
                0 <= q < t ==> #[trigger] r@[q] == spec_row_penalized(
                    logits@,
                    penalty as int,
                    context@,
                    q,
                ),
        decreases n - t,
    {
        if active && contains_token(context, t as u32) {
            r.push(penalize(logits[t], penalty));
        } else {
            r.push(logits[t]);
        }
        t = t + 1;
    }
    r
}

impl LogitsProcessor {
    /// The whole batch after the penalty pass: each row of `logits` is
    /// rewritten by `penalize_row` with its own penalty and context; the
    /// input rows are left as they are.
    pub fn apply_batch_repeat_penalty(
        &self,
        logits: &Vec<Vec<i64>>,
        penalties: &Vec<u64>,
        context: &Vec<Vec<u32>>,
    ) -> (r: Vec<Vec<i64>>)
        requires
            penalties@.len() == logits@.len(),
            context@.len() == logits@.len(),
            forall|b: int|
                0 <= b < logits@.len() ==> (#[trigger] logits@[b])@.len() <= u32::MAX,
            forall|b: int, t: int|
                0 <= b < logits@.len() && 0 <= t < logits@[b]@.len() ==> -LOGIT_LIMIT
                    <= #[trigger] logits@[b]@[t] <= LOGIT_LIMIT,
            forall|b: int|
                0 <= b < logits@.len() ==> #[trigger] penalties@[b] == 0 || (PEN_MIN
                    <= penalties@[b] <= PEN_LIMIT),
        ensures
            r@.len() == logits@.len(),
            forall|b: int|
                0 <= b < logits@.len() ==> (#[trigger] r@[b])@.len() == logits@[b]@.len(),
            forall|b: int, t: int|
                0 <= b < logits@.len() && 0 <= t < logits@[b]@.len() ==> #[trigger] r@[b]@[t]
                    == spec_row_penalized(
                    logits@[b]@,
                    penalties@[b] as int,
                    context@[b]@,
                    t,
                ),
    {
        let batch = logits.len();
        let mut r: Vec<Vec<i64>> = Vec::new();
        let mut b: usize = 0;
        while b < batch
            invariant
                b <= batch,
                batch == logits@.len(),
                penalties@.len() == logits@.len(),
                context@.len() == logits@.len(),
                forall|q: int|
                    0 <= q < batch ==> (#[trigger] logits@[q])@.len() <= u32::MAX,
                forall|q: int, t: int|
                    0 <= q < batch && 0 <= t < logits@[q]@.len() ==> -LOGIT_LIMIT
                        <= #[trigger] logits@[q]@[t] <= LOGIT_LIMIT,
                forall|q: int|
                    0 <= q < batch ==> #[trigger] penalties@[q] == 0 || (PEN_MIN <= penalties@[q]
                        <= PEN_LIMIT),
                r@.len() == b,
                forall|q: int|
                    0 <= q < b ==> (#[trigger] r@[q])@.len() == logits@[q]@.len(),
                forall|q: int, t: int|
                    0 <= q < b && 0 <= t < logits@[q]@.len() ==> #[trigger] r@[q]@[t]
                        == spec_row_penalized(
                        logits@[q]@,
                        penalties@[q] as int,
                        context@[q]@,
                        t,
                    ),
            decreases batch - b,
        {
            let row = penalize_row(&logits[b], penalties[b], &context[b]);
            r.push(row);
            b = b + 1;
        }
        r
    }
}

/// For a penalty above one, the penalty never raises a logit: a divided
/// nonnegative logit shrinks and a multiplied negative logit sinks. Softmax
/// is order-preserving, so after it the probability of a penalised context
/// token is at most what it would have been without the penalty.
pub proof fn lemma_penalty_monotone(l: int, pen: int)
    requires
        pen > SCALE_ONE,
    ensures
        spec_penalize(l, pen) <= l,
{
    if l >= 0 {
        assert(l * SCALE_ONE >= 0) by (nonlinear_arith)
            requires
                l >= 0,
        ;
        lemma_div_is_ordered_by_denominator(l * SCALE_ONE, SCALE_ONE as int, pen);
        lemma_div_multiples_vanish(l, SCALE_ONE as int);
        assert(l * SCALE_ONE == (SCALE_ONE as int) * l) by (nonlinear_arith);
    } else {
        lemma_mul_inequality(SCALE_ONE as int, pen, -l);
        lemma_div_is_ordered((-l) * SCALE_ONE, (-l) * pen, SCALE_ONE as int);
        lemma_div_multiples_vanish(-l, SCALE_ONE as int);
        assert((-l) * SCALE_ONE == (SCALE_ONE as int) * (-l)) by (nonlinear_arith);
        assert((SCALE_ONE as int) * (-l) == (-l) * (SCALE_ONE as int)) by (nonlinear_arith);
    }
}

} // verus!
