use paged_core::penalty::PEN_MIN;
use paged_core::sampling::LogitsProcessor;
use paged_core::sampling::Sampling;
use paged_core::sampling::SCALE_ONE;

/// Fixed-point image of a signed real value.
fn qi(x: f32) -> i64 {
    (x * SCALE_ONE as f32).round() as i64
}

fn qp(x: f32) -> u64 {
    (x * SCALE_ONE as f32).round() as u64
}

#[test]
fn asymmetric_penalty_on_context_tokens() {
    // Penalty 2.0 over logits [1.0, 2.0, -1.0, 0.5] with context [1, 1, 2]:
    // token 1 is positive and divided, token 2 negative and multiplied,
    // tokens 0 and 3 are untouched.
    let p = LogitsProcessor::from_sampling(0, Sampling::ArgMax);
    let logits = vec![vec![qi(1.0), qi(2.0), qi(-1.0), qi(0.5)]];
    let out = p.apply_batch_repeat_penalty(&logits, &vec![qp(2.0)], &vec![vec![1, 1, 2]]);
    assert_eq!(out, vec![vec![qi(1.0), qi(1.0), qi(-2.0), qi(0.5)]]);
}

#[test]
fn penalty_of_one_or_zero_is_skipped() {
    let p = LogitsProcessor::from_sampling(0, Sampling::ArgMax);
    let logits = vec![vec![qi(1.0), qi(2.0)], vec![qi(1.0), qi(2.0)]];
    let out = p.apply_batch_repeat_penalty(
        &logits,
        &vec![qp(1.0), 0],
        &vec![vec![0, 1], vec![0, 1]],
    );
    assert_eq!(out, logits);
}

#[test]
fn single_token_context_is_skipped() {
    let p = LogitsProcessor::from_sampling(0, Sampling::ArgMax);
    let logits = vec![vec![qi(1.0), qi(2.0)]];
    let out = p.apply_batch_repeat_penalty(&logits, &vec![qp(2.0)], &vec![vec![1]]);
    assert_eq!(out, logits);
}

#[test]
fn out_of_range_context_tokens_are_ignored() {
    let p = LogitsProcessor::from_sampling(0, Sampling::ArgMax);
    let logits = vec![vec![qi(1.0), qi(2.0)]];
    let out = p.apply_batch_repeat_penalty(&logits, &vec![qp(2.0)], &vec![vec![7, 8, 9]]);
    assert_eq!(out, logits);
}

#[test]
fn penalty_above_one_never_raises_a_logit() {
    let p = LogitsProcessor::from_sampling(0, Sampling::ArgMax);
    let logits = vec![vec![qi(3.0), qi(-0.25), qi(0.0), qi(1.75)]];
    let context = vec![vec![0, 1, 2, 3]];
    let out = p.apply_batch_repeat_penalty(&logits, &vec![qp(1.5)], &context);
    for t in 0..4 {
        assert!(out[0][t] <= logits[0][t]);
    }
}

#[test]
fn penalty_below_one_boosts_context_tokens() {
    // A fractional penalty (here 0.5) raises repeated tokens instead.
    assert!(qp(0.5) >= PEN_MIN);
    let p = LogitsProcessor::from_sampling(0, Sampling::ArgMax);
    let logits = vec![vec![qi(1.0), qi(-1.0)]];
    let out = p.apply_batch_repeat_penalty(&logits, &vec![qp(0.5)], &vec![vec![0, 1]]);
    assert_eq!(out, vec![vec![qi(2.0), qi(-0.5)]]);
}
