use paged_core::sampling::argmax;
use paged_core::sampling::nucleus_cutoff;
use paged_core::sort::sort_desc_indices;
use paged_core::sampling::sum_mass;
use paged_core::sampling::weighted_pick;
use paged_core::sampling::LogitsProcessor;
use paged_core::sampling::Sampling;
use paged_core::sampling::SCALE_ONE;

/// Fixed-point image of a real value in [0, 4096).
fn q(x: f32) -> u32 {
    (x * SCALE_ONE as f32).round() as u32
}

/// Softmax of `logits / temperature`, as fixed-point weights.
fn softmax_q(logits: &[f32], temperature: f32) -> Vec<u32> {
    let scaled: Vec<f32> = logits.iter().map(|l| l / temperature).collect();
    let max = scaled.iter().cloned().fold(f32::NEG_INFINITY, f32::max);
    let exps: Vec<f32> = scaled.iter().map(|l| (l - max).exp()).collect();
    let total: f32 = exps.iter().sum();
    exps.iter().map(|e| q(e / total)).collect()
}

#[test]
fn argmax_picks_token_one() {
    let mut p = LogitsProcessor::from_sampling(0, Sampling::ArgMax);
    let probs = vec![softmax_q(&[0.1, 0.5, 0.3, 0.1], 1.0)];
    assert_eq!(p.sample(&probs), vec![1]);
}

#[test]
fn argmax_breaks_ties_by_lowest_index() {
    let mut p = LogitsProcessor::from_sampling(0, Sampling::ArgMax);
    let probs = vec![vec![3u32, 7, 7, 1]];
    assert_eq!(p.sample(&probs), vec![1]);
}

#[test]
fn top_k_two_respects_the_distribution() {
    // Top-2 over softmax([1.0, 2.0, 0.5, 3.0]) keeps tokens 3 and 1 with
    // masses softmax([3, 2]) ~ [0.731, 0.269].
    let mut p = LogitsProcessor::from_sampling(
        42,
        Sampling::TopK { k: 2, temperature: SCALE_ONE },
    );
    let probs = vec![softmax_q(&[1.0, 2.0, 0.5, 3.0], 1.0)];
    let trials = 2000;
    let mut count3 = 0;
    for _ in 0..trials {
        let tok = p.sample(&probs)[0];
        assert!(tok == 3 || tok == 1);
        if tok == 3 {
            count3 += 1;
        }
    }
    let freq3 = count3 as f32 / trials as f32;
    assert!((freq3 - 0.731).abs() < 0.05, "frequency of token 3 was {freq3}");
}

#[test]
fn top_p_on_a_peaked_distribution_is_deterministic() {
    // softmax([10, 0, 0, 0]) puts more than 0.9 of the mass on token 0, so
    // the nucleus is that token alone.
    let mut p = LogitsProcessor::from_sampling(
        5,
        Sampling::TopP { p: q(0.9), temperature: SCALE_ONE },
    );
    let probs = vec![softmax_q(&[10.0, 0.0, 0.0, 0.0], 1.0)];
    for _ in 0..100 {
        assert_eq!(p.sample(&probs), vec![0]);
    }
}

#[test]
fn fixed_seed_gives_a_fixed_trace() {
    let sampling = Sampling::All { temperature: SCALE_ONE };
    let mut p1 = LogitsProcessor::from_sampling(1234, sampling.clone());
    let mut p2 = LogitsProcessor::from_sampling(1234, sampling);
    let probs = vec![
        softmax_q(&[0.3, 1.0, 0.1, 2.0, 0.5], 1.0),
        softmax_q(&[1.5, 0.2, 0.9], 1.0),
    ];
    for _ in 0..20 {
        assert_eq!(p1.sample(&probs), p2.sample(&probs));
    }
}

#[test]
fn low_temperature_converges_to_argmax() {
    // At temperature 0.01 the softmax is one-hot on the argmax, and every
    // variant returns it.
    let logits = [1.0f32, 2.0, 0.5];
    let probs = vec![softmax_q(&logits, 0.01)];
    let variants = [
        Sampling::All { temperature: q(0.01) },
        Sampling::TopP { p: q(0.9), temperature: q(0.01) },
        Sampling::TopK { k: 2, temperature: q(0.01) },
        Sampling::TopKThenTopP { k: 2, p: q(0.9), temperature: q(0.01) },
    ];
    for sampling in variants {
        let mut p = LogitsProcessor::from_sampling(99, sampling);
        for _ in 0..20 {
            assert_eq!(p.sample(&probs), vec![1]);
        }
    }
}

#[test]
fn zero_mass_row_falls_back_to_argmax() {
    let mut p = LogitsProcessor::from_sampling(3, Sampling::All { temperature: SCALE_ONE });
    let probs = vec![vec![0u32, 0, 0]];
    assert_eq!(p.sample(&probs), vec![0]);
}

#[test]
fn top_p_at_or_above_one_behaves_as_plain_sampling() {
    // p >= 1.0 disables the nucleus: the zero-mass fallback of plain
    // sampling is reachable, which the clamped path would never hit.
    let mut p = LogitsProcessor::from_sampling(
        8,
        Sampling::TopP { p: SCALE_ONE, temperature: SCALE_ONE },
    );
    let probs = vec![vec![0u32, 0, 0, 0]];
    assert_eq!(p.sample(&probs), vec![0]);
}

#[test]
fn nucleus_mass_reaches_p_and_is_minimal() {
    let row: Vec<u32> = softmax_q(&[1.0, 2.0, 0.5, 3.0, 1.5], 1.0);
    let p = q(0.8);
    let idx = sort_desc_indices(&row);
    let sorted: Vec<u32> = idx.iter().map(|i| row[*i]).collect();
    let m = nucleus_cutoff(&sorted, p);
    assert!(m >= 1 && m <= sorted.len());
    let retained: u128 = sorted[..m].iter().map(|w| *w as u128).sum();
    assert!(retained >= p as u128);
    let without_smallest = retained - sorted[m - 1] as u128;
    assert!(without_smallest < p as u128);
}

#[test]
fn weighted_pick_walks_cumulative_masses() {
    let row: Vec<u32> = vec![2, 0, 3];
    assert_eq!(sum_mass(&row), 5);
    assert_eq!(weighted_pick(&row, 0), 0);
    assert_eq!(weighted_pick(&row, 1), 0);
    assert_eq!(weighted_pick(&row, 2), 2);
    assert_eq!(weighted_pick(&row, 3), 2);
    assert_eq!(weighted_pick(&row, 4), 2);
}

#[test]
fn argmax_function_matches_sampling() {
    let row: Vec<u32> = vec![5, 9, 9, 2];
    assert_eq!(argmax(&row), 1);
}

#[test]
fn constructor_selects_the_variant() {
    assert_eq!(LogitsProcessor::new(0, None, None).sampling, Sampling::ArgMax);
    assert_eq!(LogitsProcessor::new(0, Some(0), Some(q(0.9))).sampling, Sampling::ArgMax);
    assert_eq!(
        LogitsProcessor::new(0, Some(SCALE_ONE), None).sampling,
        Sampling::All { temperature: SCALE_ONE },
    );
    assert_eq!(
        LogitsProcessor::new(0, Some(SCALE_ONE), Some(q(0.5))).sampling,
        Sampling::TopP { p: q(0.5), temperature: SCALE_ONE },
    );
}
