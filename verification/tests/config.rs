use paged_core::config::MoEConfig;

#[test]
fn query_head_width_is_the_sum_of_both_parts() {
    let cfg = MoEConfig { qk_nope_head_dim: 128, qk_rope_head_dim: 64 };
    assert_eq!(cfg.q_head_dim(), 192);
}
