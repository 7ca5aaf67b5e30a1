//! The slice of the model configuration the attention core reads: the
//! mixture-of-experts attention splits each query head into a rotary part
//! and a non-rotary part, and the combined head width drives the shapes of
//! the attention projections.

use vstd::prelude::*;

verus! {

/// Head geometry of the mixture-of-experts attention stack.
pub struct MoEConfig {
    pub qk_nope_head_dim: usize,
    pub qk_rope_head_dim: usize,
}

impl MoEConfig {
    /// Width of one query head: its non-rotary and rotary parts together.
    pub fn q_head_dim(&self) -> (r: usize)
        requires
            self.qk_rope_head_dim + self.qk_nope_head_dim <= usize::MAX,
        ensures
            r == self.qk_rope_head_dim + self.qk_nope_head_dim,
    {
        self.qk_rope_head_dim + self.qk_nope_head_dim
    }
}

} // verus!
