//! The tunable values of a routing job.

use vstd::prelude::*;
use crate::astar::AStarSettings;
use crate::fixed_point::FixedPoint;
use crate::grid::{valid_stride, STRIDE_LIMIT};

verus! {

/// The whole-number settings of a routing job.
#[derive(Debug, Clone, Copy)]
pub struct Hyperparameters {
    pub use_bayesian: bool,
    pub astar_max_expansions: usize,
    pub astar_stride: FixedPoint,
    pub max_generation_attempts: usize,
    pub second_iteration_num_traces: usize,
    pub via_cost: FixedPoint,
    pub num_top_ranked_to_try: usize,
    pub sample_iterations: usize,
    pub update_proba_skip_stride: usize,
    pub max_rewrites: usize,
}

/// A stride made even: an odd tick count is raised by one tick.
pub open spec fn evened(bits: int) -> int {
    if bits % 2 != 0 {
        bits + 1
    } else {
        bits
    }
}

/// The stride to search with for a stride asked for: the next even tick
/// count at or above it.
pub fn astar_stride_from_raw(raw_stride: FixedPoint) -> (r: FixedPoint)
    requires
        raw_stride@ < i32::MAX,
    ensures
        r@ == evened(raw_stride@),
        r@ % 2 == 0,
{
    if raw_stride.bits % 2 != 0 {
        FixedPoint::from_bits(raw_stride.bits + 1)
    } else {
        raw_stride
    }
}

impl Hyperparameters {
    /// Whether every setting is within its range.
    pub open spec fn valid(&self) -> bool {
        &&& self.astar_max_expansions >= 1
        &&& valid_stride(self.astar_stride@)
        &&& self.max_generation_attempts >= 1
        &&& self.second_iteration_num_traces >= 1
        &&& self.via_cost@ >= 0
        &&& self.num_top_ranked_to_try >= 1
        &&& 1 <= self.sample_iterations <= 2
        &&& self.update_proba_skip_stride >= 1
    }

    /// The recommended settings: the guided solver, 3000 expansions, a
    /// stride of one unit, four rounds, three candidates in the second
    /// iteration, a via cost of five units, three candidates to try, two
    /// sample iterations, a refresh every second node, and ten thousand
    /// rewrites.
    pub fn recommended() -> (r: Hyperparameters)
        ensures
            r.valid(),
            r.use_bayesian,
            r.astar_max_expansions == 3000,
            r.astar_stride@ == 65536,
            r.max_generation_attempts == 4,
            r.second_iteration_num_traces == 3,
            r.via_cost@ == 5 * 65536,
            r.num_top_ranked_to_try == 3,
            r.sample_iterations == 2,
            r.update_proba_skip_stride == 2,
            r.max_rewrites == 10000,
    {
        Hyperparameters {
            use_bayesian: true,
            astar_max_expansions: 3000,
            astar_stride: FixedPoint::from_bits(65536),
            max_generation_attempts: 4,
            second_iteration_num_traces: 3,
            via_cost: FixedPoint::from_bits(5 * 65536),
            num_top_ranked_to_try: 3,
            sample_iterations: 2,
            update_proba_skip_stride: 2,
            max_rewrites: 10000,
        }
    }

    /// Whether every setting is within its range.
    pub fn is_valid(&self) -> (r: bool)
        ensures
            r == self.valid(),
    {
        self.astar_max_expansions >= 1 && self.astar_stride.bits > 0 && self.astar_stride.bits
            <= STRIDE_LIMIT && self.astar_stride.bits % 2 == 0 && self.max_generation_attempts >= 1
            && self.second_iteration_num_traces >= 1 && self.via_cost.bits >= 0
            && self.num_top_ranked_to_try >= 1 && 1 <= self.sample_iterations
            && self.sample_iterations <= 2 && self.update_proba_skip_stride >= 1
    }

    /// The settings of one search.
    pub fn astar_settings(&self) -> (r: AStarSettings)
        ensures
            r.astar_stride == self.astar_stride,
            r.astar_max_expansions == self.astar_max_expansions,
            r.via_cost == self.via_cost,
            r.max_rewrites == self.max_rewrites,
    {
        AStarSettings {
            astar_stride: self.astar_stride,
            astar_max_expansions: self.astar_max_expansions,
            via_cost: self.via_cost,
            max_rewrites: self.max_rewrites,
        }
    }
}

} // verus!
