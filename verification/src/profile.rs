//! Where the time of a render goes.

use crate::num::{Arithmetic, Calc, NumOp, Reading, ZERO};
use vstd::prelude::*;

verus! {

/// Milliseconds, as bits of numbers, and how many feature lines were drawn.
#[derive(Clone, Copy, Debug, PartialEq, Eq, Structural)]
pub struct BenchmarkProfile {
    pub attributed_render_ms: u64,
    pub boolean_ms: u64,
    pub partition_ms: u64,
    pub edge_derivation_ms: u64,
    pub feature_line_count: usize,
}

/// Nothing measured yet.
pub open spec fn unmeasured() -> BenchmarkProfile {
    BenchmarkProfile {
        attributed_render_ms: ZERO,
        boolean_ms: ZERO,
        partition_ms: ZERO,
        edge_derivation_ms: ZERO,
        feature_line_count: 0,
    }
}

impl Default for BenchmarkProfile {
    fn default() -> (r: Self)
        ensures
            r == unmeasured(),
    {
        BenchmarkProfile {
            attributed_render_ms: ZERO,
            boolean_ms: ZERO,
            partition_ms: ZERO,
            edge_derivation_ms: ZERO,
            feature_line_count: 0,
        }
    }
}

/// Starts over.
pub fn reset_benchmark_profile(profile: &mut BenchmarkProfile)
    ensures
        *final(profile) == unmeasured(),
{
    *profile = BenchmarkProfile::default();
}

/// What was measured; starts over.
pub fn take_benchmark_profile(profile: &mut BenchmarkProfile) -> (r: BenchmarkProfile)
    ensures
        r == *old(profile),
        *final(profile) == unmeasured(),
{
    let r = *profile;
    *profile = BenchmarkProfile::default();
    r
}

/// Adds the time of one derivation of feature lines, and their number.
pub fn record_edge_derivation<A: Arithmetic>(
    calc: &mut Calc<A>,
    profile: &mut BenchmarkProfile,
    duration_ms: u64,
    line_count: usize,
)
    requires
        old(profile).feature_line_count + line_count <= usize::MAX,
    ensures
        forall|m: Reading| #[trigger]
            final(calc).agrees(m) ==> old(calc).agrees(m) && *final(profile) == (BenchmarkProfile {
                edge_derivation_ms: m.at(
                    NumOp::Add,
                    old(profile).edge_derivation_ms,
                    duration_ms,
                ),
                feature_line_count: (old(profile).feature_line_count + line_count) as usize,
                ..*old(profile)
            }),
{
    profile.edge_derivation_ms = calc.apply(NumOp::Add, profile.edge_derivation_ms, duration_ms);
    profile.feature_line_count = profile.feature_line_count + line_count;
}

/// Adds the time of one boolean operation.
pub fn record_boolean<A: Arithmetic>(
    calc: &mut Calc<A>,
    profile: &mut BenchmarkProfile,
    duration_ms: u64,
)
    ensures
        forall|m: Reading| #[trigger]
            final(calc).agrees(m) ==> old(calc).agrees(m) && *final(profile) == (BenchmarkProfile {
                boolean_ms: m.at(NumOp::Add, old(profile).boolean_ms, duration_ms),
                ..*old(profile)
            }),
{
    profile.boolean_ms = calc.apply(NumOp::Add, profile.boolean_ms, duration_ms);
}

} // verus!
