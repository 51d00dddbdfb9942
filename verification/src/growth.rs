//! The footprint-growth classes a storage-growth recipe declares. The
//! growth harness itself compares floating-point ratios and lives with the
//! callers; the classes and their wire tokens are plain values.

use vstd::prelude::*;

use crate::bench::{ascending, max_of, max_sample, sorted_copy};
use crate::stats::{percentile, percentile_of};

verus! {

/// What footprint growth a recipe's author expects.
#[derive(Debug, Clone, Copy, PartialEq, Eq, Structural)]
pub enum SubMsGrowthClass {
    /// Peak footprint across rounds is capped by a byte bound.
    Bounded,
    /// The footprint stays within a constant factor of the live data.
    AmplificationBounded,
    /// The footprint plateaus: the last round is within a factor of
    /// mid-run.
    PlateauBounded,
    /// Growth is expected and unbounded by design: reported, never gated.
    UnboundedOk,
}

impl SubMsGrowthClass {
    /// The token used in the JSON `verdict.class` field.
    pub open spec fn spec_str(self) -> Seq<char> {
        match self {
            SubMsGrowthClass::Bounded => "bounded"@,
            SubMsGrowthClass::AmplificationBounded => "amplification_bounded"@,
            SubMsGrowthClass::PlateauBounded => "plateau_bounded"@,
            SubMsGrowthClass::UnboundedOk => "unbounded_ok"@,
        }
    }

    /// `bounded` / `amplification_bounded` / `plateau_bounded` /
    /// `unbounded_ok`.
    pub fn as_str(self) -> (r: &'static str)
        ensures
            r@ == self.spec_str(),
    {
        match self {
            SubMsGrowthClass::Bounded => "bounded",
            SubMsGrowthClass::AmplificationBounded => "amplification_bounded",
            SubMsGrowthClass::PlateauBounded => "plateau_bounded",
            SubMsGrowthClass::UnboundedOk => "unbounded_ok",
        }
    }
}


/// The latency figures of one growth round's samples: p50 and p99 of the
/// ascending samples, and the largest (0 for none).
pub fn round_latencies(samples: &[u64]) -> (r: (u64, u64, u64))
    ensures
        r.0 == percentile_of(ascending(samples@), 50, 100),
        r.1 == percentile_of(ascending(samples@), 99, 100),
        r.2 == max_of(samples@),
{
    let sorted = sorted_copy(samples);
    (percentile(sorted.as_slice(), 50, 100), percentile(sorted.as_slice(), 99, 100), max_sample(samples))
}

} // verus!
