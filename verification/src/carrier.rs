//! Conversions between the command-line placement strategy and the core placement.
use vstd::prelude::*;
use crate::cli::PlacementStrategy;
use crate::placement::Placement;

verus! {

/// DCT-domain carrier (8×8 blocks).
pub struct DctCarrier;

/// Haar DWT LH-band carrier.
pub struct DwtCarrier;

/// Alpha-channel carrier.
pub struct AlphaCarrier;

/// Core placement of a command-line strategy (same variant).
pub open spec fn core_of(p: PlacementStrategy) -> Placement {
    match p {
        PlacementStrategy::Skeleton => Placement::Skeleton,
        PlacementStrategy::Prng => Placement::Prng,
        PlacementStrategy::Edge => Placement::Edge,
    }
}

/// Command-line strategy to core placement.
pub fn to_core_placement(p: &PlacementStrategy) -> (r: Placement)
    ensures
        r == core_of(*p),
{
    match p {
        PlacementStrategy::Skeleton => Placement::Skeleton,
        PlacementStrategy::Prng => Placement::Prng,
        PlacementStrategy::Edge => Placement::Edge,
    }
}

/// Core placement back to the command-line strategy.
pub fn to_cli_placement(p: &Placement) -> (r: PlacementStrategy)
    ensures
        core_of(r) == *p,
{
    match p {
        Placement::Skeleton => PlacementStrategy::Skeleton,
        Placement::Prng => PlacementStrategy::Prng,
        Placement::Edge => PlacementStrategy::Edge,
    }
}

/// The two conversions undo each other.
pub proof fn lemma_placement_roundtrip(p: PlacementStrategy, q: Placement)
    ensures
        core_of(p) == q <==> (match q {
            Placement::Skeleton => p == PlacementStrategy::Skeleton,
            Placement::Prng => p == PlacementStrategy::Prng,
            Placement::Edge => p == PlacementStrategy::Edge,
        }),
{
}

} // verus!
