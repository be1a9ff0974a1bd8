use vstd::prelude::*;

verus! {

/// Watermark placement strategy (geometry-derived or PRNG/edge baselines).
#[derive(Debug, Clone, Copy, PartialEq, Eq, Structural)]
pub enum Placement {
    /// Geometry-derived skeleton positions (default).
    Skeleton,
    /// Pseudorandom scatter (baseline / fallback).
    Prng,
    /// Edge-density (Sobel) baseline.
    Edge,
}

impl Placement {
    /// Lower-case name used on the command line and in reports.
    pub fn name(&self) -> (s: &'static str)
        ensures
            *self == Placement::Skeleton ==> s@ == "skeleton"@,
            *self == Placement::Prng ==> s@ == "prng"@,
            *self == Placement::Edge ==> s@ == "edge"@,
    {
        match self {
            Placement::Skeleton => "skeleton",
            Placement::Prng => "prng",
            Placement::Edge => "edge",
        }
    }
}

} // verus!
