//! Command-line value types shared by the library.
use vstd::prelude::*;
use crate::text::str_eq;

verus! {

/// Embedding mode.
#[derive(Debug, Clone, Copy, PartialEq, Eq, Structural)]
pub enum EmbedMode {
    /// Sparse alpha-channel signal. Fast, invisible; fragile to alpha stripping.
    Alpha,
    /// RGB DCT-domain residual. Survives PNG→JPG at quality≥50.
    Dct,
    /// Haar DWT LH-band residual. Survives scale and moderate blur.
    Dwt,
    /// Learned neural watermark; survives aggressive ordinary edits.
    Learned,
}

impl EmbedMode {
    /// Lower-case name, as shown and as accepted on the command line.
    pub fn name(&self) -> (s: &'static str)
        ensures
            *self == EmbedMode::Alpha ==> s@ == "alpha"@,
            *self == EmbedMode::Dct ==> s@ == "dct"@,
            *self == EmbedMode::Dwt ==> s@ == "dwt"@,
            *self == EmbedMode::Learned ==> s@ == "learned"@,
    {
        match self {
            EmbedMode::Alpha => "alpha",
            EmbedMode::Dct => "dct",
            EmbedMode::Dwt => "dwt",
            EmbedMode::Learned => "learned",
        }
    }
}

/// Placement strategy as given on the command line.
#[derive(Debug, Clone, Copy, PartialEq, Eq, Structural)]
pub enum PlacementStrategy {
    Skeleton,
    Prng,
    Edge,
}

impl Default for PlacementStrategy {
    fn default() -> (p: Self)
        ensures
            p == PlacementStrategy::Skeleton,
    {
        PlacementStrategy::Skeleton
    }
}

/// Wire protocol version.
#[derive(Debug, Clone, Copy, PartialEq, Eq, Structural)]
pub enum ProtocolVersion {
    V1,
    V2,
}

/// Batch operation.
#[derive(Debug, Clone, Copy, PartialEq, Eq, Structural)]
pub enum BatchOperation {
    Embed,
    Strip,
}

/// Output image format.
#[derive(Debug, Clone, Copy, PartialEq, Eq, Structural)]
pub enum OutputFormat {
    Png,
    Jpg,
}

/// Why a mode name was refused by the byte API.
#[derive(Debug, Clone, Copy, PartialEq, Eq, Structural)]
pub enum ModeError {
    /// `learned` needs the neural runtime, which the byte API does not carry.
    LearnedUnsupported,
    /// Not one of `alpha`, `dct`, `dwt`, `learned`.
    Unknown,
}

/// Map a mode name of the byte API to a mode; `learned` is refused.
pub fn parse_mode(mode: &str) -> (r: Result<EmbedMode, ModeError>)
    ensures
        mode@ == "alpha"@ ==> r == Ok::<EmbedMode, ModeError>(EmbedMode::Alpha),
        mode@ == "dct"@ ==> r == Ok::<EmbedMode, ModeError>(EmbedMode::Dct),
        mode@ == "dwt"@ ==> r == Ok::<EmbedMode, ModeError>(EmbedMode::Dwt),
        mode@ == "learned"@ ==> r == Err::<EmbedMode, ModeError>(ModeError::LearnedUnsupported),
        mode@ != "alpha"@ && mode@ != "dct"@ && mode@ != "dwt"@ && mode@ != "learned"@ ==> r
            == Err::<EmbedMode, ModeError>(ModeError::Unknown),
{
    proof {
        reveal_strlit("alpha");
        reveal_strlit("dct");
        reveal_strlit("dwt");
        reveal_strlit("learned");
        assert("dct"@[1] != "dwt"@[1]);
        assert("learned"@.len() != "alpha"@.len());
        assert("learned"@.len() != "dct"@.len());
        assert("learned"@.len() != "dwt"@.len());
    }
    if str_eq(mode, "alpha") {
        Ok(EmbedMode::Alpha)
    } else if str_eq(mode, "dct") {
        Ok(EmbedMode::Dct)
    } else if str_eq(mode, "dwt") {
        Ok(EmbedMode::Dwt)
    } else if str_eq(mode, "learned") {
        Err(ModeError::LearnedUnsupported)
    } else {
        Err(ModeError::Unknown)
    }
}

} // verus!
