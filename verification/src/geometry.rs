//! Geometry-analysis parameters and wavelet band selection.
use vstd::prelude::*;

verus! {

/// Parameters of the geometry analysis recorded in a geometry file.
pub struct AnalysisParams {
    pub detail: u8,
    pub min_path_len: usize,
    pub chaikin_iters: usize,
    pub color: bool,
}

/// Geometry extraction parameters for embedding.
pub struct GeometryParams {
    pub detail: u8,
    pub min_path_len: usize,
    pub chaikin_iters: usize,
    pub color: bool,
    pub recipient_id: Option<String>,
}

/// Wavelet sub-band selection for embedding.
#[derive(Debug, Clone, Copy, PartialEq, Eq, Structural)]
pub enum WaveletBand {
    /// Low-low: coarse approximation (most robust, most visible).
    LL,
    /// Low-high: horizontal edges.
    LH,
    /// High-low: vertical edges.
    HL,
    /// High-high: diagonal details (most invisible, most fragile).
    HH,
}

} // verus!
