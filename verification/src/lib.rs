//! Verified core of the CapGlyph watermark stack.
pub mod bch;
pub mod bits;
pub mod c2pa;
pub mod carrier;
pub mod carrier_integration;
pub mod cli;
pub mod conformance;
pub mod crypto;
pub mod ecc;
pub mod framing;
pub mod geometry;
pub mod interleave;
pub mod keying;
pub mod ladder;
pub mod learned;
pub mod models;
pub mod octets;
pub mod placement;
pub mod pointer;
pub mod prng;
pub mod raster;
pub mod registration;
pub mod service;
pub mod spread_spectrum;
pub mod text;
pub mod word_bits;
