//! Nucleotide sequence sketching: canonical k-mer extraction, an avalanche
//! hash mix and fractional downsampling, with a 64-lane and a scalar
//! extraction path that are proved to agree.
pub mod fastx;
pub mod kmers;
pub mod kmers_simd;
pub mod kmers_utils;
pub mod kmers_vanilla;
pub mod laws;
pub mod model;
