//! Combinatorial core of a bispectrum estimator for fields expanded in
//! spherical harmonics.
//!
//! Everything here is integer logic: which degree triples couple, where a
//! mode sits in a flat coefficient buffer, which order triples pass the
//! selection rules, and in which sequence an estimator visits them. The
//! amplitudes themselves never enter; callers bring their own sample type.

pub mod triangle;
pub mod coupling;
pub mod orders;
pub mod estimator;
pub mod mode_index;
pub mod batch;
pub mod samples;
