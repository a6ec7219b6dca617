//! Verified core of the sismokaos seismic preprocessing and feature pipeline.
//!
//! The numerical work (filtering, spectra, chaos estimators) happens on
//! floating-point samples outside this crate; what lives here is the
//! bookkeeping that decides which samples go where: gap structure and the
//! interpolation mask, decimation alignment, window scheduling, the flat
//! binary sample layout, channel identification and progress reporting.

pub mod text;
pub mod events;
pub mod components;
pub mod gaps;
pub mod decimation;
pub mod windows;
pub mod rawbin;
pub mod blocks;
pub mod schema;
pub mod cache;
