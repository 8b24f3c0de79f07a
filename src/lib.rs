//! Peptide identification logic for tandem mass spectrometry searches.
//!
//! Masses are integers in micro-daltons throughout. The modules, leaves first:
//! residue alphabet and masses, in-silico digestion and decoys, the peptide
//! table, fragment ions and the bucketed fragment index, spectrum peak
//! picking and deisotoping, candidate scoring steps, the integer part of the
//! retention-time embedding, target-decoy q-values, search settings and
//! per-file bookkeeping.

pub mod residue;
pub mod mass;
pub mod digest;
pub mod peptide;
pub mod fragment;
pub mod index;
pub mod spectrum;
pub mod scoring;
pub mod retention;
pub mod qvalue;
pub mod config;
pub mod pipeline;
