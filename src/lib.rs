//! Build-impact analysis: which build variants does a source change touch?
//!
//! The library records, per source file, the line ranges that each variant
//! actually compiled, extracts changed line ranges from a diff, and decides
//! which variants a change reaches.

pub mod interval;
pub mod text;
pub mod directives;
pub mod index;
pub mod change;
pub mod report;
pub mod storage;
pub mod resolve;
pub mod fingerprint;
