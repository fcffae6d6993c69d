//! Verified core of the stage-two assessment pipeline for distribution
//! transformers: ordering of identifiers, indexing of feeder load profiles,
//! per-transformer classification rules, work partitioning and grouping of
//! result records by substation.

pub mod assoc;
pub mod order;
pub mod pattern;
pub mod feeder;
pub mod transformer;
pub mod group;
pub mod chunk;
pub mod plan;
