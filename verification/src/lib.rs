//! Transformation passes over the flattened intermediate representation of quantum programs.
//!
//! - [`fir`]: packages of nodes that refer to each other by identifier, on [`index_map`]; what they
//!   are as mathematical values stands in [`fir_laws`].
//! - [`walk`], [`validity`]: walking nodes, and testing that they are whole. What is met stands in
//!   [`walk_laws`], what is whole in [`validity_laws`].
//! - [`reachability`]: which items the entry expression of a package reaches.
//! - [`tuple_destructuring`]: rewriting tuple-destructuring `let`s into positional projections,
//!   with identifiers from an [`assigner`]. What is rewritten, and into what, stands in
//!   [`normalization_laws`], that it keeps packages in order in [`preservation`], that once is
//!   enough in [`idempotence`], and that programs go on to compute the same, by their
//!   [`semantics`], in [`equivalence`].
//! - [`pipeline`]: the order of the passes, and what becomes of their diagnostics; what holds of
//!   every run stands in [`pipeline_laws`].
//! - [`shapes`], [`probes`], [`text`]: rendering callables, and looking into them, with
//!   [`shape_laws`], [`probe_laws`] and [`text_laws`].

pub mod assigner;
pub mod equivalence;
pub mod fir;
pub mod fir_laws;
pub mod idempotence;
pub mod index_map;
pub mod normalization_laws;
pub mod pipeline;
pub mod pipeline_laws;
pub mod preservation;
pub mod probe_laws;
pub mod probes;
pub mod reachability;
pub mod semantics;
pub mod shape_laws;
pub mod shapes;
pub mod text;
pub mod text_laws;
pub mod tuple_destructuring;
pub mod validity;
pub mod validity_laws;
pub mod walk;
pub mod walk_laws;

pub use crate::pipeline::{
    run_pipeline_to_with_diagnostics, run_pipeline_with_diagnostics, PipelineError, PipelineResult,
    PipelineStage,
};
