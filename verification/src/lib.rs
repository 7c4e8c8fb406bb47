//! Measures what each model of a llama-swap roster costs, and builds the co-residency
//! matrix that may be declared from those measurements: every maximal combination that
//! fits the memory pool, and never one that does not.

pub mod alternatives;
pub mod apply;
pub mod build;
pub mod cache;
pub mod choices;
pub mod commands;
pub mod config;
pub mod coverage;
pub mod cram;
pub mod declared;
pub mod laws;
pub mod matrix;
pub mod measure;
pub mod model;
pub mod naming;
pub mod narrowing;
pub mod number;
pub mod packing;
pub mod param_hash;
pub mod plan;
pub mod planned;
pub mod platform;
pub mod policy;
pub mod probe;
mod roster;
pub mod report;
pub mod resolve;
pub mod sampling;
pub mod serving;
pub mod settings;
pub mod tables;
pub mod text;
pub mod together;
pub mod ui;
pub mod units;
pub mod validate;
