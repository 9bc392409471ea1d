//! Continuous benchmark-overhead tracking: turns "a commit landed" into
//! structured data, charts and factual events.
//!
//! This crate holds the rules of the reporter: parsing, ratios, regression
//! state, record keeping, table and digest building, and the decisions behind
//! every side effect. Reading files, running subprocesses and drawing pixels
//! belong to the program around it.
pub mod canary;
pub mod cards;
pub mod carry;
pub mod charts;
pub mod compare;
pub mod config;
pub mod criterion_results;
pub mod dates;
pub mod decimals;
pub mod digest;
pub mod double;
pub mod flamegraph;
pub mod git;
pub mod instructions;
pub mod json;
pub mod keyed;
pub mod lane;
pub mod laws;
pub mod measure;
pub mod numerals;
pub mod paths;
pub mod pipeline;
pub mod sorting;
pub mod state;
pub mod storage;
pub mod strmap;
pub mod subprocess;
pub mod text;
