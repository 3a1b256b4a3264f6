//! A batch-accumulating serializer for a self-describing binary record
//! format, a flow-keyed session sampler, and the decision logic of a
//! record-reproduction pipeline, with machine-checked contracts.

pub mod config;
pub mod controller;
pub mod converter;
pub mod fluentd;
pub mod matcher;
pub mod producer;
pub mod report;
pub mod session;
