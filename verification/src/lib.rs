//! The decision core of an embedded memory database for agents.
//!
//! Everything here works on plain values: records, edges, counters and text.
//! Reading files, talking to a model server and floating-point scoring are done
//! by the host, which hands in what it read and carries out what comes back.

pub mod db;
pub mod detectors;
pub mod diagnostics;
pub mod entity;
pub mod error;
pub mod event_log;
pub mod extension;
pub mod feedback;
pub mod hash;
pub mod importance;
pub mod inference;
pub mod json;
pub mod lineage;
pub mod llm;
pub mod llm_http;
pub mod metrics;
pub mod order;
pub mod plugin;
pub mod portable;
pub mod prefetch;
pub mod ratio;
pub mod record;
pub mod text;
pub mod time;
