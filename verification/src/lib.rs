//! Dataflow graphs: configuration, planning, scheduling and diagnostics, with
//! every rule stated as a contract and proved.

pub mod text;
pub mod text_map;
pub mod status;
pub mod port;
pub mod diagnostic;
pub mod yaml;
pub mod config;
pub mod supported;
pub mod expand;
pub mod expand_laws;
pub mod cycle;
pub mod preflight;
pub mod topology;
pub mod plan;
pub mod plan_laws;
pub mod edge_laws;
pub mod acceptance;
pub mod support_laws;
pub mod report;
pub mod dot;
pub mod drawing;
pub mod summary;
pub mod report_laws;
pub mod load;
pub mod timestamp;
pub mod runtime;
pub mod options;
pub mod packet;
pub mod context;
pub mod host;
pub mod wiring;
pub mod typing;
pub mod run_state;
pub mod graph;
pub mod schedule;
pub mod engine;
pub mod lifecycle;
pub mod api;
pub mod inspect;
pub mod laws;
pub mod kernel_laws;
pub mod host_laws;
pub mod turn_laws;
pub mod detail_laws;
pub mod delivery;
pub mod accounting;
pub mod ending;
pub mod ownership;
pub mod clearing;
pub mod executor;
pub mod buffer;
pub mod pool_laws;
pub mod boundary;
pub mod crossing;
pub mod handles;
pub mod answers;
pub mod calls;
pub mod builtin;
pub mod boundary_laws;
pub mod naming_laws;
pub mod refusal_laws;
