//! The decisions of a local-first personal assistant: the agent loop and its
//! guards, the graph engine, memory, scheduling, settings, the tool protocol
//! client and the request dispatcher. Everything that touches the disk, the
//! network, a model or a clock stays with the caller, who hands in plain values.
pub mod agent;
pub mod approval;
pub mod boot;
pub mod budget;
pub mod compaction;
pub mod config;
pub mod console;
pub mod consolidation;
pub mod dispatch;
pub mod engine;
pub mod eval;
pub mod full;
pub mod gate;
pub mod gather;
pub mod goal;
pub mod graph;
pub mod guard;
pub mod install;
pub mod jobs;
pub mod json;
pub mod mcp;
pub mod mcp_cmd;
pub mod memory;
pub mod memory_server;
pub mod model;
pub mod oauth;
pub mod retrieval;
pub mod scenario;
pub mod schedule;
pub mod skill_cmd;
pub mod skills;
pub mod subagent;
pub mod table;
pub mod telemetry;
pub mod text;
pub mod transport;
pub mod triage;
pub mod turn;
