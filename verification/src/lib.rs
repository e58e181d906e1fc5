//! A monorepo task orchestrator's core: a lazily materialized project
//! graph, an action graph derived from run targets, and the scheduling
//! rules that drain it, with continuous-integration sharding on top.

pub mod action;
pub mod ci;
pub mod dep_graph;
pub mod cli;
pub mod errors;
mod graph_store;
pub mod lang;
pub mod project;
pub mod project_graph;
pub mod runner;
pub mod strutil;
pub mod target;
