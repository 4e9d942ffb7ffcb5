//! A verified core for a JavaScript monorepo package installer.
//!
//! The library models dependency descriptors, registry metadata, version
//! resolution, the dependency graph builder, and the on-disk layout
//! planner. Network and file system work happens outside the library and
//! hands plain values in and out; the few outside calls the logic itself
//! needs (semver parsing and matching, JSON field extraction, the petgraph
//! container) stand behind trusted declarations beside their uses.

pub mod cache;
pub mod collector;
pub mod common;
pub mod config;
pub mod dependency;
pub mod errors;
pub mod graph;
pub mod metadata;
pub mod package;
pub mod resolver;
pub mod root_locator;
pub mod store;
pub mod strutil;
pub mod version;
pub mod workspace;
pub mod writer;
