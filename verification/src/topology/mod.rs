//! Topologies: the running pieces that a configuration is built into.

pub mod builder;
pub mod concurrent;
pub mod connections;
pub mod contexts;
pub mod diff;
pub mod events;
pub mod layers;
pub mod outputs;
pub mod pieces;
pub mod run;
pub mod schema;
pub mod tables;
