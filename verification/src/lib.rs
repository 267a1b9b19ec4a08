//! The decisions of an observability pipeline: how a configuration is loaded and compiled, how
//! the pieces of a topology are put together, and how records are handed to a Kafka producer.
//!
//! Everything that reads, sends, sleeps or spawns stays outside. The functions here take what
//! such work returned as plain values, and say what follows from it.

pub mod text;
pub mod ordered;
pub mod keyed;
pub mod config;
pub mod topology;
pub mod kafka;
