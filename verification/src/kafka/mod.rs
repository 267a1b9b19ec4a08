//! Handing records to a Kafka producer.

pub mod backoff;
pub mod service;
