//! Vertices built on the progress protocol.
pub mod queue;
