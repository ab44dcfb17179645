//! Moving records between vertices: the push and pull interfaces.
pub mod data;
pub mod observer;
pub mod pushpull;
