//! Progress tracking for cyclic dataflow graphs: how the vertices of a graph
//! agree, through signed counts over partially ordered timestamps, on the
//! work that is still outstanding at each logical time.
pub mod communication;
pub mod example;
pub mod progress;
