//! AXIS kernel core: physical/virtual memory management and the network
//! protocol layers, written as verified data structures and algorithms.

pub mod error;
pub mod mm;
pub mod net;
