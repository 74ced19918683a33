//! An interactive line-editing console driven over a byte-oriented transport,
//! and fixed-capacity ring buffers for passing fixed-size frames between two
//! independently running execution contexts.

pub mod console;
pub mod shared_ringbuffer;
