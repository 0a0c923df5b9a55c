//! A packed heterogeneous-length vector: values whose encoded byte length
//! may differ per value are stored back to back in one growable byte buffer,
//! with an offset index giving O(1) random access and in-place mutation,
//! including mutation that changes an element's encoded size.

pub mod bytes;
pub mod compress;
pub mod container;
pub mod example;
pub mod ints;
