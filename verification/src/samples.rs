//! Small programs to run the analyses on, each with what it computes.
pub mod aggregate;
pub mod branch;
pub mod call;
pub mod complex;
pub mod compose;
pub mod compose_heap;
pub mod connected;
pub mod field;
pub mod ref_read;
pub mod ref_write;
pub mod select;
pub mod shared;
