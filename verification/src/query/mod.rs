//! Queries over single fields of labels, run with bounded parallelism.

pub mod request;
