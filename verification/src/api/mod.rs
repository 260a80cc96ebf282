//! What the transport layer needs of the store: the answers to its requests
//! as plain values, and the headers that carry metadata.

pub mod objects;
