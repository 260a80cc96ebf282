//! Verified core of a labelled object store: labels, object references and
//! metadata with their binary form, collections over ordered key spaces, the
//! label indexer and the label search.

pub mod text;
pub mod errors;
pub mod labels;
pub mod objects;
pub mod indexer;
pub mod tree;
pub mod cbor;
pub mod meta;
pub mod collection;
pub mod backend;
pub mod search;
pub mod config;
pub mod query;
pub mod status;
pub mod api;
pub mod cluster;
pub mod convergence;
