//! Fused indexed streams: combinators for joins, intersections, unions and
//! contractions over sparse, sorted collections, verified against a common
//! cursor protocol.
//!
//! The protocol lives in [`stream_defs`]: a stream is a cursor over ordered
//! (index, value) pairs, modeled by the sequence of pairs it can still emit.
//! Sources stream sorted key arrays ([`sorted_vec`]), sparse vectors
//! ([`sparse_vec`]) and CSR matrices ([`csr_mat`]); combinators intersect
//! ([`zip_stream`], [`mul_stream`]), merge ([`add_stream`]), concatenate
//! ([`chain`]), transform values ([`stream_defs::MappedStream`]) and collapse
//! indices ([`contract_stream`]); collectors and the dense adapter drain a
//! pipeline back into materialized data.

pub mod stream_defs;
mod binary_search;
pub mod sorted_vec;
pub mod sparse_vec;
pub mod csr_mat;
pub mod coo_mat;
pub mod zip_stream;
pub mod add_stream;
pub mod chain;
pub mod mul_stream;
pub mod fun_stream;
pub mod contract_stream;
