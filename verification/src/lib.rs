//! Dictionary compression of N-Triples datasets into fixed-width binary files,
//! and generation of SPARQL update workloads over the compressed data.

pub mod byte_order;
pub mod compressor;
pub mod decompressor;
pub mod error;
pub mod filtering;
pub mod generator;
pub mod hashing;
pub mod laws;
pub mod ntriples;
pub mod ordering;
pub mod query_spec;
pub mod query_text;
pub mod random;
pub mod sizes;
pub mod sorting;
pub mod sparql;
pub mod triples;
