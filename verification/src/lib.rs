//! In-memory store for a tab-separated chemical compound database dump:
//! loading, id-indexed lookup, and random sampling.

pub mod chembl;
