//! Region-based anti-entropy for a distributed hash table: quantized
//! spacetime coordinates, telescoping time windows, region sets built from an
//! op store, and the rectify / diff reconciliation of two such sets.

pub mod arq;
pub mod db;
pub mod op_store;
pub mod quantum;
pub mod region_data;
pub mod region_set;
pub mod telescoping;
