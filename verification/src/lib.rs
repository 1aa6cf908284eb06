//! Weather-observation aggregation pipeline built on a verified streaming
//! hash function and a verified chained hash table.
pub mod hash_table;
pub mod pipeline;
pub mod weather;
pub mod xxhash;
