//! Core of a log-structured merge key-value store: the sorted-table format with
//! its sparse index and key-range algebra, and a sharded least-recently-used cache.

pub mod error;
pub mod bytes_order;
pub mod codec;
pub mod command;
pub mod score;
pub mod ss_table;
pub mod iterator;
pub mod lru_cache;
pub mod sharding;
