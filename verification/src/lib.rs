//! Execution core of a push-based query pipeline: ports with explicit
//! backpressure, polled processors, a hash-partitioning scatter operator, a
//! hash join that can spill partitions, and the planning helpers around them.

pub mod error;
pub mod datavalues;
pub mod selection;
pub mod byte_layout;
pub mod port;
pub mod barrier;
pub mod hashing;
pub mod hash_method;
pub mod key_laws;
pub mod scatter;
pub mod plan;
pub mod pipeline;
pub mod builder_join;
pub mod join_table;
pub mod spill_codec;
pub mod join_spec;
pub mod hash_join;
pub mod spill_plan;
pub mod join_keys;
pub mod join_output;
pub mod range_merger;
pub mod block_reader;
pub mod copy;
pub mod dal;
pub mod executor;
