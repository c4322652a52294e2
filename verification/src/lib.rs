//! The verified core of Focal Vector, a vector database.
//!
//! [`collection`] holds points in memory and searches them exactly; it fixes what a
//! search means. [`hnsw`] is the approximate index, [`metadata_index`] the index over
//! metadata, and [`persistence`] the write-ahead log and the segments. A collection
//! can be spread over shards ([`sharding`], [`distributed`]) and a shard can be
//! replicated ([`raft_storage`], [`raft_state_machine`]). [`database`], [`server`],
//! [`local`] and [`client`] are the rules of the services around it.
//!
//! The library neither reads files nor opens sockets: what is to be written, sent or
//! run elsewhere goes through closures and plain values. Floating-point numbers are
//! held as their bits ([`bits`]); the arithmetic on vectors is the caller's
//! [`metric::Kernel`].
use vstd::prelude::*;

pub mod bench;
pub mod bits;
pub mod bytes;
pub mod checksum;
pub mod client;
pub mod collection;
pub mod concurrent;
pub mod cuda;
pub mod database;
pub mod distributed;
pub mod error;
pub mod filter;
pub mod hits;
pub mod hnsw;
pub mod ids;
pub mod journal;
pub mod ledger;
pub mod local;
pub mod metadata;
pub mod metadata_index;
pub mod metric;
pub mod parse;
pub mod persistence;
pub mod protocol;
pub mod raft_node;
pub mod raft_state_machine;
pub mod raft_storage;
pub mod ranking;
pub mod server;
pub mod sharding;
pub mod sort;
pub mod table;
pub mod text;
pub mod tls;

pub use collection::{Collection, CollectionConfig, Point, SearchHit, UpsertPoint};
pub use concurrent::{BackgroundFlusher, Interval};
pub use cuda::{CudaSearchConfig, CudaSearchMode};
pub use database::{CollectionSummary, Database, DatabaseConfig};
pub use distributed::{DistributedCollection, ReplicaSet};
pub use error::{Error, Result};
pub use filter::Filter;
pub use hnsw::model::HnswConfig;
pub use hnsw::{HnswHit, HnswIndex};
pub use metadata::{Metadata, Value};
pub use metric::{Kernel, Metric};
pub use persistence::{Durability, PersistentCollection};
pub use raft_state_machine::DurableShardStateMachine;
pub use raft_storage::{DurableRaftLog, NodeId, ShardCommand, ShardResponse};
pub use server::ServerConfig;
pub use sharding::{shard_index, ShardCommit, ShardedCollection};
pub use tls::HttpClientTlsConfig;

verus! {

} // verus!
