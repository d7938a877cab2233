//! A single-node, durable key-value storage engine organized as a
//! log-structured merge (LSM) tree.
//!
//! The engine keeps an ordered in-memory buffer (the MemTable) of the most
//! recent writes, a write-ahead log that makes accepted writes durable, and
//! immutable sorted tables (SSTables) organized into levels.  A write goes to
//! the log and the MemTable; a full MemTable is flushed as a new level-0
//! SSTable; a level with too many tables is merged into the next one.  A read
//! consults the MemTable first and then the levels from newest to oldest.
//!
//! All persistent state is modeled as plain text: the library computes the
//! exact file contents (`"<key>:<value>\n"` lines) and rebuilds its state
//! from such contents, so the surrounding process only moves whole strings
//! between this library and the file system.

pub mod bloom_filter;
pub mod client;
pub mod codec;
pub mod common_enums;
pub mod laws;
pub mod lsm_tree;
pub mod mem_table;
pub mod order;
pub mod server;
pub mod ss_table;
pub mod wal;

pub use codec::is_valid_key;
pub use codec::is_valid_value;
pub use common_enums::CompactionStrategy;
pub use common_enums::Request;
pub use common_enums::Response;
pub use lsm_tree::LSMTree;
