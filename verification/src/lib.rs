//! A persistent, log-structured key-value store.
//!
//! The store keeps an append-only command log partitioned into numbered
//! segments, an in-memory index from keys to byte ranges within those
//! segments, a recovery procedure that rebuilds the index when a store is
//! opened, and an online compaction procedure that reclaims the space held
//! by shadowed writes.
//!
//! The library works on an in-memory image of the log: each segment's bytes
//! are held in a [`kvstore::Segment`]. Mutations are recorded as
//! [`kvstore::DiskOp`] values that a host program replays onto real files,
//! and a store is reopened from the segment bytes read back from those
//! files.

pub mod codec;
pub mod error;
pub mod files;
pub mod kvstore;

pub use codec::KvsCommands;
pub use codec::decode_record;
pub use codec::encode_record;
pub use error::KvsError;
pub use error::Result;
pub use files::gen_list;
pub use files::log_file;
pub use files::parse_gen_name;
pub use kvstore::COMPACTION_THRESHOLD;
pub use kvstore::DiskOp;
pub use kvstore::FileLocation;
pub use kvstore::KvStore;
pub use kvstore::KvWriter;
pub use kvstore::Segment;
