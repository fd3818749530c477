//! A persistent key/value store kept in append-only log segments, with the
//! request/response vocabulary of its network service.
//!
//! The store ([`KvStore`]) keeps the bytes of its segments in memory and
//! hands out what has to be done to the files of its directory; reading the
//! files, writing them and talking over sockets is left to the caller.
//!
//! - [`record`]: the text of a record, written and read with `serde_json`
//!   ([`json`]) for the strings.
//! - [`index`]: the index from keys to the places of their records.
//! - [`segments`], [`log`], [`compaction`]: the state of a store and its
//!   operations as mathematical objects.
//! - [`store`]: the store itself.
//! - [`laws`]: what holds of the store.
//! - [`names`]: the names of the segment files.
//! - [`engine`]: the contract of a storage engine, and the choice of one.
//! - [`protocol`], [`server`], [`cli`]: requests and answers, what the
//!   server makes of a request, and what a command line shows.
//! - [`error`]: the failure kinds.

pub mod cli;
pub mod command;
pub mod compaction;
pub mod engine;
pub mod error;
pub mod index;
pub mod json;
pub mod laws;
pub mod log;
pub mod names;
pub mod protocol;
pub mod record;
pub mod segments;
pub mod server;
pub mod store;

pub use command::{Command, LogPointer};
pub use engine::{EngineType, KvsEngine};
pub use error::KvsError;
pub use protocol::{Request, Response};
pub use server::KvsServer;
pub use store::{DiskOp, KvStore, Segment};
