//! A log-structured key/value store with a verified core: an append-only
//! command log with an in-memory index, a compactor that reclaims stale
//! bytes, a self-delimiting record codec, a request/response wire protocol,
//! and an engine selector that guards a data directory against being opened
//! by the wrong engine.

pub mod chars;
pub mod codec;
pub mod command;
pub mod engine_select;
pub mod error;
pub mod index;
pub mod kv_store;
pub mod proto;
pub mod thread_pool;

pub use command::Command;
pub use engine_select::{judge_engine, EngineType};
pub use error::KVStoreError;
pub use kv_store::{KvStore, LogFile};
pub use proto::{Request, Response};
pub use thread_pool::ThreadPool;
