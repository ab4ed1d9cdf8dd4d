//! The engine selector: decides which engine a data directory belongs to.
//!
//! Engine identity is recognized by the presence of the engine's named
//! subdirectory; the caller reports which ones exist.

use vstd::prelude::*;
use vstd::string::*;

use crate::error::KVStoreError;

verus! {

/// The two storage engines a data directory can belong to.
#[derive(Debug, Clone, Copy, PartialEq, Eq, Structural)]
pub enum EngineType {
    /// The log-structured engine of this crate.
    KvStore,
    /// The adapter over the embedded third-party store.
    SledKvsEngine,
}

impl EngineType {
    /// The name of the subdirectory this engine keeps its state in.
    pub fn dir_name(&self) -> (r: String)
        ensures
            self is KvStore ==> r@ == "kvs"@,
            self is SledKvsEngine ==> r@ == "sled"@,
    {
        match self {
            EngineType::KvStore => String::from_str("kvs"),
            EngineType::SledKvsEngine => String::from_str("sled"),
        }
    }
}

/// Decides which engine to run, given the engine name the caller asked
/// for, if any, and which engines' directories already exist. Asking for
/// one engine while the other engine's directory exists is refused: that
/// would silently lose the directory's data.
pub fn judge_engine(engine: Option<String>, kvs_exists: bool, sled_exists: bool) -> (r: Result<
    EngineType,
    KVStoreError,
>)
    ensures
        engine is None ==> (r matches Ok(t) && t == (if sled_exists {
            EngineType::SledKvsEngine
        } else {
            EngineType::KvStore
        })),
        engine matches Some(name) && name@ == "kvs"@ ==> (if sled_exists {
            r matches Err(e) && e is ChangeEngineError
        } else {
            r matches Ok(t) && t is KvStore
        }),
        engine matches Some(name) && name@ != "kvs"@ ==> (if kvs_exists {
            r matches Err(e) && e is ChangeEngineError
        } else {
            r matches Ok(t) && t is SledKvsEngine
        }),
{
    match engine {
        None => {
            if sled_exists {
                Ok(EngineType::SledKvsEngine)
            } else {
                Ok(EngineType::KvStore)
            }
        },
        Some(v) => {
            let kvs_name = String::from_str("kvs");
            if v == kvs_name {
                if sled_exists {
                    Err(KVStoreError::ChangeEngineError)
                } else {
                    Ok(EngineType::KvStore)
                }
            } else {
                if kvs_exists {
                    Err(KVStoreError::ChangeEngineError)
                } else {
                    Ok(EngineType::SledKvsEngine)
                }
            }
        },
    }
}

} // verus!
