//! Error kinds raised by the store, the wire protocol and the server.

use vstd::prelude::*;
use vstd::string::*;

verus! {

/// Everything that can go wrong in the store or on the wire.
///
/// Failures coming from the operating system or from outside libraries are
/// carried as their rendered message, so the verified core never holds an
/// opaque foreign value.
#[derive(Debug, Clone, PartialEq, Eq)]
pub enum KVStoreError {
    /// Filesystem or socket failure, carried as its rendered message.
    Io(String),
    /// A record or frame that does not decode.
    Serde(String),
    /// Failure reported by the alternate embedded-database engine.
    Sled(String),
    /// Non-UTF-8 bytes where text was expected.
    Utf8Error(String),
    /// A worker thread could not be created.
    ThreadPoolBuildError(String),
    /// `remove` was asked for a key that is not in the store.
    KeyNotFound,
    /// The index pointed at a record that is not a `SET`.
    UnknownCommandType,
    /// An engine name that is neither of the two known engines.
    UnknownEngineType,
    /// The data directory already belongs to the other engine.
    ChangeEngineError,
    /// Any other failure, carried as text.
    CommonStringError(String),
}

impl KVStoreError {
    /// The human-readable message for this error, as the client prints it.
    pub fn message(&self) -> (r: String)
        ensures
            self is KeyNotFound ==> r@ == "Key not found"@,
            self is UnknownCommandType ==> r@ == "Unknown command type"@,
            self is UnknownEngineType ==> r@ == "Unknown engine type"@,
            self is ChangeEngineError ==> r@ == "Change engine after initialization"@,
            self matches KVStoreError::Io(m) ==> r@ == m@,
            self matches KVStoreError::Serde(m) ==> r@ == m@,
            self matches KVStoreError::Sled(m) ==> r@ == m@,
            self matches KVStoreError::CommonStringError(m) ==> r@ == m@,
            self matches KVStoreError::Utf8Error(m) ==> r@ == "Utf8 Error "@ + m@,
            self matches KVStoreError::ThreadPoolBuildError(m) ==> r@ == "Build ThreadPool Error "@
                + m@,
    {
        match self {
            KVStoreError::Io(m) => m.clone(),
            KVStoreError::Serde(m) => m.clone(),
            KVStoreError::Sled(m) => m.clone(),
            KVStoreError::Utf8Error(m) => {
                let mut s = String::from_str("Utf8 Error ");
                s.append(m.as_str());
                s
            },
            KVStoreError::ThreadPoolBuildError(m) => {
                let mut s = String::from_str("Build ThreadPool Error ");
                s.append(m.as_str());
                s
            },
            KVStoreError::KeyNotFound => String::from_str("Key not found"),
            KVStoreError::UnknownCommandType => String::from_str("Unknown command type"),
            KVStoreError::UnknownEngineType => String::from_str("Unknown engine type"),
            KVStoreError::ChangeEngineError => String::from_str(
                "Change engine after initialization",
            ),
            KVStoreError::CommonStringError(m) => m.clone(),
        }
    }
}

} // verus!
