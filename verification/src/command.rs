//! The command record: the unit written to the log.

use vstd::prelude::*;

verus! {

/// The mathematical shape of a command record: its key and value as
/// character sequences. Contracts and the log model speak in this type.
pub enum CommandView {
    /// A key set to a value.
    SET(Seq<char>, Seq<char>),
    /// A key removed.
    RM(Seq<char>),
}

/// A command record, the unit appended to a log file.
#[derive(Debug, Clone)]
pub enum Command {
    /// Set a key to a value.
    SET(String, String),
    /// Remove a key.
    RM(String),
}

impl View for Command {
    type V = CommandView;

    open spec fn view(&self) -> CommandView {
        match self {
            Command::SET(k, v) => CommandView::SET(k@, v@),
            Command::RM(k) => CommandView::RM(k@),
        }
    }
}

} // verus!
