//! The engine's errors and the messages they are reported with.
use vstd::prelude::*;
use crate::writes::WriteOp;

verus! {

/// Why an engine call failed.
#[derive(Debug)]
pub enum EngineError {
    /// The database failed; the text is redb's description.
    Storage(String),
    /// A single JSON payload was refused; `detail` is the parser's description.
    Validation { id: String, detail: String },
    /// A payload of a batch was refused; `detail` is the parser's description.
    InvalidPayload { id: String, detail: String },
    /// The write queue is closed; `rejected` is the operation it handed back, and
    /// `detail` the channel's description.
    QueueClosed { rejected: WriteOp, detail: String },
    /// The shutdown request could not be queued; `rejected` is the operation it
    /// handed back, and `detail` the channel's description.
    ShutdownRefused { rejected: WriteOp, detail: String },
}

/// The message of an error.
pub open spec fn message_text(e: EngineError) -> Seq<char> {
    match e {
        EngineError::Storage(text) => text@,
        EngineError::Validation { id, detail } => "Validation error at "@ + id@ + "."@ + detail@,
        EngineError::InvalidPayload { id, detail } => "Invalid json in payload for id "@ + id@
            + "."@ + detail@,
        EngineError::QueueClosed { detail, .. } => "Write queue full or closed. "@ + detail@,
        EngineError::ShutdownRefused { detail, .. } => "Failed to send shutdown signal "@ + detail@,
    }
}

impl EngineError {
    /// The message the error is reported with.
    pub fn message(&self) -> (m: String)
        ensures
            m@ == message_text(*self),
    {
        match self {
            EngineError::Storage(text) => text.clone(),
            EngineError::Validation { id, detail } => {
                let mut m = String::from_str("Validation error at ");
                m.append(id.as_str());
                m.append(".");
                m.append(detail.as_str());
                m
            },
            EngineError::InvalidPayload { id, detail } => {
                let mut m = String::from_str("Invalid json in payload for id ");
                m.append(id.as_str());
                m.append(".");
                m.append(detail.as_str());
                m
            },
            EngineError::QueueClosed { detail, .. } => {
                let mut m = String::from_str("Write queue full or closed. ");
                m.append(detail.as_str());
                m
            },
            EngineError::ShutdownRefused { detail, .. } => {
                let mut m = String::from_str("Failed to send shutdown signal ");
                m.append(detail.as_str());
                m
            },
        }
    }
}

} // verus!
