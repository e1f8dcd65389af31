use vstd::prelude::*;

verus! {

/// The failures of repository operations.
#[derive(Debug, PartialEq, Eq)]
pub enum RepoError {
    /// The id is unknown, or the item has the other visibility
    /// (deleted where an active item was asked for, or the reverse).
    NotFound,
    /// A stored record does not decode; carries the raw record.
    CorruptRecord(String),
    /// The storage engine could not serve the operation; carries its message.
    RepositoryUnavailable(String),
    /// A defensive check found a deleted item where only active items may
    /// stand, or the reverse.
    InternalInconsistency(String),
}

impl RepoError {
    /// A short description, for logs and error pages.
    pub fn message(&self) -> (r: String) {
        match self {
            RepoError::NotFound => String::from_str("no such item"),
            RepoError::CorruptRecord(raw) => {
                let mut m = String::from_str("corrupt item record: ");
                m.append(raw.as_str());
                m
            },
            RepoError::RepositoryUnavailable(msg) => {
                let mut m = String::from_str("item repository unavailable: ");
                m.append(msg.as_str());
                m
            },
            RepoError::InternalInconsistency(msg) => {
                let mut m = String::from_str("internal inconsistency: ");
                m.append(msg.as_str());
                m
            },
        }
    }
}

} // verus!
