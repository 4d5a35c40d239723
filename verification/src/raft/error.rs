//! What can go wrong in a node.

use crate::raft::NodeId;
use postcard::Error as PostcardError;
use vstd::prelude::*;

verus! {

/// `postcard::Error`, carried through without being looked into.
#[verifier::external_type_specification]
#[verifier::external_body]
pub struct ExPostcardError(PostcardError);

/// An error of a node, or of a client's request to it.
#[derive(Debug)]
pub enum RaftError {
    /// The node encountered an error.
    Error(String),
    /// The persistent state could not be encoded or decoded.
    SerializationError(PostcardError),
    /// The node is not the leader; this one is.
    NotLeader(NodeId),
    /// The node knows of no leader.
    NoLeader,
    /// The node no longer takes commands.
    CommandChannelClosed,
    /// The node dropped the command without an answer.
    CommandResponseDropped,
    /// The state could not be saved or restored.
    StorageError(String),
    /// A message could not be delivered.
    TransportError(String),
}

pub type Result<T> = std::result::Result<T, RaftError>;

} // verus!
