use vstd::prelude::*;

verus! {

/// Failure cases of keyspace construction and mutation.
#[derive(Debug, Clone, Copy, PartialEq, Eq, Structural)]
pub enum KeyspaceError {
    /// The operation would leave fewer nodes than the replication factor
    /// (the payload) requires.
    NotEnoughNodes(usize),
    /// The replication strategy rejected so many candidates that some shard
    /// could not collect a full replica set.
    IncompleteReplicaSet,
    /// Two shard tables of different lengths were diffed. Not reachable
    /// through the public interface, where every table has the fixed length.
    ShardCountMismatch,
}

pub type KeyspaceResult<T> = Result<T, KeyspaceError>;

} // verus!

