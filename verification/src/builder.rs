use vstd::prelude::*;

use crate::error::{KeyspaceError, KeyspaceResult};
use crate::node::{spec_node_ids_of, KeyspaceNode};
use crate::replication::{DefaultReplicationStrategy, ReplicationStrategy};
use crate::Keyspace;

verus! {

/// Fluent construction of a keyspace: collects the initial nodes, then
/// optionally a replication factor and a replication strategy, and finally
/// builds. The defaults are a factor of three and the strategy that admits
/// every node.
pub struct KeyspaceBuilder<N> {
    init_nodes: Vec<N>,
}

impl<N: KeyspaceNode> KeyspaceBuilder<N> {
    /// The nodes the keyspace will start from.
    pub closed spec fn spec_init_nodes(&self) -> Seq<N> {
        self.init_nodes@
    }

    /// Create a new keyspace builder.
    pub fn new(init_nodes: Vec<N>) -> (r: Self)
        ensures
            r.spec_init_nodes() == init_nodes@,
    {
        KeyspaceBuilder { init_nodes }
    }

    /// Transform the builder into one with a different replication factor.
    pub fn with_replication_factor<const CUSTOM_RF: usize>(self) -> (r:
        KeyspaceBuilderWithReplicationFactor<N, DefaultReplicationStrategy, CUSTOM_RF>)
        ensures
            r.spec_init_nodes() == self.spec_init_nodes(),
    {
        KeyspaceBuilderWithReplicationFactor {
            init_nodes: self.init_nodes,
            replication_strategy: DefaultReplicationStrategy::new(),
        }
    }

    /// Transform the builder into one with a different replication
    /// strategy.
    pub fn with_replication_strategy<R: ReplicationStrategy<N>>(self, replication_strategy: R)
        -> (r: KeyspaceBuilderWithReplicationStrategy<N, R, 3>)
        ensures
            r.spec_init_nodes() == self.spec_init_nodes(),
    {
        KeyspaceBuilderWithReplicationStrategy { init_nodes: self.init_nodes, replication_strategy }
    }

    /// Build the keyspace with the default replication factor and strategy:
    /// it succeeds exactly when at least three distinct node ids were given.
    pub fn build(self) -> (r: KeyspaceResult<Keyspace<N, DefaultReplicationStrategy, 3>>)
        ensures
            r matches Ok(ks) ==> ks.wf() && ks.spec_version() == 0,
            r matches Err(e) ==> e == KeyspaceError::NotEnoughNodes(3usize),
            (r is Ok) <==> spec_node_ids_of(self.spec_init_nodes()).to_set().len() >= 3,
    {
        Keyspace::new(self.init_nodes, DefaultReplicationStrategy::new())
    }
}

/// Keyspace builder carrying a custom replication strategy.
pub struct KeyspaceBuilderWithReplicationStrategy<N, R, const RF: usize> {
    init_nodes: Vec<N>,
    replication_strategy: R,
}

impl<N: KeyspaceNode, R: ReplicationStrategy<N>, const RF: usize> KeyspaceBuilderWithReplicationStrategy<N, R, RF> {
    /// The nodes the keyspace will start from.
    pub closed spec fn spec_init_nodes(&self) -> Seq<N> {
        self.init_nodes@
    }

    /// Transform the builder into one with a different replication factor.
    pub fn with_replication_factor<const CUSTOM_RF: usize>(self) -> (r:
        KeyspaceBuilderWithReplicationFactor<N, R, CUSTOM_RF>)
        ensures
            r.spec_init_nodes() == self.spec_init_nodes(),
    {
        KeyspaceBuilderWithReplicationFactor {
            init_nodes: self.init_nodes,
            replication_strategy: self.replication_strategy,
        }
    }

    /// Build the keyspace with the given replication strategy and the
    /// default replication factor. With a strategy that accepts every
    /// candidate, it succeeds exactly when at least `RF` distinct node ids
    /// were given.
    pub fn build(self) -> (r: KeyspaceResult<Keyspace<N, R, RF>>)
        ensures
            r matches Ok(ks) ==> ks.wf() && ks.spec_version() == 0,
            r matches Err(e) ==> e == KeyspaceError::NotEnoughNodes(RF) || e
                == KeyspaceError::IncompleteReplicaSet,
            (r matches Err(e) && e == KeyspaceError::NotEnoughNodes(RF)) <==> spec_node_ids_of(
                self.spec_init_nodes(),
            ).to_set().len() < RF as int,
            R::spec_accepts_all() && spec_node_ids_of(self.spec_init_nodes()).to_set().len()
                >= RF as int ==> r is Ok,
    {
        Keyspace::new(self.init_nodes, self.replication_strategy)
    }
}

/// Keyspace builder carrying a custom replication factor.
pub struct KeyspaceBuilderWithReplicationFactor<N, R, const RF: usize> {
    init_nodes: Vec<N>,
    replication_strategy: R,
}

impl<N: KeyspaceNode, R: ReplicationStrategy<N>, const RF: usize> KeyspaceBuilderWithReplicationFactor<N, R, RF> {
    /// The nodes the keyspace will start from.
    pub closed spec fn spec_init_nodes(&self) -> Seq<N> {
        self.init_nodes@
    }

    /// Transform the builder into one with a different replication
    /// strategy.
    pub fn with_replication_strategy<CustomR: ReplicationStrategy<N>>(
        self,
        replication_strategy: CustomR,
    ) -> (r: KeyspaceBuilderWithReplicationStrategy<N, CustomR, RF>)
        ensures
            r.spec_init_nodes() == self.spec_init_nodes(),
    {
        KeyspaceBuilderWithReplicationStrategy { init_nodes: self.init_nodes, replication_strategy }
    }

    /// Build the keyspace with the given replication factor and strategy.
    /// With a strategy that accepts every candidate, it succeeds exactly
    /// when at least `RF` distinct node ids were given.
    pub fn build(self) -> (r: KeyspaceResult<Keyspace<N, R, RF>>)
        ensures
            r matches Ok(ks) ==> ks.wf() && ks.spec_version() == 0,
            r matches Err(e) ==> e == KeyspaceError::NotEnoughNodes(RF) || e
                == KeyspaceError::IncompleteReplicaSet,
            (r matches Err(e) && e == KeyspaceError::NotEnoughNodes(RF)) <==> spec_node_ids_of(
                self.spec_init_nodes(),
            ).to_set().len() < RF as int,
            R::spec_accepts_all() && spec_node_ids_of(self.spec_init_nodes()).to_set().len()
                >= RF as int ==> r is Ok,
    {
        Keyspace::new(self.init_nodes, self.replication_strategy)
    }
}

} // verus!
