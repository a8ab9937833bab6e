use vstd::prelude::*;

pub mod builder;
pub mod error;
pub mod hash;
pub mod interval;
pub mod migration;
pub mod node;
pub mod replication;
pub mod sharding;

pub use crate::builder::KeyspaceBuilder;
pub use crate::error::{KeyspaceError, KeyspaceResult};
pub use crate::interval::{Interval, KeyRange};
pub use crate::migration::MigrationPlan;
pub use crate::node::{KeyspaceNode, NodeRef};
pub use crate::replication::{DefaultReplicationStrategy, ReplicationStrategy};

use crate::hash::key_position_of;
use crate::node::{lemma_contains_after_push, lemma_contains_after_remove, lemma_contains_after_set, spec_node_ids_of, Nodes};
use crate::sharding::{ShardIdx, Shards, SHARD_COUNT};

verus! {

/// Position of a key in the keyspace.
pub type KeyPosition = u64;

/// The shards among the first `n` on which the node with identity `t` is a
/// replica, in ascending order.
pub open spec fn spec_member_shards<N: KeyspaceNode>(
    rows: Seq<Seq<NodeRef<N>>>,
    t: <N::Id as View>::V,
    n: int,
) -> Seq<int>
    decreases n,
{
    if n <= 0 {
        Seq::empty()
    } else if crate::replication::ids_of(rows[n - 1]).contains(t) {
        spec_member_shards(rows, t, n - 1).push(n - 1)
    } else {
        spec_member_shards(rows, t, n - 1)
    }
}

/// The keyspace: maps every key position to the replica set of nodes that
/// stores it.
///
/// The 64-bit position space is divided into a fixed number of shards, and
/// each shard is assigned a replica set of `RF` nodes by rendezvous
/// ranking. Adding or removing a node rebuilds the assignment and yields a
/// migration plan describing exactly which key ranges each affected node
/// must pull, and from where; the keyspace itself is swapped atomically, so
/// a failed mutation leaves it untouched.
///
/// Placement treats every node uniformly: a node's declared capacity does
/// not enter the ranking.
pub struct Keyspace<N: KeyspaceNode, R: ReplicationStrategy<N>, const RF: usize> {
    nodes: Nodes<N>,
    shards: Shards<N, RF>,
    replication_strategy: R,
    version: u64,
}

impl<N: KeyspaceNode, R: ReplicationStrategy<N>, const RF: usize> Keyspace<N, R, RF> {
    /// The node handles currently in the keyspace.
    pub closed spec fn spec_node_entries(&self) -> Seq<NodeRef<N>> {
        self.nodes.spec_entries()
    }

    /// The identities of the nodes currently in the keyspace.
    pub open spec fn spec_node_ids(&self) -> Seq<<N::Id as View>::V> {
        self.spec_node_entries().map_values(|n: NodeRef<N>| n.spec_id())
    }

    /// Whether a node with the given identity is in the keyspace.
    pub open spec fn spec_contains_node(&self, v: <N::Id as View>::V) -> bool {
        self.spec_node_ids().contains(v)
    }

    /// The replica-node sequences, indexed by shard.
    pub closed spec fn spec_rows(&self) -> Seq<Seq<NodeRef<N>>> {
        self.shards.spec_rows()
    }

    pub closed spec fn spec_version(&self) -> u64 {
        self.version
    }

    pub closed spec fn spec_shards_wf(&self) -> bool {
        self.shards.wf() && self.shards.spec_rows_from(self.nodes.spec_entries())
    }

    pub closed spec fn spec_nodes_wf(&self) -> bool {
        self.nodes.wf()
    }

    /// A keyspace always holds at least `RF` nodes with pairwise-distinct
    /// ids, one well-formed row per shard, and every replica is one of its
    /// nodes.
    pub open spec fn wf(&self) -> bool {
        &&& self.spec_nodes_wf()
        &&& self.spec_shards_wf()
        &&& self.spec_node_entries().len() >= RF as int
        &&& forall|a: int, b: int|
            0 <= a < b < self.spec_node_ids().len() ==> self.spec_node_ids()[a]
                != self.spec_node_ids()[b]
        &&& self.spec_rows().len() == SHARD_COUNT
        &&& forall|i: int|
            0 <= i < SHARD_COUNT ==> (#[trigger] self.spec_rows()[i]).len() == RF as int
        &&& forall|i: int, k: int|
            0 <= i < SHARD_COUNT && 0 <= k < self.spec_rows()[i].len()
                ==> self.spec_node_entries().contains(#[trigger] self.spec_rows()[i][k])
        &&& R::spec_accepts_all() ==> forall|i: int|
            0 <= i < SHARD_COUNT ==> #[trigger] self.spec_rows()[i] == Shards::<
                N,
                RF,
            >::spec_full_row(self.spec_node_entries(), i as u16, RF as int)
    }

    /// Creates a keyspace over the given nodes. Fails with `NotEnoughNodes`
    /// when fewer than `RF` node ids are given, and with
    /// `IncompleteReplicaSet` when the strategy starves some shard; a
    /// strategy that admits every candidate never does.
    pub(crate) fn new(init_nodes: Vec<N>, replication_strategy: R) -> (r: KeyspaceResult<Self>)
        ensures
            match r {
                Ok(ks) => {
                    &&& ks.wf()
                    &&& ks.spec_version() == 0
                    &&& forall|v: <N::Id as View>::V|
                        #[trigger] ks.spec_contains_node(v) <==> spec_node_ids_of(
                            init_nodes@,
                        ).contains(v)
                    &&& R::spec_accepts_all() ==> forall|i: int|
                        0 <= i < SHARD_COUNT ==> #[trigger] ks.spec_rows()[i] == Shards::<
                            N,
                            RF,
                        >::spec_full_row(ks.spec_node_entries(), i as u16, RF as int)
                },
                Err(e) => {
                    &&& (e == KeyspaceError::NotEnoughNodes(RF) || e
                        == KeyspaceError::IncompleteReplicaSet)
                    &&& R::spec_accepts_all() ==> e == KeyspaceError::NotEnoughNodes(RF)
                },
            },
            (r matches Err(e) && e == KeyspaceError::NotEnoughNodes(RF)) <==> spec_node_ids_of(
                init_nodes@,
            ).to_set().len() < RF as int,
            R::spec_accepts_all() && spec_node_ids_of(init_nodes@).to_set().len() >= RF as int
                ==> r is Ok,
    {
        let nodes = Nodes::from_vec(init_nodes);
        let shards = match Shards::<N, RF>::new(&nodes, replication_strategy.clone()) {
            Ok(s) => s,
            Err(e) => {
                return Err(e);
            },
        };
        let ks = Keyspace { nodes, shards, replication_strategy, version: 0 };
        proof {
            assert forall|v: <N::Id as View>::V|
                #[trigger] ks.spec_contains_node(v) <==> spec_node_ids_of(
                    init_nodes@,
                ).contains(v) by {
                assert(ks.spec_contains_node(v) == ks.nodes.spec_contains_id(v));
            }
        }
        Ok(ks)
    }

    /// Keyspace version: incremented by every successful mutation.
    pub fn version(&self) -> (r: u64)
        ensures
            r == self.spec_version(),
    {
        self.version
    }

    /// The replica set responsible for the given key position: exactly `RF`
    /// node handles, primary first.
    pub fn replicas_at(&self, position: u64) -> (r: Vec<NodeRef<N>>)
        requires
            self.wf(),
        ensures
            r@ == self.spec_rows()[(position >> 48) as int],
            r@.len() == RF as int,
    {
        let idx = ShardIdx::from_position(position);
        proof {
            assert(self.shards.spec_rows().len() == self.shards.spec_table().len());
            assert(self.spec_rows()[(position >> 48) as int] == self.shards.spec_table()[(
            position >> 48) as int].spec_nodes());
        }
        let rs = self.shards.replica_set(idx);
        rs.to_vec()
    }

    /// Adds a node to the keyspace: the node claims one or more intervals,
    /// and the returned plan lists what each newly assigned node must pull.
    /// On failure the keyspace is unchanged.
    pub fn add_node(&mut self, node: N) -> (r: KeyspaceResult<MigrationPlan<N>>)
        requires
            old(self).wf(),
            old(self).spec_version() < u64::MAX,
        ensures
            match r {
                Ok(plan) => {
                    &&& final(self).wf()
                    &&& final(self).spec_version() == old(self).spec_version() + 1
                    &&& plan.wf()
                    &&& plan.spec_version() == final(self).spec_version()
                    &&& final(self).spec_contains_node(node.spec_id())
                    &&& forall|v: <N::Id as View>::V|
                        v != node.spec_id() ==> (#[trigger] final(self).spec_contains_node(v)
                            <==> old(self).spec_contains_node(v))
                    &&& R::spec_accepts_all() ==> forall|i: int|
                        0 <= i < SHARD_COUNT ==> #[trigger] final(self).spec_rows()[i] == Shards::<
                            N,
                            RF,
                        >::spec_full_row(final(self).spec_node_entries(), i as u16, RF as int)
                    &&& forall|a: int|
                        0 <= a < plan.spec_target_ids().len()
                            ==> crate::migration::spec_entry_matches(
                            old(self).spec_rows(),
                            plan.spec_ivs()[a],
                            crate::migration::spec_target_shards(
                                old(self).spec_rows(),
                                final(self).spec_rows(),
                                #[trigger] plan.spec_target_ids()[a],
                                SHARD_COUNT as int,
                            ),
                        )
                    &&& forall|t: <N::Id as View>::V|
                        #[trigger] crate::migration::spec_target_shards(
                            old(self).spec_rows(),
                            final(self).spec_rows(),
                            t,
                            SHARD_COUNT as int,
                        ).len() > 0 ==> plan.spec_has_target(t)
                    &&& R::spec_accepts_all() && !old(self).spec_contains_node(node.spec_id())
                        ==> plan.spec_target_ids().len() <= 1 && forall|a: int|
                        0 <= a < plan.spec_target_ids().len()
                            ==> #[trigger] plan.spec_target_ids()[a] == node.spec_id()
                    &&& !old(self).spec_contains_node(node.spec_id()) ==> {
                        &&& final(self).spec_node_entries().len() == old(
                            self,
                        ).spec_node_entries().len() + 1
                        &&& final(self).spec_node_entries().take(
                            old(self).spec_node_entries().len() as int,
                        ) == old(self).spec_node_entries()
                        &&& final(self).spec_node_entries().last().spec_node() == node
                    }
                    &&& old(self).spec_contains_node(node.spec_id()) ==> exists|ix: int|
                        #[trigger] crate::node::spec_replaced_at(
                            old(self).spec_node_entries(),
                            final(self).spec_node_entries(),
                            node,
                            ix,
                        )
                },
                Err(e) => {
                    &&& *final(self) == *old(self)
                    &&& e == KeyspaceError::IncompleteReplicaSet
                },
            },
            R::spec_accepts_all() ==> r is Ok,
    {
        let ghost node_idv = node.spec_id();
        let mut new_nodes = self.nodes.duplicate();
        proof {
            assert(new_nodes.spec_ids() == self.nodes.spec_ids());
            assert(new_nodes.wf());
        }
        new_nodes.insert(node);
        let new_shards = match Shards::<N, RF>::new(
            &new_nodes,
            self.replication_strategy.clone(),
        ) {
            Ok(s) => s,
            Err(e) => {
                proof {
                    assert(new_nodes.spec_entries().len() >= RF as int);
                }
                return Err(e);
            },
        };
        let plan = match MigrationPlan::new(self.version + 1, &self.shards, &new_shards) {
            Ok(p) => p,
            Err(e) => {
                proof {
                    // both tables carry the fixed shard count, so the diff
                    // cannot see a length mismatch
                    assert(false);
                }
                return Err(e);
            },
        };
        let nn_len = new_nodes.len();
        let ghost pre = *self;
        self.nodes = new_nodes;
        self.shards = new_shards;
        self.version = self.version + 1;
        proof {
            if pre.nodes.spec_contains_id(node_idv) {
                let ix = pre.nodes.spec_idx_of(node_idv);
                lemma_contains_after_set(pre.spec_node_ids(), self.spec_node_ids(), ix);
                assert(crate::node::spec_replaced_at(
                    pre.spec_node_entries(),
                    self.spec_node_entries(),
                    node,
                    ix,
                ));
            } else {
                assert(self.spec_node_entries() =~= pre.spec_node_entries().push(
                    self.spec_node_entries().last(),
                )) by {
                    let flen = self.spec_node_entries().len() as int;
                    assert forall|k: int| 0 <= k < flen - 1 implies self.spec_node_entries()[k]
                        == pre.spec_node_entries()[k] by {
                        assert(self.spec_node_entries().take(flen - 1)[k]
                            == self.spec_node_entries()[k]);
                    }
                }
                assert(self.spec_node_ids() =~= pre.spec_node_ids().push(node_idv)) by {
                    let flen = self.spec_node_entries().len() as int;
                    assert forall|k: int| 0 <= k < flen - 1 implies self.spec_node_ids()[k]
                        == pre.spec_node_ids()[k] by {
                        assert(self.spec_node_entries().take(flen - 1)[k]
                            == self.spec_node_entries()[k]);
                    }
                }
                lemma_contains_after_push(pre.spec_node_ids(), self.spec_node_ids(), node_idv);
                if R::spec_accepts_all() {
                    let xref = self.spec_node_entries().last();
                    assert(xref.spec_id() == node_idv);
                    assert forall|i: int, t: <N::Id as View>::V|
                        0 <= i < SHARD_COUNT as int && t != node_idv
                            && #[trigger] crate::replication::ids_of(
                            self.spec_rows()[i],
                        ).contains(t) implies crate::replication::ids_of(
                        pre.spec_rows()[i],
                    ).contains(t) by {
                        assert(pre.spec_rows()[i] == Shards::<N, RF>::spec_full_row(
                            pre.spec_node_entries(),
                            i as u16,
                            RF as int,
                        ));
                        assert(self.spec_rows()[i] == Shards::<N, RF>::spec_full_row(
                            self.spec_node_entries(),
                            i as u16,
                            RF as int,
                        ));
                        crate::sharding::lemma_order_prefix_locality(
                            pre.spec_node_entries(),
                            xref,
                            crate::sharding::spec_shard_anchor(i as u16),
                            RF as int,
                        );
                    }
                    crate::migration::lemma_plan_keys_only_added(
                        plan,
                        pre.spec_rows(),
                        self.spec_rows(),
                        node_idv,
                        SHARD_COUNT as int,
                    );
                }
            }
        }
        Ok(plan)
    }

    /// Removes the node with the given id from the keyspace; the returned
    /// plan lists what each newly assigned node must pull, and never asks
    /// the removed node itself to pull anything. On failure the keyspace is
    /// unchanged.
    pub fn remove_node(&mut self, node_id: &N::Id) -> (r: KeyspaceResult<MigrationPlan<N>>)
        requires
            old(self).wf(),
            old(self).spec_version() < u64::MAX,
        ensures
            match r {
                Ok(plan) => {
                    &&& final(self).wf()
                    &&& final(self).spec_version() == old(self).spec_version() + 1
                    &&& plan.wf()
                    &&& plan.spec_version() == final(self).spec_version()
                    &&& !final(self).spec_contains_node(node_id@)
                    &&& !plan.spec_has_target(node_id@)
                    &&& old(self).spec_contains_node(node_id@) ==> exists|ix: int|
                        #[trigger] crate::node::spec_removed_at(
                            old(self).spec_node_entries(),
                            final(self).spec_node_entries(),
                            node_id@,
                            ix,
                        )
                    &&& !old(self).spec_contains_node(node_id@)
                        ==> final(self).spec_node_entries() == old(self).spec_node_entries()
                    &&& forall|v: <N::Id as View>::V|
                        v != node_id@ ==> (#[trigger] final(self).spec_contains_node(v) <==> old(
                            self,
                        ).spec_contains_node(v))
                    &&& R::spec_accepts_all() ==> forall|i: int|
                        0 <= i < SHARD_COUNT ==> #[trigger] final(self).spec_rows()[i] == Shards::<
                            N,
                            RF,
                        >::spec_full_row(final(self).spec_node_entries(), i as u16, RF as int)
                    &&& forall|a: int|
                        0 <= a < plan.spec_target_ids().len()
                            ==> crate::migration::spec_entry_matches(
                            old(self).spec_rows(),
                            plan.spec_ivs()[a],
                            crate::migration::spec_target_shards(
                                old(self).spec_rows(),
                                final(self).spec_rows(),
                                #[trigger] plan.spec_target_ids()[a],
                                SHARD_COUNT as int,
                            ),
                        )
                    &&& forall|t: <N::Id as View>::V|
                        #[trigger] crate::migration::spec_target_shards(
                            old(self).spec_rows(),
                            final(self).spec_rows(),
                            t,
                            SHARD_COUNT as int,
                        ).len() > 0 ==> plan.spec_has_target(t)
                },
                Err(e) => {
                    &&& *final(self) == *old(self)
                    &&& (e == KeyspaceError::NotEnoughNodes(RF) || e
                        == KeyspaceError::IncompleteReplicaSet)
                },
            },
            (r matches Err(e) && e == KeyspaceError::NotEnoughNodes(RF)) <==> (if old(
                self,
            ).spec_contains_node(node_id@) {
                old(self).spec_node_entries().len() - 1
            } else {
                old(self).spec_node_entries().len() as int
            }) < RF as int,
            R::spec_accepts_all() && (if old(self).spec_contains_node(node_id@) {
                old(self).spec_node_entries().len() - 1
            } else {
                old(self).spec_node_entries().len() as int
            }) >= RF as int ==> r is Ok,
    {
        let mut new_nodes = self.nodes.duplicate();
        proof {
            assert(new_nodes.spec_ids() == self.nodes.spec_ids());
            assert(new_nodes.wf());
        }
        new_nodes.remove(node_id);
        let new_shards = match Shards::<N, RF>::new(
            &new_nodes,
            self.replication_strategy.clone(),
        ) {
            Ok(s) => s,
            Err(e) => {
                return Err(e);
            },
        };
        let plan = match MigrationPlan::new(self.version + 1, &self.shards, &new_shards) {
            Ok(p) => p,
            Err(e) => {
                proof {
                    // both tables carry the fixed shard count, so the diff
                    // cannot see a length mismatch
                    assert(false);
                }
                return Err(e);
            },
        };
        let ghost pre = *self;
        self.nodes = new_nodes;
        self.shards = new_shards;
        self.version = self.version + 1;
        proof {
            if pre.nodes.spec_contains_id(node_id@) {
                let ix = pre.nodes.spec_idx_of(node_id@);
                assert(self.spec_node_entries() == pre.spec_node_entries().remove(ix));
                assert(self.spec_node_ids() =~= pre.spec_node_ids().remove(ix)) by {
                    assert forall|k: int| 0 <= k < self.spec_node_ids().len() implies
                        self.spec_node_ids()[k] == pre.spec_node_ids().remove(ix)[k] by {
                        assert(self.spec_node_entries()[k] == pre.spec_node_entries().remove(
                            ix,
                        )[k]);
                        if k < ix {
                            assert(pre.spec_node_entries().remove(ix)[k]
                                == pre.spec_node_entries()[k]);
                        } else {
                            assert(pre.spec_node_entries().remove(ix)[k]
                                == pre.spec_node_entries()[k + 1]);
                        }
                    }
                }
                lemma_contains_after_remove(pre.spec_node_ids(), self.spec_node_ids(), ix);
                assert(crate::node::spec_removed_at(
                    pre.spec_node_entries(),
                    self.spec_node_entries(),
                    node_id@,
                    ix,
                ));
            } else {
                assert(self.spec_node_ids() == pre.spec_node_ids());
            }
            self.lemma_absent_id_not_target(plan, pre, node_id@);
        }
        Ok(plan)
    }

    /// An identity that is in no replica set of the current table is no
    /// migration target of a plan that diffs into this table.
    proof fn lemma_absent_id_not_target(
        self,
        plan: MigrationPlan<N>,
        pre: Self,
        t: <N::Id as View>::V,
    )
        requires
            plan.wf(),
            self.spec_shards_wf(),
            !self.nodes.spec_contains_id(t),
            forall|a: int|
                0 <= a < plan.spec_target_ids().len() ==> crate::migration::spec_entry_matches(
                    pre.spec_rows(),
                    plan.spec_ivs()[a],
                    crate::migration::spec_target_shards(
                        pre.spec_rows(),
                        self.spec_rows(),
                        #[trigger] plan.spec_target_ids()[a],
                        SHARD_COUNT as int,
                    ),
                ),
        ensures
            !plan.spec_has_target(t),
    {
        if plan.spec_has_target(t) {
            let a = choose|a: int|
                0 <= a < plan.spec_target_ids().len() && plan.spec_target_ids()[a] == t;
            assert(plan.spec_ivs()[a].len() > 0);
            assert(crate::migration::spec_target_shards(
                pre.spec_rows(),
                self.spec_rows(),
                t,
                SHARD_COUNT as int,
            ).len() > 0);
            crate::migration::lemma_target_has_shard(
                pre.spec_rows(),
                self.spec_rows(),
                t,
                SHARD_COUNT as int,
            );
            let i = choose|i: int|
                0 <= i < SHARD_COUNT as int
                    && #[trigger] crate::migration::spec_is_target(
                    pre.spec_rows()[i],
                    self.spec_rows()[i],
                    t,
                );
            crate::replication::lemma_ids_of_witness(self.spec_rows()[i], t);
            let m = choose|m: int|
                0 <= m < self.spec_rows()[i].len() && (#[trigger] self.spec_rows()[i][m]).spec_id()
                    == t;
            assert(self.nodes.spec_entries().contains(self.spec_rows()[i][m]));
            let w = choose|w: int|
                0 <= w < self.nodes.spec_entries().len() && self.nodes.spec_entries()[w]
                    == self.spec_rows()[i][m];
            assert(self.nodes.spec_ids()[w] == t);
            assert(self.nodes.spec_ids().contains(t)) by {
                assert(self.nodes.spec_ids()[w] == t);
            }
            assert(false);
        }
    }

    /// Applies a batch of additions and removals atomically: from the
    /// callers' view the additions land first, and a node that is both
    /// added and removed stays present — the addition wins. On failure the
    /// keyspace is unchanged.
    pub fn update_nodes(&mut self, to_add: Vec<N>, to_remove: Vec<N::Id>) -> (r: KeyspaceResult<
        MigrationPlan<N>,
    >)
        requires
            old(self).wf(),
            old(self).spec_version() < u64::MAX,
        ensures
            match r {
                Ok(plan) => {
                    &&& final(self).wf()
                    &&& final(self).spec_version() == old(self).spec_version() + 1
                    &&& plan.wf()
                    &&& plan.spec_version() == final(self).spec_version()
                    &&& forall|v: <N::Id as View>::V|
                        #[trigger] final(self).spec_contains_node(v) <==> (spec_node_ids_of(
                            to_add@,
                        ).contains(v) || (old(self).spec_contains_node(v)
                            && !crate::migration::id_views::<N>(to_remove@).contains(v)))
                    &&& R::spec_accepts_all() ==> forall|i: int|
                        0 <= i < SHARD_COUNT ==> #[trigger] final(self).spec_rows()[i] == Shards::<
                            N,
                            RF,
                        >::spec_full_row(final(self).spec_node_entries(), i as u16, RF as int)
                    &&& forall|a: int|
                        0 <= a < plan.spec_target_ids().len()
                            ==> crate::migration::spec_entry_matches(
                            old(self).spec_rows(),
                            plan.spec_ivs()[a],
                            crate::migration::spec_target_shards(
                                old(self).spec_rows(),
                                final(self).spec_rows(),
                                #[trigger] plan.spec_target_ids()[a],
                                SHARD_COUNT as int,
                            ),
                        )
                    &&& forall|t: <N::Id as View>::V|
                        #[trigger] crate::migration::spec_target_shards(
                            old(self).spec_rows(),
                            final(self).spec_rows(),
                            t,
                            SHARD_COUNT as int,
                        ).len() > 0 ==> plan.spec_has_target(t)
                    &&& forall|j: int|
                        0 <= j < to_remove@.len() && !spec_node_ids_of(to_add@).contains(
                            (#[trigger] to_remove@[j])@,
                        ) ==> !plan.spec_has_target(to_remove@[j]@)
                },
                Err(e) => {
                    &&& *final(self) == *old(self)
                    &&& (e == KeyspaceError::NotEnoughNodes(RF) || e
                        == KeyspaceError::IncompleteReplicaSet)
                },
            },
            (r matches Err(e) && e == KeyspaceError::NotEnoughNodes(RF))
                <==> Self::spec_batch_result_ids(old(self).spec_node_ids(), to_add@, to_remove@).len()
                < RF as int,
            R::spec_accepts_all() && Self::spec_batch_result_ids(
                old(self).spec_node_ids(),
                to_add@,
                to_remove@,
            ).len() >= RF as int ==> r is Ok,
    {
        // the ids being added, for the add-wins rule
        let mut added_ids: Vec<N::Id> = Vec::new();
        let mut j: usize = 0;
        while j < to_add.len()
            invariant
                j <= to_add@.len(),
                added_ids@.len() == j,
                forall|m: int|
                    0 <= m < j ==> (#[trigger] added_ids@[m])@ == to_add@[m].spec_id(),
            decreases to_add@.len() - j,
        {
            added_ids.push(N::id_clone(to_add[j].id()));
            j = j + 1;
        }
        let mut new_nodes = self.nodes.duplicate();
        proof {
            assert(new_nodes.spec_ids() == self.nodes.spec_ids());
            assert(new_nodes.wf());
        }
        // additions first
        let mut rest = to_add;
        let total: usize = rest.len();
        let ghost all_add = rest@;
        let mut k: usize = 0;
        while k < total
            invariant
                new_nodes.wf(),
                total == all_add.len(),
                k <= total,
                rest@ == all_add.skip(k as int),
                forall|v: <N::Id as View>::V|
                    #[trigger] new_nodes.spec_contains_id(v) <==> (old(self).spec_contains_node(v)
                        || spec_node_ids_of(all_add).take(k as int).contains(v)),
            decreases total - k,
        {
            let node = rest.remove(0);
            proof {
                assert(all_add.skip(k as int)[0] == all_add[k as int]);
                assert(rest@ =~= all_add.skip(k as int + 1));
            }
            let ghost v0 = node.spec_id();
            let ghost pre = new_nodes;
            new_nodes.insert(node);
            proof {
                if pre.spec_contains_id(v0) {
                    let ix = pre.spec_idx_of(v0);
                    lemma_contains_after_set(pre.spec_ids(), new_nodes.spec_ids(), ix);
                } else {
                    assert(new_nodes.spec_ids() =~= pre.spec_ids().push(v0)) by {
                        let flen = new_nodes.spec_entries().len() as int;
                        assert forall|m: int| 0 <= m < flen - 1 implies new_nodes.spec_ids()[m]
                            == pre.spec_ids()[m] by {
                            assert(new_nodes.spec_entries().take(flen - 1)[m]
                                == new_nodes.spec_entries()[m]);
                        }
                    }
                    lemma_contains_after_push(pre.spec_ids(), new_nodes.spec_ids(), v0);
                }
                assert(spec_node_ids_of(all_add).take(k as int + 1) =~= spec_node_ids_of(
                    all_add,
                ).take(k as int).push(v0));
                lemma_contains_after_push(
                    spec_node_ids_of(all_add).take(k as int),
                    spec_node_ids_of(all_add).take(k as int + 1),
                    v0,
                );
                assert forall|v: <N::Id as View>::V|
                    #[trigger] new_nodes.spec_contains_id(v) <==> (old(
                        self,
                    ).spec_contains_node(v) || spec_node_ids_of(all_add).take(
                        k as int + 1,
                    ).contains(v)) by {
                    if v == v0 {
                        assert(new_nodes.spec_contains_id(v0));
                        assert(spec_node_ids_of(all_add).take(k as int + 1).contains(v0)) by {
                            assert(spec_node_ids_of(all_add).take(k as int + 1)[k as int] == v0);
                        }
                    } else {
                        assert(new_nodes.spec_contains_id(v) <==> pre.spec_contains_id(v));
                        assert(spec_node_ids_of(all_add).take(k as int + 1).contains(v)
                            <==> spec_node_ids_of(all_add).take(k as int).contains(v));
                    }
                }
            }
            k = k + 1;
        }
        proof {
            assert(spec_node_ids_of(all_add).take(total as int) =~= spec_node_ids_of(all_add));
        }
        // then removals, skipping re-added ids: the addition wins
        let ghost mid = new_nodes;
        let rlen: usize = to_remove.len();
        let mut k2: usize = 0;
        while k2 < rlen
            invariant
                new_nodes.wf(),
                rlen == to_remove@.len(),
                k2 <= rlen,
                added_ids@.len() == to_add@.len(),
                forall|m: int|
                    0 <= m < added_ids@.len() ==> (#[trigger] added_ids@[m])@
                        == to_add@[m].spec_id(),
                forall|v: <N::Id as View>::V|
                    #[trigger] new_nodes.spec_contains_id(v) <==> (mid.spec_contains_id(v) && !(
                    crate::migration::id_views::<N>(to_remove@).take(k2 as int).contains(v)
                        && !spec_node_ids_of(to_add@).contains(v))),
            decreases rlen - k2,
        {
            let ghost v0 = to_remove@[k2 as int]@;
            proof {
                assert(crate::migration::id_views::<N>(to_remove@).take(k2 as int + 1)
                    =~= crate::migration::id_views::<N>(to_remove@).take(k2 as int).push(v0));
                lemma_contains_after_push(
                    crate::migration::id_views::<N>(to_remove@).take(k2 as int),
                    crate::migration::id_views::<N>(to_remove@).take(k2 as int + 1),
                    v0,
                );
            }
            let readded = Self::id_among(&added_ids, &to_remove[k2]);
            if !readded {
                let ghost pre = new_nodes;
                new_nodes.remove(&to_remove[k2]);
                proof {
                    if pre.spec_contains_id(v0) {
                        let ix = pre.spec_idx_of(v0);
                        assert(new_nodes.spec_ids() =~= pre.spec_ids().remove(ix)) by {
                            assert forall|m: int|
                                0 <= m < new_nodes.spec_ids().len() implies
                                new_nodes.spec_ids()[m] == pre.spec_ids().remove(ix)[m] by {
                                assert(new_nodes.spec_entries()[m] == pre.spec_entries().remove(
                                    ix,
                                )[m]);
                                if m < ix {
                                    assert(pre.spec_entries().remove(ix)[m]
                                        == pre.spec_entries()[m]);
                                } else {
                                    assert(pre.spec_entries().remove(ix)[m]
                                        == pre.spec_entries()[m + 1]);
                                }
                            }
                        }
                        lemma_contains_after_remove(pre.spec_ids(), new_nodes.spec_ids(), ix);
                        assert forall|v: <N::Id as View>::V|
                            #[trigger] new_nodes.spec_contains_id(v) <==> (pre.spec_contains_id(v)
                                && v != v0) by {}
                    }
                    assert(!spec_node_ids_of(to_add@).contains(v0)) by {
                        if spec_node_ids_of(to_add@).contains(v0) {
                            let w = choose|w: int|
                                0 <= w < spec_node_ids_of(to_add@).len() && spec_node_ids_of(
                                    to_add@,
                                )[w] == v0;
                            assert(added_ids@[w]@ == v0);
                            assert(crate::migration::id_views::<N>(added_ids@)[w] == v0);
                            assert(crate::migration::id_views::<N>(added_ids@).contains(v0)) by {
                                assert(crate::migration::id_views::<N>(added_ids@)[w] == v0);
                            }
                            assert(false);
                        }
                    }
                }
            } else {
                proof {
                    assert(spec_node_ids_of(to_add@).contains(v0)) by {
                        let w = choose|w: int|
                            0 <= w < crate::migration::id_views::<N>(added_ids@).len()
                                && crate::migration::id_views::<N>(added_ids@)[w] == v0;
                        assert(spec_node_ids_of(to_add@)[w] == v0);
                        assert(spec_node_ids_of(to_add@).contains(v0)) by {
                            assert(spec_node_ids_of(to_add@)[w] == v0);
                        }
                    }
                }
            }
            k2 = k2 + 1;
        }
        proof {
            assert(crate::migration::id_views::<N>(to_remove@).take(rlen as int)
                =~= crate::migration::id_views::<N>(to_remove@));
            // the container now holds exactly the batch's resulting id set
            assert forall|v: <N::Id as View>::V|
                #[trigger] new_nodes.spec_contains_id(v) <==> (spec_node_ids_of(
                    to_add@,
                ).contains(v) || (old(self).spec_contains_node(v)
                    && !crate::migration::id_views::<N>(to_remove@).contains(v))) by {
                assert(new_nodes.spec_contains_id(v) <==> (mid.spec_contains_id(v) && !(
                crate::migration::id_views::<N>(to_remove@).contains(v) && !spec_node_ids_of(
                    all_add,
                ).contains(v))));
                assert(mid.spec_contains_id(v) <==> (old(self).spec_contains_node(v)
                    || spec_node_ids_of(all_add).contains(v)));
                assert(spec_node_ids_of(all_add) == spec_node_ids_of(to_add@));
            }
            assert(new_nodes.spec_ids().no_duplicates()) by {
                assert forall|i: int, j: int|
                    0 <= i < new_nodes.spec_ids().len() && 0 <= j < new_nodes.spec_ids().len()
                        && i != j implies new_nodes.spec_ids()[i] != new_nodes.spec_ids()[j] by {
                    if i < j {
                    } else {
                    }
                }
            }
            new_nodes.spec_ids().unique_seq_to_set();
            assert(new_nodes.spec_ids().to_set() =~= Self::spec_batch_result_ids(
                old(self).spec_node_ids(),
                to_add@,
                to_remove@,
            )) by {
                assert forall|v: <N::Id as View>::V|
                    new_nodes.spec_ids().to_set().contains(v) <==> Self::spec_batch_result_ids(
                        old(self).spec_node_ids(),
                        to_add@,
                        to_remove@,
                    ).contains(v) by {
                    assert(new_nodes.spec_ids().to_set().contains(v)
                        <==> new_nodes.spec_ids().contains(v));
                    assert(new_nodes.spec_contains_id(v) == new_nodes.spec_ids().contains(v));
                    assert(Self::spec_batch_result_ids(
                        old(self).spec_node_ids(),
                        to_add@,
                        to_remove@,
                    ).contains(v) == (spec_node_ids_of(to_add@).to_set().contains(v) || (old(
                        self,
                    ).spec_node_ids().to_set().contains(v)
                        && !crate::migration::id_views::<N>(to_remove@).to_set().contains(v))));
                    assert(spec_node_ids_of(to_add@).to_set().contains(v) <==> spec_node_ids_of(
                        to_add@,
                    ).contains(v));
                    assert(old(self).spec_node_ids().to_set().contains(v) <==> old(
                        self,
                    ).spec_node_ids().contains(v));
                    assert(crate::migration::id_views::<N>(to_remove@).to_set().contains(v)
                        <==> crate::migration::id_views::<N>(to_remove@).contains(v));
                }
            }
            assert(new_nodes.spec_entries().len() == Self::spec_batch_result_ids(
                old(self).spec_node_ids(),
                to_add@,
                to_remove@,
            ).len());
        }
        let new_shards = match Shards::<N, RF>::new(
            &new_nodes,
            self.replication_strategy.clone(),
        ) {
            Ok(s) => s,
            Err(e) => {
                return Err(e);
            },
        };
        let plan = match MigrationPlan::new(self.version + 1, &self.shards, &new_shards) {
            Ok(p) => p,
            Err(e) => {
                proof {
                    // both tables carry the fixed shard count, so the diff
                    // cannot see a length mismatch
                    assert(false);
                }
                return Err(e);
            },
        };
        let ghost pre_state = *self;
        self.nodes = new_nodes;
        self.shards = new_shards;
        self.version = self.version + 1;
        proof {
            assert forall|v: <N::Id as View>::V|
                #[trigger] self.spec_contains_node(v) <==> (spec_node_ids_of(to_add@).contains(v)
                    || (old(self).spec_contains_node(v) && !crate::migration::id_views::<N>(
                    to_remove@,
                ).contains(v))) by {
                assert(self.spec_contains_node(v) == self.nodes.spec_contains_id(v));
                assert(self.nodes.spec_contains_id(v) <==> (mid.spec_contains_id(v) && !(
                crate::migration::id_views::<N>(to_remove@).contains(v) && !spec_node_ids_of(
                    all_add,
                ).contains(v))));
                assert(mid.spec_contains_id(v) <==> (old(self).spec_contains_node(v)
                    || spec_node_ids_of(all_add).contains(v)));
                assert(spec_node_ids_of(all_add) == spec_node_ids_of(to_add@));
            }
            assert forall|j: int|
                0 <= j < to_remove@.len() && !spec_node_ids_of(to_add@).contains(
                    (#[trigger] to_remove@[j])@,
                ) implies !plan.spec_has_target(to_remove@[j]@) by {
                let v = to_remove@[j]@;
                assert(crate::migration::id_views::<N>(to_remove@)[j] == v);
                assert(crate::migration::id_views::<N>(to_remove@).contains(v)) by {
                    assert(crate::migration::id_views::<N>(to_remove@)[j] == v);
                }
                assert(!self.spec_contains_node(v));
                assert(!self.nodes.spec_contains_id(v));
                self.lemma_absent_id_not_target(plan, pre_state, v);
            }
        }
        Ok(plan)
    }

    /// The node identities a batch update leaves behind: the added ids,
    /// and the prior ids that are not removed; an id both added and removed
    /// stays.
    pub open spec fn spec_batch_result_ids(
        prior: Seq<<N::Id as View>::V>,
        to_add: Seq<N>,
        to_remove: Seq<N::Id>,
    ) -> Set<<N::Id as View>::V> {
        spec_node_ids_of(to_add).to_set().union(
            prior.to_set().difference(crate::migration::id_views::<N>(to_remove).to_set()),
        )
    }

    fn id_among(ids: &Vec<N::Id>, id: &N::Id) -> (r: bool)
        ensures
            r == crate::migration::id_views::<N>(ids@).contains(id@),
    {
        let mut a: usize = 0;
        while a < ids.len()
            invariant
                a <= ids@.len(),
                forall|m: int|
                    0 <= m < a ==> crate::migration::id_views::<N>(ids@)[m] != id@,
            decreases ids@.len() - a,
        {
            if N::id_eq(&ids[a], id) {
                proof {
                    assert(crate::migration::id_views::<N>(ids@)[a as int] == ids@[a as int]@);
                    assert(crate::migration::id_views::<N>(ids@).contains(id@)) by {
                        assert(crate::migration::id_views::<N>(ids@)[a as int] == id@);
                    }
                }
                return true;
            }
            proof {
                assert(crate::migration::id_views::<N>(ids@)[a as int] == ids@[a as int]@);
            }
            a = a + 1;
        }
        proof {
            if crate::migration::id_views::<N>(ids@).contains(id@) {
                let m = choose|m: int|
                    0 <= m < crate::migration::id_views::<N>(ids@).len()
                        && crate::migration::id_views::<N>(ids@)[m] == id@;
                assert(false);
            }
        }
        false
    }

    /// The whole assignment as (key range, node handle) tuples: one tuple
    /// per shard and replica, in shard order, each shard's replicas in
    /// selection order.
    pub fn iter(&self) -> (r: Vec<(KeyRange, NodeRef<N>)>)
        requires
            self.wf(),
        ensures
            r@.len() == SHARD_COUNT * RF,
            forall|i: int, k: int|
                0 <= i < SHARD_COUNT && 0 <= k < RF as int ==> #[trigger] r@[i * RF + k] == (
                crate::sharding::spec_shard_range(i),
                self.spec_rows()[i][k],
                ),
    {
        let mut out: Vec<(KeyRange, NodeRef<N>)> = Vec::new();
        let mut i: usize = 0;
        proof {
            assert(self.shards.spec_rows().len() == self.shards.spec_table().len());
        }
        while i < SHARD_COUNT
            invariant
                self.wf(),
                self.shards.spec_rows().len() == self.shards.spec_table().len(),
                i <= SHARD_COUNT,
                out@.len() == i * RF,
                forall|a: int, b: int|
                    0 <= a < i && 0 <= b < RF as int ==> #[trigger] out@[a * RF + b] == (
                    crate::sharding::spec_shard_range(a),
                    self.spec_rows()[a][b],
                    ),
            decreases SHARD_COUNT - i,
        {
            let range = crate::sharding::shard_range_of(i as u16);
            let rs = self.shards.row(i);
            proof {
                assert(rs.spec_nodes() == self.spec_rows()[i as int]);
                assert(rs.spec_nodes().len() == RF as int);
            }
            let mut k: usize = 0;
            while k < RF
                invariant
                    self.wf(),
                    i < SHARD_COUNT,
                    k <= RF,
                    *rs == self.shards.spec_table()[i as int],
                    rs.spec_nodes() == self.spec_rows()[i as int],
                    rs.spec_nodes().len() == RF as int,
                    range == crate::sharding::spec_shard_range(i as int),
                    out@.len() == i * RF + k,
                    forall|a: int, b: int|
                        0 <= a < i && 0 <= b < RF as int ==> #[trigger] out@[a * RF + b] == (
                        crate::sharding::spec_shard_range(a),
                        self.spec_rows()[a][b],
                        ),
                    forall|b: int|
                        0 <= b < k ==> #[trigger] out@[i * RF + b] == (
                        crate::sharding::spec_shard_range(i as int),
                        self.spec_rows()[i as int][b],
                        ),
                decreases RF - k,
            {
                proof {
                    assert(i * RF + k < (i + 1) * RF <= SHARD_COUNT * RF) by (nonlinear_arith)
                        requires
                            0 <= k < RF,
                            0 <= i < SHARD_COUNT,
                    ;
                }
                out.push((range, rs.get(k).clone()));
                k = k + 1;
                proof {
                    assert forall|a: int, b: int|
                        0 <= a < i && 0 <= b < RF as int implies #[trigger] out@[a * RF + b] == (
                    crate::sharding::spec_shard_range(a),
                    self.spec_rows()[a][b],
                    ) by {
                        assert(a * RF + b < i * RF) by (nonlinear_arith)
                            requires
                                0 <= a < i,
                                0 <= b < RF,
                        ;
                    }
                }
            }
            i = i + 1;
            proof {
                assert(i * RF == (i - 1) * RF + RF) by (nonlinear_arith);
                assert forall|a: int, b: int|
                    0 <= a < i && 0 <= b < RF as int implies #[trigger] out@[a * RF + b] == (
                crate::sharding::spec_shard_range(a),
                self.spec_rows()[a][b],
                ) by {
                    assert(a * RF + b < i * RF) by (nonlinear_arith)
                        requires
                            0 <= a < i,
                            0 <= b < RF,
                    ;
                }
            }
        }
        out
    }

    /// The key ranges on which the node with the given id is a replica, in
    /// shard order.
    pub fn iter_node(&self, node_id: &N::Id) -> (r: Vec<KeyRange>)
        requires
            self.wf(),
        ensures
            r@.len() == spec_member_shards(self.spec_rows(), node_id@, SHARD_COUNT as int).len(),
            forall|m: int|
                0 <= m < r@.len() ==> #[trigger] r@[m] == crate::sharding::spec_shard_range(
                    spec_member_shards(self.spec_rows(), node_id@, SHARD_COUNT as int)[m],
                ),
    {
        let mut out: Vec<KeyRange> = Vec::new();
        let mut i: usize = 0;
        proof {
            assert(self.shards.spec_rows().len() == self.shards.spec_table().len());
        }
        while i < SHARD_COUNT
            invariant
                self.wf(),
                self.shards.spec_rows().len() == self.shards.spec_table().len(),
                i <= SHARD_COUNT,
                out@.len() == spec_member_shards(self.spec_rows(), node_id@, i as int).len(),
                forall|m: int|
                    0 <= m < out@.len() ==> #[trigger] out@[m] == crate::sharding::spec_shard_range(
                        spec_member_shards(self.spec_rows(), node_id@, i as int)[m],
                    ),
            decreases SHARD_COUNT - i,
        {
            let rs = self.shards.row(i);
            proof {
                assert(rs.spec_nodes() == self.spec_rows()[i as int]);
            }
            if rs.contains_id(node_id) {
                let range = crate::sharding::shard_range_of(i as u16);
                out.push(range);
            }
            i = i + 1;
        }
        out
    }

    /// Stability of reads: the replica set of a position is a function of
    /// the keyspace state, so repeated queries at the same position on an
    /// unchanged keyspace return the same handles, primary first.
    pub proof fn lemma_replicas_stable(
        &self,
        position: u64,
        r1: Seq<NodeRef<N>>,
        r2: Seq<NodeRef<N>>,
    )
        requires
            r1 == self.spec_rows()[(position >> 48) as int],
            r2 == self.spec_rows()[(position >> 48) as int],
        ensures
            r1 == r2,
    {
    }

    /// The replica set responsible for the given key: the key is positioned
    /// by the stable hash, and the replica set of its shard is returned,
    /// primary first, with exactly `RF` handles.
    pub fn replicas<K: core::hash::Hash + ?Sized>(&self, key: &K) -> (r: Vec<NodeRef<N>>)
        requires
            self.wf(),
        ensures
            exists|p: u64| r@ == self.spec_rows()[((#[trigger] (p >> 48)) as int)],
            r@.len() == RF as int,
    {
        let position = key_position_of(key);
        let r = self.replicas_at(position);
        proof {
            assert(r@ == self.spec_rows()[(position >> 48) as int]);
        }
        r
    }
}

} // verus!
