use vstd::prelude::*;

use crate::error::{KeyspaceError, KeyspaceResult};
use crate::node::{KeyspaceNode, NodeRef};

verus! {

/// Replication strategy: decides which nodes may enter the replica set
/// under construction.
///
/// One instance operates on a single shard's replica set and may carry
/// per-set state (say, the availability zones already used); the engine
/// clones a fresh instance for every shard, so state never leaks from one
/// shard to the next.
pub trait ReplicationStrategy<N: KeyspaceNode>: Sized + Clone {
    /// Whether this strategy admits every candidate in every state. The
    /// engine promises an exact selection for such strategies; by default
    /// nothing is promised.
    open spec fn spec_accepts_all() -> bool {
        false
    }

    /// Checks if the given node may join the replica set being formed.
    fn is_eligible_replica(&mut self, node: &N) -> (r: bool)
        ensures
            Self::spec_accepts_all() ==> r,
    ;
}

/// The default replication strategy: any node is suitable.
#[derive(Debug, Clone, Copy)]
pub struct DefaultReplicationStrategy {}

impl DefaultReplicationStrategy {
    /// Creates a new instance of the default replication strategy.
    pub fn new() -> (r: Self) {
        DefaultReplicationStrategy {  }
    }
}

impl Default for DefaultReplicationStrategy {
    fn default() -> (r: Self) {
        DefaultReplicationStrategy::new()
    }
}

impl<N: KeyspaceNode> ReplicationStrategy<N> for DefaultReplicationStrategy {
    open spec fn spec_accepts_all() -> bool {
        true
    }

    fn is_eligible_replica(&mut self, _node: &N) -> (r: bool) {
        true
    }
}

/// The ordered tuple of node handles assigned to one shard.
///
/// It holds exactly `RF` handles; the first is the primary by convention.
/// Two replica sets assign the same shard equivalently exactly when they
/// hold the same set of node ids, whatever the order: only membership moves
/// data.
pub struct ReplicaSet<N, const RF: usize> {
    nodes: Vec<NodeRef<N>>,
}

/// The identities of a sequence of node handles, as a set.
pub open spec fn ids_of<N: KeyspaceNode>(s: Seq<NodeRef<N>>) -> Set<<N::Id as View>::V> {
    s.map_values(|n: NodeRef<N>| n.spec_id()).to_set()
}

pub proof fn lemma_ids_of_witness<N: KeyspaceNode>(row: Seq<NodeRef<N>>, t: <N::Id as View>::V)
    requires
        ids_of(row).contains(t),
    ensures
        exists|m: int| 0 <= m < row.len() && (#[trigger] row[m]).spec_id() == t,
{
    let mapped = row.map_values(|n: NodeRef<N>| n.spec_id());
    assert(mapped.contains(t));
    let m = choose|m: int| 0 <= m < mapped.len() && mapped[m] == t;
    assert(row[m].spec_id() == t);
}

pub proof fn lemma_ids_of_intro<N: KeyspaceNode>(row: Seq<NodeRef<N>>, m: int)
    requires
        0 <= m < row.len(),
    ensures
        ids_of(row).contains(row[m].spec_id()),
{
    let mapped = row.map_values(|n: NodeRef<N>| n.spec_id());
    assert(mapped[m] == row[m].spec_id());
    assert(mapped.contains(row[m].spec_id())) by {
        assert(mapped[m] == row[m].spec_id());
    }
}

/// Whether two replica-node sequences name the same set of nodes.
pub open spec fn same_ids<N: KeyspaceNode>(a: Seq<NodeRef<N>>, b: Seq<NodeRef<N>>) -> bool {
    ids_of(a) == ids_of(b)
}

impl<N: KeyspaceNode, const RF: usize> ReplicaSet<N, RF> {
    /// The handles of the set, in selection order.
    pub closed spec fn spec_nodes(&self) -> Seq<NodeRef<N>> {
        self.nodes@
    }

    /// The set holds exactly the replication factor many handles.
    pub open spec fn wf(&self) -> bool {
        self.spec_nodes().len() == RF as int
    }

    /// Forms a replica set from the first `RF` candidates, in order. Fails
    /// with `IncompleteReplicaSet` when fewer than `RF` candidates are
    /// given.
    pub fn try_from_iter(candidates: Vec<NodeRef<N>>) -> (r: KeyspaceResult<Self>)
        ensures
            candidates@.len() >= RF ==> (match r {
                Ok(rs) => rs.wf() && rs.spec_nodes() == candidates@.take(RF as int),
                Err(_) => false,
            }),
            candidates@.len() < RF ==> r == KeyspaceResult::<Self>::Err(
                KeyspaceError::IncompleteReplicaSet,
            ),
    {
        if candidates.len() < RF {
            return Err(KeyspaceError::IncompleteReplicaSet);
        }
        let mut candidates = candidates;
        let ghost all = candidates@;
        candidates.truncate(RF);
        proof {
            assert(candidates@ =~= all.take(RF as int));
        }
        Ok(ReplicaSet { nodes: candidates })
    }

    /// Number of handles in the set: always the replication factor.
    pub fn len(&self) -> (r: usize)
        ensures
            r == self.spec_nodes().len(),
    {
        self.nodes.len()
    }

    /// The handle at the given position; position zero is the primary.
    pub fn get(&self, i: usize) -> (r: &NodeRef<N>)
        requires
            i < self.spec_nodes().len(),
        ensures
            *r == self.spec_nodes()[i as int],
    {
        &self.nodes[i]
    }

    /// All handles of the set, in selection order.
    pub fn to_vec(&self) -> (r: Vec<NodeRef<N>>)
        ensures
            r@ == self.spec_nodes(),
    {
        let mut out: Vec<NodeRef<N>> = Vec::new();
        let mut i: usize = 0;
        while i < self.nodes.len()
            invariant
                i <= self.nodes@.len(),
                out@ == self.nodes@.take(i as int),
            decreases self.nodes@.len() - i,
        {
            out.push(self.nodes[i].clone());
            i = i + 1;
            proof {
                assert(out@ =~= self.nodes@.take(i as int));
            }
        }
        proof {
            assert(out@ =~= self.nodes@);
        }
        out
    }

    /// Whether some handle in the set carries the given id.
    pub fn contains_id(&self, id: &N::Id) -> (r: bool)
        ensures
            r == ids_of(self.spec_nodes()).contains(id@),
    {
        let mut i: usize = 0;
        while i < self.nodes.len()
            invariant
                i <= self.nodes@.len(),
                forall|k: int| 0 <= k < i ==> (#[trigger] self.nodes@[k]).spec_id() != id@,
            decreases self.nodes@.len() - i,
        {
            if N::id_eq(self.nodes[i].id(), id) {
                proof {
                    let m = self.spec_nodes().map_values(|n: NodeRef<N>| n.spec_id());
                    assert(m[i as int] == id@);
                    assert(m.to_set().contains(id@)) by {
                        assert(m.contains(id@)) by {
                            assert(m[i as int] == id@);
                        }
                    }
                }
                return true;
            }
            i = i + 1;
        }
        proof {
            let m = self.spec_nodes().map_values(|n: NodeRef<N>| n.spec_id());
            if m.to_set().contains(id@) {
                let k = choose|k: int| 0 <= k < m.len() && m[k] == id@;
                assert(self.nodes@[k].spec_id() == id@);
                assert(false);
            }
        }
        false
    }
}

impl<N: KeyspaceNode, const RF: usize> Clone for ReplicaSet<N, RF> {
    fn clone(&self) -> (r: Self)
        ensures
            r.spec_nodes() == self.spec_nodes(),
    {
        let mut nodes: Vec<NodeRef<N>> = Vec::new();
        let mut i: usize = 0;
        while i < self.nodes.len()
            invariant
                i <= self.nodes@.len(),
                nodes@ == self.nodes@.take(i as int),
            decreases self.nodes@.len() - i,
        {
            nodes.push(self.nodes[i].clone());
            i = i + 1;
            proof {
                assert(nodes@ =~= self.nodes@.take(i as int));
            }
        }
        proof {
            assert(nodes@ =~= self.nodes@);
        }
        ReplicaSet { nodes }
    }
}

} // verus!
