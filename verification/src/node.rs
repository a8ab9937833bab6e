use vstd::prelude::*;

use crate::hash::node_score_key;

verus! {

/// A node that stores data.
///
/// A node controls one or more intervals of the keyspace; keys that fall
/// into such an interval are routed to the node and its replicas. Two nodes
/// denote the same member exactly when their ids view equally: the id is the
/// identity.
pub trait KeyspaceNode: Sized + core::hash::Hash {
    type Id: View;

    /// The mathematical identity of this node: the view of its id. Every
    /// implementation defines it as what `id` returns, viewed.
    open spec fn spec_id(&self) -> <Self::Id as View>::V {
        arbitrary()
    }

    /// The unique identifier of the node.
    fn id(&self) -> (r: &Self::Id)
        ensures
            r@ == self.spec_id(),
    ;

    /// Decides whether two ids denote the same node.
    fn id_eq(a: &Self::Id, b: &Self::Id) -> (r: bool)
        ensures
            r <==> (a@ == b@),
    ;

    /// An owned copy of an id, denoting the same node.
    fn id_clone(id: &Self::Id) -> (r: Self::Id)
        ensures
            r@ == id@,
    ;

    /// Relative weight of the node. Placement currently treats every node
    /// uniformly, as all built-in nodes declare the default weight.
    fn capacity(&self) -> usize {
        1
    }
}

impl KeyspaceNode for String {
    type Id = String;

    open spec fn spec_id(&self) -> Seq<char> {
        self@
    }

    fn id(&self) -> (r: &String) {
        self
    }

    fn id_eq(a: &String, b: &String) -> (r: bool) {
        a.eq(b)
    }

    fn id_clone(id: &String) -> (r: String) {
        id.clone()
    }
}

impl KeyspaceNode for &'static str {
    type Id = &'static str;

    open spec fn spec_id(&self) -> Seq<char> {
        (*self)@
    }

    fn id(&self) -> (r: &&'static str) {
        self
    }

    fn id_eq(a: &&'static str, b: &&'static str) -> (r: bool) {
        let sa: String = (*a).to_owned();
        let sb: String = (*b).to_owned();
        sa.eq(&sb)
    }

    fn id_clone(id: &&'static str) -> (r: &'static str) {
        *id
    }
}

impl KeyspaceNode for u8 {
    type Id = u8;

    open spec fn spec_id(&self) -> u8 {
        *self
    }

    fn id(&self) -> (r: &u8) {
        self
    }

    fn id_eq(a: &u8, b: &u8) -> (r: bool) {
        *a == *b
    }

    fn id_clone(id: &u8) -> (r: u8) {
        *id
    }
}

impl KeyspaceNode for u16 {
    type Id = u16;

    open spec fn spec_id(&self) -> u16 {
        *self
    }

    fn id(&self) -> (r: &u16) {
        self
    }

    fn id_eq(a: &u16, b: &u16) -> (r: bool) {
        *a == *b
    }

    fn id_clone(id: &u16) -> (r: u16) {
        *id
    }
}

impl KeyspaceNode for u32 {
    type Id = u32;

    open spec fn spec_id(&self) -> u32 {
        *self
    }

    fn id(&self) -> (r: &u32) {
        self
    }

    fn id_eq(a: &u32, b: &u32) -> (r: bool) {
        *a == *b
    }

    fn id_clone(id: &u32) -> (r: u32) {
        *id
    }
}

impl KeyspaceNode for u64 {
    type Id = u64;

    open spec fn spec_id(&self) -> u64 {
        *self
    }

    fn id(&self) -> (r: &u64) {
        self
    }

    fn id_eq(a: &u64, b: &u64) -> (r: bool) {
        *a == *b
    }

    fn id_clone(id: &u64) -> (r: u64) {
        *id
    }
}

impl KeyspaceNode for usize {
    type Id = usize;

    open spec fn spec_id(&self) -> usize {
        *self
    }

    fn id(&self) -> (r: &usize) {
        self
    }

    fn id_eq(a: &usize, b: &usize) -> (r: bool) {
        *a == *b
    }

    fn id_clone(id: &usize) -> (r: usize) {
        *id
    }
}

/// A shared, immutable handle to a node.
///
/// The handle is cheap to clone and may outlive the container it was handed
/// out from. Besides the node it carries the node's score key: the stable
/// hash of the handle, computed once at construction, which rendezvous
/// placement orders by.
pub struct NodeRef<N> {
    node: std::sync::Arc<N>,
    score_key: u64,
}

impl<N: KeyspaceNode> NodeRef<N> {
    /// The node behind the handle.
    pub closed spec fn spec_node(&self) -> N {
        *self.node
    }

    /// The identity of the node behind the handle.
    pub open spec fn spec_id(&self) -> <N::Id as View>::V {
        self.spec_node().spec_id()
    }

    /// The stored score key.
    pub closed spec fn spec_score_key(&self) -> u64 {
        self.score_key
    }

    /// Creates a new node reference.
    pub fn new(node: N) -> (r: Self)
        ensures
            r.spec_node() == node,
    {
        let arc = std::sync::Arc::new(node);
        let h = node_score_key(&arc);
        NodeRef { node: arc, score_key: h }
    }

    /// Returns the inner node.
    pub fn inner(&self) -> (r: &N)
        ensures
            *r == self.spec_node(),
    {
        &*self.node
    }

    /// The id of the inner node.
    pub fn id(&self) -> (r: &N::Id)
        ensures
            r@ == self.spec_id(),
    {
        (*self.node).id()
    }

    pub(crate) fn score_key(&self) -> (r: u64)
        ensures
            r == self.spec_score_key(),
    {
        self.score_key
    }
}

impl<N: KeyspaceNode> Clone for NodeRef<N> {
    fn clone(&self) -> (r: Self)
        ensures
            r == *self,
    {
        NodeRef { node: self.node.clone(), score_key: self.score_key }
    }
}

/// Membership is unchanged when one position is overwritten with the value
/// it already held elsewhere unchanged.
pub proof fn lemma_contains_after_set<A>(pre: Seq<A>, post: Seq<A>, idx: int)
    requires
        post.len() == pre.len(),
        0 <= idx < pre.len(),
        post[idx] == pre[idx],
        forall|k: int| 0 <= k < pre.len() && k != idx ==> post[k] == pre[k],
    ensures
        forall|v: A| #[trigger] post.contains(v) <==> pre.contains(v),
{
    assert forall|v: A| #[trigger] post.contains(v) <==> pre.contains(v) by {
        if post.contains(v) {
            let w = choose|w: int| 0 <= w < post.len() && post[w] == v;
            assert(pre[w] == v);
            assert(pre.contains(v)) by {
                assert(pre[w] == v);
            }
        }
        if pre.contains(v) {
            let w = choose|w: int| 0 <= w < pre.len() && pre[w] == v;
            assert(post[w] == v);
            assert(post.contains(v)) by {
                assert(post[w] == v);
            }
        }
    }
}

/// After a push, the members are the old members and the pushed value.
pub proof fn lemma_contains_after_push<A>(pre: Seq<A>, post: Seq<A>, x: A)
    requires
        post == pre.push(x),
    ensures
        forall|v: A| #[trigger] post.contains(v) <==> (pre.contains(v) || v == x),
{
    assert forall|v: A| #[trigger] post.contains(v) <==> (pre.contains(v) || v == x) by {
        if post.contains(v) {
            let w = choose|w: int| 0 <= w < post.len() && post[w] == v;
            if w < pre.len() {
                assert(pre[w] == v);
                assert(pre.contains(v)) by {
                    assert(pre[w] == v);
                }
            }
        }
        if pre.contains(v) {
            let w = choose|w: int| 0 <= w < pre.len() && pre[w] == v;
            assert(post[w] == v);
            assert(post.contains(v)) by {
                assert(post[w] == v);
            }
        }
        if v == x {
            assert(post[pre.len() as int] == v);
            assert(post.contains(v)) by {
                assert(post[pre.len() as int] == v);
            }
        }
    }
}

/// After removing the only position holding `x` from a duplicate-free
/// sequence, the members are the old members except `x`.
pub proof fn lemma_contains_after_remove<A>(pre: Seq<A>, post: Seq<A>, idx: int)
    requires
        0 <= idx < pre.len(),
        post == pre.remove(idx),
        forall|a: int, b: int| 0 <= a < b < pre.len() ==> pre[a] != pre[b],
    ensures
        forall|v: A| #[trigger] post.contains(v) <==> (pre.contains(v) && v != pre[idx]),
{
    assert forall|v: A| #[trigger] post.contains(v) <==> (pre.contains(v) && v != pre[idx]) by {
        if post.contains(v) {
            let w = choose|w: int| 0 <= w < post.len() && post[w] == v;
            if w < idx {
                assert(pre[w] == v);
                assert(pre.contains(v)) by {
                    assert(pre[w] == v);
                }
            } else {
                assert(pre[w + 1] == v);
                assert(pre.contains(v)) by {
                    assert(pre[w + 1] == v);
                }
            }
        }
        if pre.contains(v) && v != pre[idx] {
            let w = choose|w: int| 0 <= w < pre.len() && pre[w] == v;
            if w < idx {
                assert(post[w] == v);
                assert(post.contains(v)) by {
                    assert(post[w] == v);
                }
            } else {
                assert(w != idx);
                assert(post[w - 1] == v);
                assert(post.contains(v)) by {
                    assert(post[w - 1] == v);
                }
            }
        }
    }
}

/// The identities of a sequence of nodes, in order.
pub open spec fn spec_node_ids_of<N: KeyspaceNode>(s: Seq<N>) -> Seq<<N::Id as View>::V> {
    s.map_values(|n: N| n.spec_id())
}

/// Whether the handle wraps the last node of `src` that carries its id:
/// what remains of a run of insertions when later duplicates replace
/// earlier ones.
pub open spec fn spec_wraps_last<N: KeyspaceNode>(e: NodeRef<N>, src: Seq<N>) -> bool {
    spec_wraps_last_upto(e, src, src.len() as int)
}

/// As `spec_wraps_last`, over the first `k` nodes of `src`.
pub open spec fn spec_wraps_last_upto<N: KeyspaceNode>(e: NodeRef<N>, src: Seq<N>, k: int) -> bool {
    exists|j: int|
        0 <= j < k && e.spec_node() == #[trigger] src[j] && (forall|m: int|
            j < m < k ==> (#[trigger] src[m]).spec_id() != e.spec_id())
}

/// One entry replaced in place: `post` is `pre` with position `ix`, which
/// carried the node's id, now wrapping `node`.
pub open spec fn spec_replaced_at<N: KeyspaceNode>(
    pre: Seq<NodeRef<N>>,
    post: Seq<NodeRef<N>>,
    node: N,
    ix: int,
) -> bool {
    &&& 0 <= ix < pre.len()
    &&& pre[ix].spec_id() == node.spec_id()
    &&& post.len() == pre.len()
    &&& post[ix].spec_node() == node
    &&& forall|k: int| 0 <= k < pre.len() && k != ix ==> #[trigger] post[k] == pre[k]
}

/// One entry removed: `post` is `pre` without position `ix`, which carried
/// the given identity.
pub open spec fn spec_removed_at<N: KeyspaceNode>(
    pre: Seq<NodeRef<N>>,
    post: Seq<NodeRef<N>>,
    v: <N::Id as View>::V,
    ix: int,
) -> bool {
    &&& 0 <= ix < pre.len()
    &&& pre[ix].spec_id() == v
    &&& post == pre.remove(ix)
}

/// The node container: a mapping from node id to node handle.
///
/// No two entries share an id; inserting an existing id replaces the entry
/// and hands the prior handle back. Enumeration promises no particular
/// order beyond being consistent between calls on an unchanged container.
pub struct Nodes<N> {
    entries: Vec<NodeRef<N>>,
}

impl<N: KeyspaceNode> Nodes<N> {
    /// The handles in the container, in storage order.
    pub closed spec fn spec_entries(&self) -> Seq<NodeRef<N>> {
        self.entries@
    }

    /// The node identities, in storage order.
    pub open spec fn spec_ids(&self) -> Seq<<N::Id as View>::V> {
        self.spec_entries().map_values(|n: NodeRef<N>| n.spec_id())
    }

    /// Whether some entry carries the given identity.
    pub open spec fn spec_contains_id(&self, v: <N::Id as View>::V) -> bool {
        self.spec_ids().contains(v)
    }

    /// No two entries share an identity.
    pub open spec fn wf(&self) -> bool {
        forall|i: int, j: int|
            0 <= i < j < self.spec_ids().len() ==> self.spec_ids()[i] != self.spec_ids()[j]
    }

    /// The unique index of the entry with the given identity.
    pub open spec fn spec_idx_of(&self, v: <N::Id as View>::V) -> int {
        choose|i: int| 0 <= i < self.spec_ids().len() && self.spec_ids()[i] == v
    }

    /// Creates an empty container.
    pub fn new() -> (r: Self)
        ensures
            r.wf(),
            r.spec_entries().len() == 0,
    {
        Nodes { entries: Vec::new() }
    }

    /// Every handle in `entries` wraps one of the nodes of `src`.
    pub open spec fn spec_entries_from(entries: Seq<NodeRef<N>>, src: Seq<N>) -> bool {
        forall|i: int|
            0 <= i < entries.len() ==> exists|j: int|
                0 <= j < src.len() && (#[trigger] entries[i]).spec_node() == src[j]
    }

    /// Creates a container from a list of nodes, inserting them in order:
    /// a later node with an already-present id replaces the earlier entry.
    pub fn from_vec(nodes: Vec<N>) -> (r: Self)
        ensures
            r.wf(),
            r.spec_entries().len() <= nodes@.len(),
            forall|j: int|
                0 <= j < nodes@.len() ==> r.spec_contains_id(#[trigger] nodes@[j].spec_id()),
            Self::spec_entries_from(r.spec_entries(), nodes@),
            forall|v: <N::Id as View>::V|
                #[trigger] r.spec_contains_id(v) <==> spec_node_ids_of(nodes@).contains(v),
            r.spec_entries().len() == spec_node_ids_of(nodes@).to_set().len(),
            forall|a: int|
                0 <= a < r.spec_entries().len() ==> spec_wraps_last(
                    #[trigger] r.spec_entries()[a],
                    nodes@,
                ),
    {
        let mut r = Nodes::new();
        let mut rest = nodes;
        let total: usize = rest.len();
        let ghost all = rest@;
        let mut k: usize = 0;
        while k < total
            invariant
                r.wf(),
                total == all.len(),
                k <= total,
                rest@ == all.skip(k as int),
                r.spec_entries().len() <= k,
                forall|j: int| 0 <= j < k ==> r.spec_contains_id(#[trigger] all[j].spec_id()),
                Self::spec_entries_from(r.spec_entries(), all.take(k as int)),
                forall|v: <N::Id as View>::V|
                    #[trigger] r.spec_contains_id(v) <==> spec_node_ids_of(all).take(
                        k as int,
                    ).contains(v),
                forall|a: int|
                    0 <= a < r.spec_entries().len() ==> spec_wraps_last_upto(
                        #[trigger] r.spec_entries()[a],
                        all,
                        k as int,
                    ),
            decreases total - k,
        {
            let node = rest.remove(0);
            proof {
                assert(all.skip(k as int)[0] == all[k as int]);
                assert(rest@ =~= all.skip(k as int + 1));
            }
            let ghost prev_r = r;
            let ghost idv = node.spec_id();
            r.insert(node);
            proof {
                let plen = prev_r.spec_entries().len() as int;
                if prev_r.spec_contains_id(idv) {
                    let ix = prev_r.spec_idx_of(idv);
                    assert(r.spec_ids()[ix] == idv);
                    assert forall|m: int| 0 <= m < plen implies r.spec_ids()[m]
                        == prev_r.spec_ids()[m] by {}
                } else {
                    assert forall|m: int| 0 <= m < plen implies r.spec_ids()[m]
                        == prev_r.spec_ids()[m] by {
                        assert(r.spec_entries().take(plen)[m] == r.spec_entries()[m]);
                    }
                }
                assert forall|j: int| 0 <= j < k + 1 implies r.spec_contains_id(
                    #[trigger] all[j].spec_id(),
                ) by {
                    if j < k {
                        let v = all[j].spec_id();
                        let w = choose|w: int|
                            0 <= w < prev_r.spec_ids().len() && prev_r.spec_ids()[w] == v;
                        assert(r.spec_ids()[w] == v);
                    }
                }
                let ghost taken = all.take(k as int + 1);
                assert forall|i: int| 0 <= i < r.spec_entries().len() implies exists|j: int|
                    0 <= j < taken.len() && (#[trigger] r.spec_entries()[i]).spec_node()
                        == taken[j] by {
                    if prev_r.spec_contains_id(idv) {
                        let ix = prev_r.spec_idx_of(idv);
                        if i == ix {
                            assert(r.spec_entries()[i].spec_node() == taken[k as int]);
                        } else {
                            assert(r.spec_entries()[i] == prev_r.spec_entries()[i]);
                            let j = choose|j: int|
                                0 <= j < k && (#[trigger] prev_r.spec_entries()[i]).spec_node()
                                    == all.take(k as int)[j];
                            assert(r.spec_entries()[i].spec_node() == taken[j]);
                        }
                    } else {
                        if i < plen {
                            assert(r.spec_entries().take(plen)[i] == r.spec_entries()[i]);
                            assert(r.spec_entries()[i] == prev_r.spec_entries()[i]);
                            let j = choose|j: int|
                                0 <= j < k && (#[trigger] prev_r.spec_entries()[i]).spec_node()
                                    == all.take(k as int)[j];
                            assert(r.spec_entries()[i].spec_node() == taken[j]);
                        } else {
                            assert(r.spec_entries()[i].spec_node() == taken[k as int]);
                        }
                    }
                }
                // membership: exactly the ids handed over so far
                assert(spec_node_ids_of(all).take(k as int + 1) =~= spec_node_ids_of(all).take(
                    k as int,
                ).push(idv));
                lemma_contains_after_push(
                    spec_node_ids_of(all).take(k as int),
                    spec_node_ids_of(all).take(k as int + 1),
                    idv,
                );
                if prev_r.spec_contains_id(idv) {
                    let ix = prev_r.spec_idx_of(idv);
                    lemma_contains_after_set(prev_r.spec_ids(), r.spec_ids(), ix);
                } else {
                    assert(r.spec_ids() =~= prev_r.spec_ids().push(idv));
                    lemma_contains_after_push(prev_r.spec_ids(), r.spec_ids(), idv);
                }
                assert forall|v: <N::Id as View>::V|
                    #[trigger] r.spec_contains_id(v) <==> spec_node_ids_of(all).take(
                        k as int + 1,
                    ).contains(v) by {
                    if v == idv {
                        assert(r.spec_contains_id(idv));
                        assert(spec_node_ids_of(all).take(k as int + 1).contains(idv)) by {
                            assert(spec_node_ids_of(all).take(k as int + 1)[k as int] == idv);
                        }
                    } else {
                        assert(r.spec_contains_id(v) <==> prev_r.spec_contains_id(v));
                        assert(spec_node_ids_of(all).take(k as int + 1).contains(v)
                            <==> spec_node_ids_of(all).take(k as int).contains(v));
                    }
                }
                // each entry wraps the latest node with its id
                assert forall|a: int|
                    0 <= a < r.spec_entries().len() implies spec_wraps_last_upto(
                    #[trigger] r.spec_entries()[a],
                    all,
                    k as int + 1,
                ) by {
                    let e = r.spec_entries()[a];
                    let fresh = !prev_r.spec_contains_id(idv);
                    if (!fresh && a == prev_r.spec_idx_of(idv)) || (fresh && a == plen) {
                        let ghost kk = k as int;
                        assert(e.spec_node() == all[kk]);
                        assert(0 <= kk < kk + 1 && e.spec_node() == all[kk] && (forall|m: int|
                            kk < m < kk + 1 ==> (#[trigger] all[m]).spec_id() != e.spec_id()));
                    } else {
                        assert(e == prev_r.spec_entries()[a]);
                        assert(spec_wraps_last_upto(e, all, k as int));
                        let j = choose|j: int|
                            0 <= j < k as int && e.spec_node() == #[trigger] all[j] && (forall|
                                m: int,
                            |
                                j < m < k as int ==> (#[trigger] all[m]).spec_id()
                                    != e.spec_id());
                        assert(e.spec_id() != idv) by {
                            if !fresh {
                                let ix = prev_r.spec_idx_of(idv);
                                assert(r.spec_ids()[a] == e.spec_id());
                                assert(r.spec_ids()[ix] == idv);
                            } else {
                                assert(prev_r.spec_ids()[a] == e.spec_id());
                                if e.spec_id() == idv {
                                    assert(prev_r.spec_contains_id(idv)) by {
                                        assert(prev_r.spec_ids()[a] == idv);
                                    }
                                }
                            }
                        }
                        assert(0 <= j < k as int + 1 && e.spec_node() == all[j] && (forall|
                            m: int,
                        |
                            j < m < k as int + 1 ==> (#[trigger] all[m]).spec_id()
                                != e.spec_id())) by {
                            assert forall|m: int|
                                j < m < k as int + 1 implies (#[trigger] all[m]).spec_id()
                                != e.spec_id() by {
                                if m == k as int {
                                    assert(all[m].spec_id() == idv);
                                }
                            }
                        }
                    }
                }
            }
            k = k + 1;
        }
        proof {
            assert(all.take(total as int) =~= nodes@);
            assert(spec_node_ids_of(all).take(total as int) =~= spec_node_ids_of(nodes@));
            assert forall|a: int|
                0 <= a < r.spec_entries().len() implies spec_wraps_last(
                #[trigger] r.spec_entries()[a],
                nodes@,
            ) by {
                assert(spec_wraps_last_upto(r.spec_entries()[a], all, total as int));
                assert(all == nodes@);
            }
            // the container holds exactly one entry per distinct input id
            assert(r.spec_ids().no_duplicates()) by {
                assert forall|i: int, j: int|
                    0 <= i < r.spec_ids().len() && 0 <= j < r.spec_ids().len() && i != j implies
                    r.spec_ids()[i] != r.spec_ids()[j] by {
                    if i < j {
                    } else {
                    }
                }
            }
            r.spec_ids().unique_seq_to_set();
            assert(r.spec_ids().to_set() =~= spec_node_ids_of(nodes@).to_set()) by {
                assert forall|v: <N::Id as View>::V|
                    r.spec_ids().to_set().contains(v) <==> spec_node_ids_of(
                        nodes@,
                    ).to_set().contains(v) by {
                    if r.spec_ids().to_set().contains(v) {
                        assert(r.spec_ids().contains(v));
                        assert(spec_node_ids_of(nodes@).contains(v));
                        assert(spec_node_ids_of(nodes@).to_set().contains(v));
                    }
                    if spec_node_ids_of(nodes@).to_set().contains(v) {
                        assert(spec_node_ids_of(nodes@).contains(v));
                        assert(r.spec_ids().contains(v));
                        assert(r.spec_ids().to_set().contains(v));
                    }
                }
            }
        }
        r
    }

    fn find_idx(&self, id: &N::Id) -> (r: Option<usize>)
        requires
            self.wf(),
        ensures
            match r {
                Some(i) => i < self.spec_ids().len() && self.spec_ids()[i as int] == id@
                    && i == self.spec_idx_of(id@),
                None => !self.spec_contains_id(id@),
            },
    {
        let mut i: usize = 0;
        while i < self.entries.len()
            invariant
                self.wf(),
                i <= self.spec_entries().len(),
                forall|k: int| 0 <= k < i ==> self.spec_ids()[k] != id@,
            decreases self.entries.len() - i,
        {
            if N::id_eq(self.entries[i].id(), id) {
                proof {
                    assert(self.spec_ids()[i as int] == self.spec_entries()[i as int].spec_id());
                }
                return Some(i);
            }
            proof {
                assert(self.spec_ids()[i as int] == self.spec_entries()[i as int].spec_id());
            }
            i = i + 1;
        }
        proof {
            assert forall|v| self.spec_ids().contains(v) implies exists|k: int|
                0 <= k < self.spec_ids().len() && self.spec_ids()[k] == v by {}
        }
        None
    }

    /// Adds a node to the container. If an entry with the node's id was
    /// already present, that entry is replaced in place and the prior handle
    /// is returned.
    pub fn insert(&mut self, node: N) -> (r: Option<NodeRef<N>>)
        requires
            old(self).wf(),
        ensures
            final(self).wf(),
            final(self).spec_contains_id(node.spec_id()),
            match r {
                Some(prev) => {
                    &&& old(self).spec_contains_id(node.spec_id())
                    &&& prev == old(self).spec_entries()[old(self).spec_idx_of(node.spec_id())]
                    &&& final(self).spec_entries().len() == old(self).spec_entries().len()
                    &&& forall|k: int|
                        0 <= k < old(self).spec_entries().len() && k != old(self).spec_idx_of(
                            node.spec_id(),
                        ) ==> final(self).spec_entries()[k] == old(self).spec_entries()[k]
                    &&& final(self).spec_entries()[old(self).spec_idx_of(node.spec_id())]
                        .spec_node() == node
                },
                None => {
                    &&& !old(self).spec_contains_id(node.spec_id())
                    &&& final(self).spec_entries().len() == old(self).spec_entries().len() + 1
                    &&& final(self).spec_entries().take(old(self).spec_entries().len() as int)
                        == old(self).spec_entries()
                    &&& final(self).spec_entries().last().spec_node() == node
                },
            },
    {
        let ghost idv = node.spec_id();
        let found = self.find_idx(node.id());
        let nr = NodeRef::new(node);
        match found {
            Some(i) => {
                let prev = self.entries[i].clone();
                self.entries.set(i, nr);
                proof {
                    assert(self.spec_ids()[i as int] == idv);
                    assert(self.spec_ids().contains(idv)) by {
                        assert(self.spec_ids()[i as int] == idv);
                    }
                    assert forall|k: int| 0 <= k < self.spec_ids().len() && k != i as int
                        implies self.spec_ids()[k] == old(self).spec_ids()[k] by {}
                }
                Some(prev)
            },
            None => {
                self.entries.push(nr);
                proof {
                    let flen = self.spec_entries().len() as int;
                    assert(self.spec_entries().take(flen - 1) =~= old(self).spec_entries());
                    assert forall|k: int| 0 <= k < flen - 1 implies self.spec_ids()[k] == old(
                        self,
                    ).spec_ids()[k] by {}
                    assert(self.spec_ids()[flen - 1] == idv);
                    assert(self.spec_ids().contains(idv)) by {
                        assert(self.spec_ids()[flen - 1] == idv);
                    }
                }
                None
            },
        }
    }

    /// Removes and returns the entry with the given id, if one exists.
    pub fn remove(&mut self, id: &N::Id) -> (r: Option<NodeRef<N>>)
        requires
            old(self).wf(),
        ensures
            final(self).wf(),
            !final(self).spec_contains_id(id@),
            match r {
                Some(prev) => {
                    &&& old(self).spec_contains_id(id@)
                    &&& prev == old(self).spec_entries()[old(self).spec_idx_of(id@)]
                    &&& final(self).spec_entries() == old(self).spec_entries().remove(
                        old(self).spec_idx_of(id@),
                    )
                },
                None => {
                    &&& !old(self).spec_contains_id(id@)
                    &&& *final(self) == *old(self)
                },
            },
    {
        let found = self.find_idx(id);
        match found {
            Some(i) => {
                let prev = self.entries.remove(i);
                proof {
                    assert(self.spec_entries() =~= old(self).spec_entries().remove(i as int));
                    assert forall|k: int| 0 <= k < self.spec_ids().len() implies self.spec_ids()[k]
                        == (if k < i as int {
                        old(self).spec_ids()[k]
                    } else {
                        old(self).spec_ids()[k + 1]
                    }) by {}
                    assert(!self.spec_contains_id(id@)) by {
                        if self.spec_ids().contains(id@) {
                            let k = choose|k: int|
                                0 <= k < self.spec_ids().len() && self.spec_ids()[k] == id@;
                            assert(self.spec_ids()[k] == id@);
                            assert(false);
                        }
                    }
                }
                Some(prev)
            },
            None => None,
        }
    }

    /// Returns the handle of the node with the given id.
    pub fn get(&self, id: N::Id) -> (r: Option<NodeRef<N>>)
        requires
            self.wf(),
        ensures
            match r {
                Some(nr) => self.spec_contains_id(id@) && nr == self.spec_entries()[
                    self.spec_idx_of(id@)
                ],
                None => !self.spec_contains_id(id@),
            },
    {
        match self.find_idx(&id) {
            Some(i) => Some(self.entries[i].clone()),
            None => None,
        }
    }

    /// Number of nodes in the container.
    pub fn len(&self) -> (r: usize)
        ensures
            r == self.spec_entries().len(),
    {
        self.entries.len()
    }

    /// Whether the container holds a node with the given id.
    pub fn contains(&self, id: &N::Id) -> (r: bool)
        requires
            self.wf(),
        ensures
            r == self.spec_contains_id(id@),
    {
        self.find_idx(id).is_some()
    }

    /// The ids of all nodes, in storage order.
    pub fn keys(&self) -> (r: Vec<N::Id>)
        ensures
            r@.len() == self.spec_ids().len(),
            forall|i: int| 0 <= i < r@.len() ==> (#[trigger] r@[i])@ == self.spec_ids()[i],
    {
        let mut out: Vec<N::Id> = Vec::new();
        let mut i: usize = 0;
        while i < self.entries.len()
            invariant
                i <= self.spec_entries().len(),
                out@.len() == i,
                forall|k: int| 0 <= k < i ==> (#[trigger] out@[k])@ == self.spec_ids()[k],
            decreases self.entries.len() - i,
        {
            out.push(N::id_clone(self.entries[i].id()));
            i = i + 1;
        }
        out
    }

    /// A container holding the same entries.
    pub fn duplicate(&self) -> (r: Self)
        ensures
            r.spec_entries() == self.spec_entries(),
    {
        Nodes { entries: self.values() }
    }

    /// The handles of all nodes, in storage order.
    pub fn values(&self) -> (r: Vec<NodeRef<N>>)
        ensures
            r@ == self.spec_entries(),
    {
        let mut out: Vec<NodeRef<N>> = Vec::new();
        let mut i: usize = 0;
        while i < self.entries.len()
            invariant
                i <= self.spec_entries().len(),
                out@ == self.spec_entries().take(i as int),
            decreases self.entries.len() - i,
        {
            out.push(self.entries[i].clone());
            i = i + 1;
            proof {
                assert(out@ =~= self.spec_entries().take(i as int));
            }
        }
        proof {
            assert(out@ =~= self.spec_entries());
        }
        out
    }
}

} // verus!
