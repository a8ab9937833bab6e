use vstd::prelude::*;

use crate::error::{KeyspaceError, KeyspaceResult};
use crate::interval::Interval;
use crate::node::{KeyspaceNode, NodeRef};
use crate::replication::{ids_of, lemma_ids_of_intro, lemma_ids_of_witness, same_ids};
use crate::sharding::{shard_range_of, spec_shard_range, Shards};

verus! {

/// Whether the shard with old row `old_row` and new row `new_row` makes the
/// node with identity `t` a migration target: the node joins the shard's
/// replica set without having been in it.
pub open spec fn spec_is_target<N: KeyspaceNode>(
    old_row: Seq<NodeRef<N>>,
    new_row: Seq<NodeRef<N>>,
    t: <N::Id as View>::V,
) -> bool {
    ids_of(new_row).contains(t) && !ids_of(old_row).contains(t)
}

/// The shards among the first `n` that make `t` a migration target, in
/// ascending order.
pub open spec fn spec_target_shards<N: KeyspaceNode>(
    old_rows: Seq<Seq<NodeRef<N>>>,
    new_rows: Seq<Seq<NodeRef<N>>>,
    t: <N::Id as View>::V,
    n: int,
) -> Seq<int>
    decreases n,
{
    if n <= 0 {
        Seq::empty()
    } else if spec_is_target(old_rows[n - 1], new_rows[n - 1], t) {
        spec_target_shards(old_rows, new_rows, t, n - 1).push(n - 1)
    } else {
        spec_target_shards(old_rows, new_rows, t, n - 1)
    }
}

/// Whether `ivs` is exactly the interval list for the target shards
/// `shards`: one interval per such shard, covering the shard's key range,
/// sourced from the shard's old replica set in selection order.
pub open spec fn spec_entry_matches<N: KeyspaceNode>(
    old_rows: Seq<Seq<NodeRef<N>>>,
    ivs: Seq<Interval<N>>,
    shards: Seq<int>,
) -> bool {
    &&& ivs.len() == shards.len()
    &&& forall|m: int|
        0 <= m < ivs.len() ==> (#[trigger] ivs[m]).spec_key_range() == spec_shard_range(shards[m])
            && ivs[m].spec_nodes() == old_rows[shards[m]]
}

/// Whether some handle among the first `k` of `row` carries identity `t`.
pub open spec fn spec_seen<N: KeyspaceNode>(
    row: Seq<NodeRef<N>>,
    t: <N::Id as View>::V,
    k: int,
) -> bool {
    exists|m: int| 0 <= m < k && (#[trigger] row[m]).spec_id() == t
}

/// The views of a sequence of ids.
pub open spec fn id_views<N: KeyspaceNode>(s: Seq<N::Id>) -> Seq<<N::Id as View>::V> {
    s.map_values(|x: N::Id| x@)
}

/// Every node that some of the first `n` shards make a target is listed.
pub open spec fn spec_lists_targets<N: KeyspaceNode>(
    old_rows: Seq<Seq<NodeRef<N>>>,
    new_rows: Seq<Seq<NodeRef<N>>>,
    ids: Seq<<N::Id as View>::V>,
    n: int,
) -> bool {
    forall|t: <N::Id as View>::V|
        spec_target_shards(old_rows, new_rows, t, n).len() > 0 ==> #[trigger] ids.contains(t)
}

/// As `spec_lists_targets` for the first `i` shards, and of shard `i`
/// itself the targets among its first `k` replicas.
pub open spec fn spec_lists_targets_upto<N: KeyspaceNode>(
    old_rows: Seq<Seq<NodeRef<N>>>,
    new_rows: Seq<Seq<NodeRef<N>>>,
    ids: Seq<<N::Id as View>::V>,
    i: int,
    k: int,
) -> bool {
    forall|t: <N::Id as View>::V|
        (spec_target_shards(old_rows, new_rows, t, i).len() > 0 || (spec_is_target(
            old_rows[i],
            new_rows[i],
            t,
        ) && spec_seen(new_rows[i], t, k))) ==> #[trigger] ids.contains(t)
}

proof fn lemma_upto_start<N: KeyspaceNode>(
    old_rows: Seq<Seq<NodeRef<N>>>,
    new_rows: Seq<Seq<NodeRef<N>>>,
    ids: Seq<<N::Id as View>::V>,
    i: int,
)
    requires
        spec_lists_targets(old_rows, new_rows, ids, i),
    ensures
        spec_lists_targets_upto(old_rows, new_rows, ids, i, 0),
{
    assert forall|t: <N::Id as View>::V|
        (spec_target_shards(old_rows, new_rows, t, i).len() > 0 || (spec_is_target(
            old_rows[i],
            new_rows[i],
            t,
        ) && spec_seen(new_rows[i], t, 0))) implies #[trigger] ids.contains(t) by {
        if spec_seen(new_rows[i], t, 0) {
            let m = choose|m: int| 0 <= m < 0 && (#[trigger] new_rows[i][m]).spec_id() == t;
            assert(false);
        }
    }
}

proof fn lemma_upto_skip<N: KeyspaceNode>(
    old_rows: Seq<Seq<NodeRef<N>>>,
    new_rows: Seq<Seq<NodeRef<N>>>,
    ids: Seq<<N::Id as View>::V>,
    i: int,
    k: int,
)
    requires
        old_rows.len() == new_rows.len(),
        0 <= i < new_rows.len(),
        0 <= k < new_rows[i].len(),
        spec_lists_targets_upto(old_rows, new_rows, ids, i, k),
        !spec_is_target(old_rows[i], new_rows[i], new_rows[i][k].spec_id()),
    ensures
        spec_lists_targets_upto(old_rows, new_rows, ids, i, k + 1),
{
    let t0 = new_rows[i][k].spec_id();
    assert forall|t: <N::Id as View>::V|
        (spec_target_shards(old_rows, new_rows, t, i).len() > 0 || (spec_is_target(
            old_rows[i],
            new_rows[i],
            t,
        ) && spec_seen(new_rows[i], t, k + 1))) implies #[trigger] ids.contains(t) by {
        lemma_seen_step(new_rows[i], t, k);
        if spec_target_shards(old_rows, new_rows, t, i).len() > 0 {
            assert(ids.contains(t));
        } else {
            assert(spec_is_target(old_rows[i], new_rows[i], t));
            assert(t != t0);
            assert(spec_seen(new_rows[i], t, k));
            assert(ids.contains(t));
        }
    }
}

proof fn lemma_upto_add<N: KeyspaceNode>(
    old_rows: Seq<Seq<NodeRef<N>>>,
    new_rows: Seq<Seq<NodeRef<N>>>,
    pre: Seq<<N::Id as View>::V>,
    ids: Seq<<N::Id as View>::V>,
    i: int,
    k: int,
    t0: <N::Id as View>::V,
)
    requires
        old_rows.len() == new_rows.len(),
        0 <= i < new_rows.len(),
        0 <= k < new_rows[i].len(),
        new_rows[i][k].spec_id() == t0,
        spec_lists_targets_upto(old_rows, new_rows, pre, i, k),
        ids == pre || ids == pre.push(t0),
        ids.contains(t0),
    ensures
        spec_lists_targets_upto(old_rows, new_rows, ids, i, k + 1),
{
    assert forall|t: <N::Id as View>::V|
        (spec_target_shards(old_rows, new_rows, t, i).len() > 0 || (spec_is_target(
            old_rows[i],
            new_rows[i],
            t,
        ) && spec_seen(new_rows[i], t, k + 1))) implies #[trigger] ids.contains(t) by {
        lemma_seen_step(new_rows[i], t, k);
        if t == t0 {
        } else {
            assert(spec_target_shards(old_rows, new_rows, t, i).len() > 0 || (spec_is_target(
                old_rows[i],
                new_rows[i],
                t,
            ) && spec_seen(new_rows[i], t, k)));
            assert(pre.contains(t));
            let w = choose|w: int| 0 <= w < pre.len() && pre[w] == t;
            assert(ids[w] == t);
            assert(ids.contains(t)) by {
                assert(ids[w] == t);
            }
        }
    }
}

proof fn lemma_targets_step<N: KeyspaceNode>(
    old_rows: Seq<Seq<NodeRef<N>>>,
    new_rows: Seq<Seq<NodeRef<N>>>,
    ids: Seq<<N::Id as View>::V>,
    i: int,
)
    requires
        old_rows.len() == new_rows.len(),
        0 <= i < new_rows.len(),
        spec_lists_targets_upto(old_rows, new_rows, ids, i, new_rows[i].len() as int),
    ensures
        spec_lists_targets(old_rows, new_rows, ids, i + 1),
{
    assert forall|t: <N::Id as View>::V|
        spec_target_shards(old_rows, new_rows, t, i + 1).len() > 0 implies #[trigger] ids.contains(
        t,
    ) by {
        if spec_is_target(old_rows[i], new_rows[i], t) {
            lemma_ids_of_witness(new_rows[i], t);
            assert(spec_seen(new_rows[i], t, new_rows[i].len() as int));
            assert(spec_target_shards(old_rows, new_rows, t, i).len() >= 0);
        } else {
            assert(spec_target_shards(old_rows, new_rows, t, i + 1) == spec_target_shards(
                old_rows,
                new_rows,
                t,
                i,
            ));
        }
    }
}

proof fn lemma_seen_step<N: KeyspaceNode>(row: Seq<NodeRef<N>>, t: <N::Id as View>::V, k: int)
    requires
        0 <= k < row.len(),
    ensures
        spec_seen(row, t, k + 1) <==> (spec_seen(row, t, k) || row[k].spec_id() == t),
{
    if spec_seen(row, t, k + 1) {
        let m = choose|m: int| 0 <= m < k + 1 && (#[trigger] row[m]).spec_id() == t;
        if m < k {
            assert(spec_seen(row, t, k));
        } else {
            assert(row[k].spec_id() == t);
        }
    }
    if spec_seen(row, t, k) {
        let m = choose|m: int| 0 <= m < k && (#[trigger] row[m]).spec_id() == t;
        assert(0 <= m < k + 1 && row[m].spec_id() == t);
    }
    if row[k].spec_id() == t {
        assert(0 <= k < k + 1 && row[k].spec_id() == t);
    }
}

/// A node only ever pulls because some shard's replica set newly includes
/// it: whenever its target-shard list is nonempty, some shard makes it a
/// target.
pub proof fn lemma_target_has_shard<N: KeyspaceNode>(
    old_rows: Seq<Seq<NodeRef<N>>>,
    new_rows: Seq<Seq<NodeRef<N>>>,
    t: <N::Id as View>::V,
    n: int,
)
    requires
        spec_target_shards(old_rows, new_rows, t, n).len() > 0,
    ensures
        exists|i: int| 0 <= i < n && #[trigger] spec_is_target(old_rows[i], new_rows[i], t),
    decreases n,
{
    if n > 0 {
        if spec_is_target(old_rows[n - 1], new_rows[n - 1], t) {
        } else {
            lemma_target_has_shard(old_rows, new_rows, t, n - 1);
        }
    }
}

/// A mutation that only permutes the order inside replica sets, leaving
/// every shard's membership unchanged, produces no migration targets at
/// all: replica-set comparison is set equality on node ids.
pub proof fn lemma_no_movement_without_membership_change<N: KeyspaceNode>(
    old_rows: Seq<Seq<NodeRef<N>>>,
    new_rows: Seq<Seq<NodeRef<N>>>,
    n: int,
)
    requires
        forall|i: int| 0 <= i < n ==> same_ids(#[trigger] old_rows[i], new_rows[i]),
    ensures
        forall|t: <N::Id as View>::V|
            #[trigger] spec_target_shards(old_rows, new_rows, t, n).len() == 0,
{
    assert forall|t: <N::Id as View>::V|
        #[trigger] spec_target_shards(old_rows, new_rows, t, n).len() == 0 by {
        if spec_target_shards(old_rows, new_rows, t, n).len() > 0 {
            lemma_target_has_shard(old_rows, new_rows, t, n);
            let i = choose|i: int|
                0 <= i < n && #[trigger] spec_is_target(old_rows[i], new_rows[i], t);
            assert(ids_of(new_rows[i]) == ids_of(old_rows[i]));
            assert(false);
        }
    }
}

/// When every shard's new replica set adds at most the node with identity
/// `v` to its old membership, no node other than `v` is a migration
/// target: only the added node pulls data.
pub proof fn lemma_only_added_node_pulls<N: KeyspaceNode>(
    old_rows: Seq<Seq<NodeRef<N>>>,
    new_rows: Seq<Seq<NodeRef<N>>>,
    v: <N::Id as View>::V,
    n: int,
)
    requires
        forall|i: int, t: <N::Id as View>::V|
            0 <= i < n && t != v && #[trigger] ids_of(new_rows[i]).contains(t) ==> ids_of(
                old_rows[i],
            ).contains(t),
    ensures
        forall|t: <N::Id as View>::V|
            t != v ==> #[trigger] spec_target_shards(old_rows, new_rows, t, n).len() == 0,
{
    assert forall|t: <N::Id as View>::V|
        t != v implies #[trigger] spec_target_shards(old_rows, new_rows, t, n).len() == 0 by {
        if spec_target_shards(old_rows, new_rows, t, n).len() > 0 {
            lemma_target_has_shard(old_rows, new_rows, t, n);
            let i = choose|i: int|
                0 <= i < n && #[trigger] spec_is_target(old_rows[i], new_rows[i], t);
            assert(ids_of(new_rows[i]).contains(t));
            assert(ids_of(old_rows[i]).contains(t));
            assert(false);
        }
    }
}

/// Plan-level order insensitivity: a plan that exactly diffs two tables
/// with identical per-shard membership has no entry at all. Reordering the
/// replicas inside a set moves no data.
pub proof fn lemma_plan_empty_without_membership_change<N: KeyspaceNode>(
    plan: MigrationPlan<N>,
    old_rows: Seq<Seq<NodeRef<N>>>,
    new_rows: Seq<Seq<NodeRef<N>>>,
    n: int,
)
    requires
        plan.wf(),
        forall|a: int|
            0 <= a < plan.spec_target_ids().len() ==> spec_entry_matches(
                old_rows,
                plan.spec_ivs()[a],
                spec_target_shards(old_rows, new_rows, #[trigger] plan.spec_target_ids()[a], n),
            ),
        forall|i: int| 0 <= i < n ==> same_ids(#[trigger] old_rows[i], new_rows[i]),
    ensures
        plan.spec_target_ids().len() == 0,
{
    lemma_no_movement_without_membership_change(old_rows, new_rows, n);
    if plan.spec_target_ids().len() > 0 {
        let t = plan.spec_target_ids()[0];
        assert(plan.spec_ivs()[0].len() > 0);
        assert(spec_target_shards(old_rows, new_rows, t, n).len() == 0);
        assert(false);
    }
}

/// Plan-level locality of a single addition: when every shard's new
/// replica set adds at most the node with identity `v`, that node is the
/// only possible entry of an exact plan.
pub proof fn lemma_plan_keys_only_added<N: KeyspaceNode>(
    plan: MigrationPlan<N>,
    old_rows: Seq<Seq<NodeRef<N>>>,
    new_rows: Seq<Seq<NodeRef<N>>>,
    v: <N::Id as View>::V,
    n: int,
)
    requires
        plan.wf(),
        forall|a: int|
            0 <= a < plan.spec_target_ids().len() ==> spec_entry_matches(
                old_rows,
                plan.spec_ivs()[a],
                spec_target_shards(old_rows, new_rows, #[trigger] plan.spec_target_ids()[a], n),
            ),
        forall|i: int, t: <N::Id as View>::V|
            0 <= i < n && t != v && #[trigger] ids_of(new_rows[i]).contains(t) ==> ids_of(
                old_rows[i],
            ).contains(t),
    ensures
        forall|a: int|
            0 <= a < plan.spec_target_ids().len() ==> #[trigger] plan.spec_target_ids()[a] == v,
        plan.spec_target_ids().len() <= 1,
{
    lemma_only_added_node_pulls(old_rows, new_rows, v, n);
    assert forall|a: int| 0 <= a < plan.spec_target_ids().len() implies
        #[trigger] plan.spec_target_ids()[a] == v by {
        let t = plan.spec_target_ids()[a];
        assert(plan.spec_ivs()[a].len() > 0);
        if t != v {
            assert(spec_target_shards(old_rows, new_rows, t, n).len() == 0);
            assert(false);
        }
    }
    if plan.spec_target_ids().len() > 1 {
        assert(plan.spec_target_ids()[0] == v && plan.spec_target_ids()[1] == v);
        assert(false);
    }
}

/// A data migration plan: for every node that must pull data to converge to
/// the new assignment, the keyspace intervals to pull and the nodes that
/// currently hold them.
///
/// A node that merely left a replica set appears as a source inside other
/// nodes' intervals but has no entry of its own.
pub struct MigrationPlan<N: KeyspaceNode> {
    version: u64,
    target_ids: Vec<N::Id>,
    target_ivs: Vec<Vec<Interval<N>>>,
}

impl<N: KeyspaceNode> MigrationPlan<N> {
    pub closed spec fn spec_version(&self) -> u64 {
        self.version
    }

    /// The identities of the target nodes, in first-appearance order.
    pub closed spec fn spec_target_ids(&self) -> Seq<<N::Id as View>::V> {
        self.target_ids@.map_values(|x: N::Id| x@)
    }

    pub closed spec fn spec_ivs(&self) -> Seq<Seq<Interval<N>>> {
        self.target_ivs@.map_values(|v: Vec<Interval<N>>| v@)
    }

    /// Whether the node with the given identity must pull data.
    pub open spec fn spec_has_target(&self, t: <N::Id as View>::V) -> bool {
        self.spec_target_ids().contains(t)
    }

    /// The interval list of the target with the given identity.
    pub open spec fn spec_intervals_of(&self, t: <N::Id as View>::V) -> Seq<Interval<N>> {
        if self.spec_has_target(t) {
            self.spec_ivs()[choose|a: int|
                0 <= a < self.spec_target_ids().len() && self.spec_target_ids()[a] == t]
        } else {
            Seq::empty()
        }
    }

    /// One interval list per target, no target twice, no empty list.
    pub open spec fn wf(&self) -> bool {
        &&& self.spec_ivs().len() == self.spec_target_ids().len()
        &&& forall|a: int, b: int|
            0 <= a < b < self.spec_target_ids().len() ==> self.spec_target_ids()[a]
                != self.spec_target_ids()[b]
        &&& forall|a: int|
            0 <= a < self.spec_ivs().len() ==> (#[trigger] self.spec_ivs()[a]).len() > 0
    }

    /// Diffs two shard tables, paired by shard index: for each shard whose
    /// replica set changed membership, every node newly in the set must pull
    /// the shard's key range, and may pull it from any node of the old
    /// replica set.
    #[verifier::rlimit(100)]
    pub(crate) fn new<const RF: usize>(
        version: u64,
        old_shards: &Shards<N, RF>,
        new_shards: &Shards<N, RF>,
    ) -> (r: KeyspaceResult<Self>)
        requires
            old_shards.wf(),
            new_shards.wf(),
        ensures
            match r {
                Ok(plan) => {
                    &&& plan.wf()
                    &&& plan.spec_version() == version
                    &&& forall|a: int|
                        0 <= a < plan.spec_target_ids().len() ==> spec_entry_matches(
                            old_shards.spec_rows(),
                            plan.spec_ivs()[a],
                            spec_target_shards(
                                old_shards.spec_rows(),
                                new_shards.spec_rows(),
                                #[trigger] plan.spec_target_ids()[a],
                                crate::sharding::SHARD_COUNT as int,
                            ),
                        )
                    &&& forall|t: <N::Id as View>::V|
                        #[trigger] spec_target_shards(
                            old_shards.spec_rows(),
                            new_shards.spec_rows(),
                            t,
                            crate::sharding::SHARD_COUNT as int,
                        ).len() > 0 ==> plan.spec_has_target(t)
                },
                Err(e) => e == KeyspaceError::ShardCountMismatch && old_shards.spec_rows().len()
                    != new_shards.spec_rows().len(),
            },
    {
        let n = old_shards.len();
        if n != new_shards.len() {
            return Err(KeyspaceError::ShardCountMismatch);
        }
        let ghost orows = old_shards.spec_rows();
        let ghost nrows = new_shards.spec_rows();
        let mut tids: Vec<N::Id> = Vec::new();
        let mut tivs: Vec<Vec<Interval<N>>> = Vec::new();
        let mut i: usize = 0;
        while i < n
            invariant
                old_shards.wf(),
                new_shards.wf(),
                orows == old_shards.spec_rows(),
                nrows == new_shards.spec_rows(),
                n == orows.len(),
                n == nrows.len(),
                i <= n,
                tids@.len() == tivs@.len(),
                forall|a: int, b: int|
                    0 <= a < b < tids@.len() ==> id_views::<N>(tids@)[a] != id_views::<N>(
                        tids@,
                    )[b],
                forall|a: int|
                    0 <= a < tids@.len() ==> spec_entry_matches(
                        orows,
                        tivs@[a]@,
                        spec_target_shards(
                            orows,
                            nrows,
                            #[trigger] id_views::<N>(tids@)[a],
                            i as int,
                        ),
                    ) && tivs@[a]@.len() > 0,
                spec_lists_targets(orows, nrows, id_views::<N>(tids@), i as int),
            decreases n - i,
        {
            let old_rs = old_shards.row(i);
            let new_rs = new_shards.row(i);
            proof {
                assert(old_rs.spec_nodes() == orows[i as int]);
                assert(new_rs.spec_nodes() == nrows[i as int]);
            }
            let range = shard_range_of(i as u16);
            let nlen = new_rs.len();
            proof {
                lemma_upto_start(orows, nrows, id_views::<N>(tids@), i as int);
            }
            let mut k: usize = 0;
            while k < nlen
                invariant
                    old_shards.wf(),
                    new_shards.wf(),
                    orows == old_shards.spec_rows(),
                    nrows == new_shards.spec_rows(),
                    n == orows.len(),
                    n == nrows.len(),
                    i < n,
                    *old_rs == old_shards.spec_table()[i as int],
                    *new_rs == new_shards.spec_table()[i as int],
                    old_rs.spec_nodes() == orows[i as int],
                    new_rs.spec_nodes() == nrows[i as int],
                    range == spec_shard_range(i as int),
                    nlen == nrows[i as int].len(),
                    k <= nlen,
                    tids@.len() == tivs@.len(),
                    forall|a: int, b: int|
                        0 <= a < b < tids@.len() ==> id_views::<N>(tids@)[a] != id_views::<N>(
                            tids@,
                        )[b],
                    forall|a: int|
                        0 <= a < tids@.len() ==> spec_entry_matches(
                            orows,
                            tivs@[a]@,
                            if spec_is_target(
                                orows[i as int],
                                nrows[i as int],
                                id_views::<N>(tids@)[a],
                            ) && spec_seen(nrows[i as int], id_views::<N>(tids@)[a], k as int) {
                                spec_target_shards(
                                    orows,
                                    nrows,
                                    #[trigger] id_views::<N>(tids@)[a],
                                    i as int,
                                ).push(i as int)
                            } else {
                                spec_target_shards(orows, nrows, id_views::<N>(tids@)[a], i as int)
                            },
                        ) && tivs@[a]@.len() > 0,
                    spec_lists_targets_upto(orows, nrows, id_views::<N>(tids@), i as int, k as int),
                decreases nlen - k,
            {
                let cand = new_rs.get(k);
                let ghost t0 = cand.spec_id();
                proof {
                    lemma_ids_of_intro(nrows[i as int], k as int);
                    lemma_seen_step(nrows[i as int], t0, k as int);
                    assert(spec_seen(nrows[i as int], t0, k as int + 1));
                }
                let in_old = old_rs.contains_id(cand.id());
                if !in_old {
                    proof {
                        assert(spec_is_target(orows[i as int], nrows[i as int], t0));
                        // a later occurrence of the same id would contradict
                        // the distinctness of the new row
                        if spec_seen(nrows[i as int], t0, k as int) {
                            let m = choose|m: int|
                                0 <= m < k && (#[trigger] nrows[i as int][m]).spec_id() == t0;
                            assert(crate::sharding::distinct_ids(nrows[i as int]));
                            assert(false);
                        }
                    }
                    let iv = Interval::new(range, old_rs.to_vec());
                    let ghost ivg = iv;
                    let found = Self::find_in(&tids, cand.id());
                    let ghost pre_ids = tids@;
                    let ghost pre_ivs = tivs@;
                    match found {
                        Some(j) => {
                            let mut lst = tivs.remove(j);
                            lst.push(iv);
                            let ghost lst_view = lst@;
                            tivs.insert(j, lst);
                            proof {
                                let ids_v = id_views::<N>(tids@);
                                assert(tivs@.len() == pre_ivs.len());
                                assert(tivs@[j as int]@ == lst_view);
                                assert(lst_view =~= pre_ivs[j as int]@.push(ivg));
                                assert forall|a: int| 0 <= a < tivs@.len() && a != j implies
                                    tivs@[a] == pre_ivs[a] by {
                                    if a < j {
                                        assert(tivs@[a] == pre_ivs.remove(j as int).insert(
                                            j as int,
                                            tivs@[j as int],
                                        )[a]);
                                    }
                                }
                                let sts = spec_target_shards(orows, nrows, t0, i as int);
                                assert(spec_entry_matches(orows, pre_ivs[j as int]@, sts));
                                assert(spec_entry_matches(
                                    orows,
                                    tivs@[j as int]@,
                                    sts.push(i as int),
                                )) by {
                                    assert forall|m: int|
                                        0 <= m < tivs@[j as int]@.len() implies (
                                    #[trigger] tivs@[j as int]@[m]).spec_key_range()
                                        == spec_shard_range(sts.push(i as int)[m])
                                        && tivs@[j as int]@[m].spec_nodes() == orows[sts.push(
                                        i as int,
                                    )[m]] by {
                                        if m < sts.len() {
                                            assert(tivs@[j as int]@[m] == pre_ivs[j as int]@[m]);
                                            assert(sts.push(i as int)[m] == sts[m]);
                                        } else {
                                            assert(tivs@[j as int]@[m] == ivg);
                                            assert(sts.push(i as int)[m] == i as int);
                                        }
                                    }
                                }
                                assert forall|a: int|
                                    0 <= a < tids@.len() && a != j implies spec_entry_matches(
                                    orows,
                                    tivs@[a]@,
                                    if spec_is_target(orows[i as int], nrows[i as int], ids_v[a])
                                        && spec_seen(
                                        nrows[i as int],
                                        ids_v[a],
                                        k as int + 1,
                                    ) {
                                        spec_target_shards(
                                            orows,
                                            nrows,
                                            #[trigger] ids_v[a],
                                            i as int,
                                        ).push(i as int)
                                    } else {
                                        spec_target_shards(orows, nrows, ids_v[a], i as int)
                                    },
                                ) by {
                                    assert(tivs@[a]@ == pre_ivs[a]@);
                                    assert(ids_v[a] != t0);
                                    lemma_seen_step(nrows[i as int], ids_v[a], k as int);
                                }
                            }
                        },
                        None => {
                            tids.push(N::id_clone(cand.id()));
                            tivs.push(vec![iv]);
                            proof {
                                let ids_v = id_views::<N>(tids@);
                                let pre_v = id_views::<N>(pre_ids);
                                let plen = pre_ids.len() as int;
                                assert(ids_v =~= pre_v.push(t0));
                                assert(tivs@[plen]@ =~= seq![ivg]);
                                // this id was no target of an earlier shard
                                let sts = spec_target_shards(orows, nrows, t0, i as int);
                                if sts.len() > 0 {
                                    assert(pre_v.contains(t0));
                                    assert(false);
                                }
                                assert(sts =~= Seq::<int>::empty());
                                assert(spec_entry_matches(orows, tivs@[plen]@, sts.push(i as int)))
                                    by {
                                    assert(tivs@[plen]@[0] == ivg);
                                    assert(sts.push(i as int)[0] == i as int);
                                }
                                assert forall|a: int, b: int|
                                    0 <= a < b < tids@.len() implies ids_v[a] != ids_v[b] by {
                                    if b < plen {
                                        assert(ids_v[a] == pre_v[a] && ids_v[b] == pre_v[b]);
                                    } else {
                                        assert(ids_v[b] == t0);
                                        assert(ids_v[a] == pre_v[a]);
                                        if pre_v[a] == t0 {
                                            assert(pre_v.contains(t0)) by {
                                                assert(pre_v[a] == t0);
                                            }
                                            assert(false);
                                        }
                                    }
                                }
                                assert forall|a: int|
                                    0 <= a < tids@.len() && a != plen implies spec_entry_matches(
                                    orows,
                                    tivs@[a]@,
                                    if spec_is_target(orows[i as int], nrows[i as int], ids_v[a])
                                        && spec_seen(
                                        nrows[i as int],
                                        ids_v[a],
                                        k as int + 1,
                                    ) {
                                        spec_target_shards(
                                            orows,
                                            nrows,
                                            #[trigger] ids_v[a],
                                            i as int,
                                        ).push(i as int)
                                    } else {
                                        spec_target_shards(orows, nrows, ids_v[a], i as int)
                                    },
                                ) by {
                                    assert(tivs@[a]@ == pre_ivs[a]@);
                                    assert(ids_v[a] == pre_v[a]);
                                    if pre_v[a] == t0 {
                                        assert(pre_v.contains(t0)) by {
                                            assert(pre_v[a] == t0);
                                        }
                                        assert(false);
                                    }
                                    lemma_seen_step(nrows[i as int], ids_v[a], k as int);
                                }
                            }
                        },
                    }
                    proof {
                        // every id needing an entry now has one
                        let ids_v = id_views::<N>(tids@);
                        let pre_v = id_views::<N>(pre_ids);
                        assert(nrows[i as int][k as int].spec_id() == t0);
                        match found {
                            Some(j) => {
                                assert(ids_v == pre_v);
                                assert(ids_v[j as int] == t0);
                                assert(ids_v.contains(t0)) by {
                                    assert(ids_v[j as int] == t0);
                                }
                            },
                            None => {
                                assert(ids_v =~= pre_v.push(t0));
                                assert(ids_v[pre_v.len() as int] == t0);
                                assert(ids_v.contains(t0)) by {
                                    assert(ids_v[pre_v.len() as int] == t0);
                                }
                            },
                        }
                        lemma_upto_add(orows, nrows, pre_v, ids_v, i as int, k as int, t0);
                    }
                } else {
                    proof {
                        assert(!spec_is_target(orows[i as int], nrows[i as int], t0));
                        assert(nrows[i as int][k as int].spec_id() == t0);
                        lemma_upto_skip(
                            orows,
                            nrows,
                            id_views::<N>(tids@),
                            i as int,
                            k as int,
                        );
                    }
                }
                k = k + 1;
            }
            proof {
                assert forall|t: <N::Id as View>::V|
                    spec_is_target(orows[i as int], nrows[i as int], t) implies spec_seen(
                    nrows[i as int],
                    t,
                    nlen as int,
                ) by {
                    lemma_ids_of_witness(nrows[i as int], t);
                }
                let ids_now = id_views::<N>(tids@);
                assert(k == nlen);
                lemma_targets_step(orows, nrows, ids_now, i as int);
                assert forall|a: int| 0 <= a < tids@.len() implies spec_entry_matches(
                    orows,
                    tivs@[a]@,
                    spec_target_shards(orows, nrows, #[trigger] ids_now[a], i as int + 1),
                ) by {
                    let t = ids_now[a];
                    if spec_is_target(orows[i as int], nrows[i as int], t) {
                        assert(spec_seen(nrows[i as int], t, nlen as int));
                        assert(spec_target_shards(orows, nrows, t, i as int + 1)
                            == spec_target_shards(orows, nrows, t, i as int).push(i as int));
                    } else {
                        assert(spec_target_shards(orows, nrows, t, i as int + 1)
                            == spec_target_shards(orows, nrows, t, i as int));
                    }
                }
            }
            i = i + 1;
        }
        let plan = MigrationPlan { version, target_ids: tids, target_ivs: tivs };
        proof {
            assert(plan.spec_target_ids() == id_views::<N>(plan.target_ids@));
            assert(plan.spec_ivs().len() == plan.target_ivs@.len());
            assert forall|a: int| 0 <= a < plan.spec_ivs().len() implies (
            #[trigger] plan.spec_ivs()[a]) == plan.target_ivs@[a]@ by {}
            assert forall|a: int| 0 <= a < plan.spec_ivs().len() implies (
            #[trigger] plan.spec_ivs()[a]).len() > 0 by {
                assert(plan.spec_target_ids()[a] == id_views::<N>(plan.target_ids@)[a]);
            }
        }
        Ok(plan)
    }

    fn find_in(ids: &Vec<N::Id>, id: &N::Id) -> (r: Option<usize>)
        ensures
            match r {
                Some(a) => a < ids@.len() && id_views::<N>(ids@)[a as int] == id@,
                None => !id_views::<N>(ids@).contains(id@),
            },
    {
        let mut a: usize = 0;
        while a < ids.len()
            invariant
                a <= ids@.len(),
                forall|m: int| 0 <= m < a ==> id_views::<N>(ids@)[m] != id@,
            decreases ids@.len() - a,
        {
            if N::id_eq(&ids[a], id) {
                proof {
                    assert(id_views::<N>(ids@)[a as int] == ids@[a as int]@);
                }
                return Some(a);
            }
            proof {
                assert(id_views::<N>(ids@)[a as int] == ids@[a as int]@);
            }
            a = a + 1;
        }
        proof {
            if id_views::<N>(ids@).contains(id@) {
                let m = choose|m: int|
                    0 <= m < id_views::<N>(ids@).len() && id_views::<N>(ids@)[m] == id@;
                assert(false);
            }
        }
        None
    }

    /// Returns the version of the migration plan.
    pub fn version(&self) -> (r: u64)
        ensures
            r == self.spec_version(),
    {
        self.version
    }

    /// The ids of the nodes that must pull data.
    pub fn keys(&self) -> (r: Vec<N::Id>)
        ensures
            r@.len() == self.spec_target_ids().len(),
            forall|a: int| 0 <= a < r@.len() ==> (#[trigger] r@[a])@ == self.spec_target_ids()[a],
    {
        let mut out: Vec<N::Id> = Vec::new();
        let mut a: usize = 0;
        while a < self.target_ids.len()
            invariant
                a <= self.target_ids@.len(),
                out@.len() == a,
                forall|m: int|
                    0 <= m < a ==> (#[trigger] out@[m])@ == self.spec_target_ids()[m],
            decreases self.target_ids@.len() - a,
        {
            out.push(N::id_clone(&self.target_ids[a]));
            a = a + 1;
        }
        out
    }

    fn find_target(&self, id: &N::Id) -> (r: Option<usize>)
        requires
            self.wf(),
        ensures
            match r {
                Some(a) => a < self.spec_target_ids().len() && self.spec_target_ids()[a as int]
                    == id@,
                None => !self.spec_has_target(id@),
            },
    {
        let mut a: usize = 0;
        while a < self.target_ids.len()
            invariant
                a <= self.target_ids@.len(),
                forall|m: int| 0 <= m < a ==> self.spec_target_ids()[m] != id@,
            decreases self.target_ids@.len() - a,
        {
            if N::id_eq(&self.target_ids[a], id) {
                proof {
                    assert(self.spec_target_ids()[a as int] == self.target_ids@[a as int]@);
                }
                return Some(a);
            }
            proof {
                assert(self.spec_target_ids()[a as int] == self.target_ids@[a as int]@);
            }
            a = a + 1;
        }
        proof {
            if self.spec_target_ids().contains(id@) {
                let m = choose|m: int|
                    0 <= m < self.spec_target_ids().len() && self.spec_target_ids()[m] == id@;
                assert(false);
            }
        }
        None
    }

    /// The intervals that the node with the given id must pull: empty when
    /// the node is not a target.
    pub fn pull_intervals(&self, node_id: &N::Id) -> (r: Vec<Interval<N>>)
        requires
            self.wf(),
        ensures
            r@.len() == self.spec_intervals_of(node_id@).len(),
            forall|m: int|
                0 <= m < r@.len() ==> (#[trigger] r@[m]).spec_key_range()
                    == self.spec_intervals_of(node_id@)[m].spec_key_range() && r@[m].spec_nodes()
                    == self.spec_intervals_of(node_id@)[m].spec_nodes(),
    {
        match self.find_target(node_id) {
            Some(a) => {
                proof {
                    let w = choose|w: int|
                        0 <= w < self.spec_target_ids().len() && self.spec_target_ids()[w]
                            == node_id@;
                    assert(w == a as int);
                    assert(self.spec_intervals_of(node_id@) == self.spec_ivs()[a as int]);
                }
                let lst = &self.target_ivs[a];
                let mut out: Vec<Interval<N>> = Vec::new();
                let mut m: usize = 0;
                while m < lst.len()
                    invariant
                        m <= lst@.len(),
                        out@.len() == m,
                        forall|w: int|
                            0 <= w < m ==> (#[trigger] out@[w]).spec_key_range()
                                == lst@[w].spec_key_range() && out@[w].spec_nodes()
                                == lst@[w].spec_nodes(),
                    decreases lst@.len() - m,
                {
                    out.push(lst[m].clone());
                    m = m + 1;
                }
                proof {
                    assert(self.spec_ivs()[a as int] == self.target_ivs@[a as int]@);
                }
                out
            },
            None => Vec::new(),
        }
    }
}

} // verus!
