use vstd::prelude::*;

use crate::error::{KeyspaceError, KeyspaceResult};
use crate::hash::{mix64, mix_spec, rapid_v3, stream_hash};
use crate::interval::KeyRange;
use crate::node::{KeyspaceNode, NodeRef, Nodes};
use crate::replication::{ReplicaSet, ReplicationStrategy};

verus! {

/// Number of shards the keyspace is divided into: one per value of the top
/// sixteen bits of a key position.
pub const SHARD_COUNT: usize = 65536;

/// Index of a shard: the top sixteen bits of a key position.
#[derive(Debug, Clone, Copy)]
pub struct ShardIdx(u16);

impl ShardIdx {
    /// The index as an integer.
    pub closed spec fn spec_value(&self) -> u16 {
        self.0
    }

    /// Derives the shard index from a key position.
    pub fn from_position(pos: u64) -> (r: Self)
        ensures
            r.spec_value() == pos >> 48,
    {
        proof {
            assert(pos >> 48 < 65536) by (bit_vector);
        }
        ShardIdx((pos >> 48) as u16)
    }

    pub(crate) fn from_index(v: u16) -> (r: Self)
        ensures
            r.spec_value() == v,
    {
        ShardIdx(v)
    }

    /// The index as an integer.
    pub fn value(&self) -> (r: u16)
        ensures
            r == self.spec_value(),
    {
        self.0
    }
}

/// The key range that the shard with the given index governs: shard `i`
/// covers `[i << 48, (i + 1) << 48)`, except the last shard, which is
/// unbounded above.
pub open spec fn spec_shard_range(i: int) -> KeyRange {
    if i == 0xffff {
        KeyRange::Unbounded(0xffff_0000_0000_0000u64)
    } else {
        KeyRange::Bounded((i as u64) << 48, ((i + 1) as u64) << 48)
    }
}

/// Computes the key range governed by the shard with the given index.
pub(crate) fn shard_range_of(idx: u16) -> (r: KeyRange)
    ensures
        r == spec_shard_range(idx as int),
{
    let start: u64 = (idx as u64) << 48;
    if idx == 0xffff {
        proof {
            assert((0xffffu64) << 48 == 0xffff_0000_0000_0000u64) by (bit_vector);
        }
        KeyRange::Unbounded(start)
    } else {
        let end: u64 = ((idx as u64) + 1) << 48;
        KeyRange::Bounded(start, end)
    }
}

/// The anchor of a shard: the stable hash of the shard index's two-byte
/// little-endian encoding. Rendezvous scores mix each node's score key with
/// this value.
pub open spec fn spec_shard_anchor(i: u16) -> u64 {
    stream_hash(seq![(i & 0xff) as u8, (i >> 8) as u8])
}

pub(crate) fn shard_anchor(idx: u16) -> (r: u64)
    ensures
        r == spec_shard_anchor(idx),
{
    proof {
        assert(idx & 0xff < 256 && idx >> 8 < 256) by (bit_vector);
    }
    let lo: u8 = (idx & 0xff) as u8;
    let hi: u8 = (idx >> 8) as u8;
    let mut bytes: Vec<u8> = Vec::new();
    bytes.push(lo);
    bytes.push(hi);
    proof {
        assert(bytes@ =~= seq![(idx & 0xff) as u8, (idx >> 8) as u8]);
    }
    rapid_v3(bytes.as_slice())
}

/// The shard derived from a key position governs that position: the key
/// range of shard `position >> 48` contains the position. Together with
/// `ShardIdx::from_position` this pins down how positions map to shards.
pub proof fn lemma_shard_covers_position(pos: u64)
    ensures
        spec_shard_range((pos >> 48) as int).spec_contains(pos),
{
    let hi = pos >> 48;
    assert(pos >> 48 < 65536) by (bit_vector);
    vstd::bits::lemma_u64_shr_is_div(pos, 48);
    vstd::arithmetic::power2::lemma2_to64();
    vstd::arithmetic::power2::lemma2_to64_rest();
    let p48 = vstd::arithmetic::power2::pow2(48) as int;
    assert(p48 == 0x1_0000_0000_0000);
    vstd::arithmetic::div_mod::lemma_fundamental_div_mod(pos as int, p48);
    vstd::arithmetic::div_mod::lemma_mod_bound(pos as int, p48);
    assert(pos as int == p48 * (hi as int) + (pos as int) % p48);
    if hi == 0xffff {
        assert(0xffff_0000_0000_0000u64 <= pos);
    } else {
        vstd::bits::lemma_u64_shl_is_mul(hi, 48);
        vstd::bits::lemma_u64_shl_is_mul((hi + 1) as u64, 48);
        assert((((hi as int) as u64) << 48) == hi << 48);
        assert(hi << 48 <= pos);
        assert(pos < ((hi + 1) as u64) << 48);
        assert((((hi as int) + 1) as u64) == (hi + 1) as u64);
    }
}

/// Rendezvous precedence between two (score, position) pairs: higher scores
/// first; equal scores — possible only when two 64-bit mixes collide
/// exactly — keep the earlier candidate first, making the order total.
pub open spec fn pair_before(x: (u64, usize), y: (u64, usize)) -> bool {
    x.0 > y.0 || (x.0 == y.0 && x.1 <= y.1)
}

/// The (score, position) pair `x` placed at its position in a sequence
/// already ordered by precedence.
pub open spec fn insert_ranked(x: (u64, usize), s: Seq<(u64, usize)>) -> Seq<(u64, usize)>
    decreases s.len(),
{
    if s.len() == 0 {
        seq![x]
    } else if pair_before(x, s[0]) {
        seq![x] + s
    } else {
        seq![s[0]] + insert_ranked(x, s.drop_first())
    }
}

/// The (score, position) pairs of `s` ordered by precedence, one insertion
/// at a time from the left.
pub open spec fn sort_ranked(s: Seq<(u64, usize)>) -> Seq<(u64, usize)>
    decreases s.len(),
{
    if s.len() == 0 {
        Seq::empty()
    } else {
        insert_ranked(s.last(), sort_ranked(s.drop_last()))
    }
}

proof fn lemma_insert_ranked_props(x: (u64, usize), s: Seq<(u64, usize)>)
    ensures
        insert_ranked(x, s).len() == s.len() + 1,
        forall|k: int|
            0 <= k < insert_ranked(x, s).len() ==> (#[trigger] insert_ranked(x, s)[k]) == x
                || s.contains(insert_ranked(x, s)[k]),
    decreases s.len(),
{
    if s.len() == 0 {
    } else if pair_before(x, s[0]) {
        assert forall|k: int| 0 <= k < insert_ranked(x, s).len() implies (#[trigger] insert_ranked(
            x,
            s,
        )[k]) == x || s.contains(insert_ranked(x, s)[k]) by {
            if k > 0 {
                assert(insert_ranked(x, s)[k] == s[k - 1]);
            }
        }
    } else {
        lemma_insert_ranked_props(x, s.drop_first());
        let rest = insert_ranked(x, s.drop_first());
        assert forall|k: int| 0 <= k < insert_ranked(x, s).len() implies (#[trigger] insert_ranked(
            x,
            s,
        )[k]) == x || s.contains(insert_ranked(x, s)[k]) by {
            if k == 0 {
                assert(insert_ranked(x, s)[0] == s[0]);
                assert(s.contains(s[0]));
            } else {
                assert(insert_ranked(x, s)[k] == rest[k - 1]);
                if rest[k - 1] != x {
                    let j = choose|j: int|
                        0 <= j < s.drop_first().len() && s.drop_first()[j] == rest[k - 1];
                    assert(s[j + 1] == rest[k - 1]);
                }
            }
        }
    }
}

proof fn lemma_sort_ranked_props(s: Seq<(u64, usize)>)
    ensures
        sort_ranked(s).len() == s.len(),
        forall|k: int|
            0 <= k < sort_ranked(s).len() ==> s.contains(#[trigger] sort_ranked(s)[k]),
    decreases s.len(),
{
    if s.len() == 0 {
    } else {
        lemma_sort_ranked_props(s.drop_last());
        lemma_insert_ranked_props(s.last(), sort_ranked(s.drop_last()));
        assert forall|k: int| 0 <= k < sort_ranked(s).len() implies s.contains(
            #[trigger] sort_ranked(s)[k],
        ) by {
            let e = sort_ranked(s)[k];
            if e == s.last() {
                assert(s[s.len() - 1] == e);
            } else {
                assert(sort_ranked(s.drop_last()).contains(e));
                let j = choose|j: int|
                    0 <= j < sort_ranked(s.drop_last()).len() && sort_ranked(s.drop_last())[j]
                        == e;
                assert(s.drop_last().contains(e));
                let m = choose|m: int| 0 <= m < s.drop_last().len() && s.drop_last()[m] == e;
                assert(s[m] == e);
            }
        }
    }
}

/// Where `x` lands: `insert_ranked` places `x` right before the first
/// element it precedes.
proof fn lemma_insert_ranked_at(x: (u64, usize), s: Seq<(u64, usize)>, j: int)
    requires
        0 <= j <= s.len(),
        forall|k: int| 0 <= k < j ==> !pair_before(x, #[trigger] s[k]),
        j < s.len() ==> pair_before(x, s[j]),
    ensures
        insert_ranked(x, s) =~= s.take(j) + seq![x] + s.skip(j),
    decreases s.len(),
{
    if s.len() == 0 {
    } else if j == 0 {
    } else {
        assert(!pair_before(x, s[0]));
        lemma_insert_ranked_at(x, s.drop_first(), j - 1);
        assert(insert_ranked(x, s) == seq![s[0]] + insert_ranked(x, s.drop_first()));
        assert(insert_ranked(x, s.drop_first()) =~= s.drop_first().take(j - 1) + seq![x]
            + s.drop_first().skip(j - 1));
    }
}

fn pair_goes_before(x: (u64, usize), y: (u64, usize)) -> (r: bool)
    ensures
        r == pair_before(x, y),
{
    x.0 > y.0 || (x.0 == y.0 && x.1 <= y.1)
}

/// An insertion sort of (score, position) pairs by rendezvous precedence,
/// matching `sort_ranked` exactly.
fn sort_pairs(pairs: Vec<(u64, usize)>) -> (r: Vec<(u64, usize)>)
    ensures
        r@ == sort_ranked(pairs@),
{
    let mut out: Vec<(u64, usize)> = Vec::new();
    let mut i: usize = 0;
    while i < pairs.len()
        invariant
            i <= pairs@.len(),
            out@ == sort_ranked(pairs@.take(i as int)),
        decreases pairs@.len() - i,
    {
        let x = pairs[i];
        proof {
            lemma_sort_ranked_props(pairs@.take(i as int));
        }
        let mut j: usize = 0;
        while j < out.len() && !pair_goes_before(x, out[j])
            invariant
                j <= out@.len(),
                forall|k: int| 0 <= k < j ==> !pair_before(x, #[trigger] out@[k]),
            decreases out@.len() - j,
        {
            j = j + 1;
        }
        let ghost pre = out@;
        out.insert(j, x);
        i = i + 1;
        proof {
            lemma_insert_ranked_at(x, pre, j as int);
            assert(out@ =~= pre.take(j as int) + seq![x] + pre.skip(j as int));
            assert(pairs@.take(i as int).drop_last() =~= pairs@.take(i as int - 1));
            assert(pairs@.take(i as int).last() == x);
            assert(out@ =~= sort_ranked(pairs@.take(i as int)));
        }
    }
    proof {
        assert(pairs@.take(pairs@.len() as int) =~= pairs@);
    }
    out
}

/// No two pairs carry the same position.
pub open spec fn distinct_positions(s: Seq<(u64, usize)>) -> bool {
    forall|i: int, j: int| 0 <= i < j < s.len() ==> (#[trigger] s[i]).1 != (#[trigger] s[j]).1
}

proof fn lemma_insert_ranked_distinct(x: (u64, usize), s: Seq<(u64, usize)>)
    requires
        distinct_positions(s),
        forall|k: int| 0 <= k < s.len() ==> (#[trigger] s[k]).1 != x.1,
    ensures
        distinct_positions(insert_ranked(x, s)),
    decreases s.len(),
{
    lemma_insert_ranked_props(x, s);
    let r = insert_ranked(x, s);
    if s.len() == 0 {
    } else if pair_before(x, s[0]) {
        assert forall|i: int, j: int| 0 <= i < j < r.len() implies (#[trigger] r[i]).1 != (
        #[trigger] r[j]).1 by {
            if i > 0 {
                assert(r[i] == s[i - 1] && r[j] == s[j - 1]);
            } else {
                assert(r[j] == s[j - 1]);
            }
        }
    } else {
        lemma_insert_ranked_props(x, s.drop_first());
        lemma_insert_ranked_distinct(x, s.drop_first());
        let rest = insert_ranked(x, s.drop_first());
        assert forall|i: int, j: int| 0 <= i < j < r.len() implies (#[trigger] r[i]).1 != (
        #[trigger] r[j]).1 by {
            if i == 0 {
                assert(r[0] == s[0]);
                assert(r[j] == rest[j - 1]);
                if rest[j - 1] == x {
                } else {
                    assert(s.drop_first().contains(rest[j - 1]));
                    let m = choose|m: int|
                        0 <= m < s.drop_first().len() && s.drop_first()[m] == rest[j - 1];
                    assert(s[m + 1] == rest[j - 1]);
                }
            } else {
                assert(r[i] == rest[i - 1] && r[j] == rest[j - 1]);
            }
        }
    }
}

proof fn lemma_sort_ranked_distinct(s: Seq<(u64, usize)>)
    requires
        distinct_positions(s),
    ensures
        distinct_positions(sort_ranked(s)),
    decreases s.len(),
{
    if s.len() == 0 {
    } else {
        assert(distinct_positions(s.drop_last()));
        lemma_sort_ranked_distinct(s.drop_last());
        lemma_sort_ranked_props(s.drop_last());
        let x = s.last();
        assert forall|k: int| 0 <= k < sort_ranked(s.drop_last()).len() implies (
        #[trigger] sort_ranked(s.drop_last())[k]).1 != x.1 by {
            let e = sort_ranked(s.drop_last())[k];
            let m = choose|m: int| 0 <= m < s.drop_last().len() && s.drop_last()[m] == e;
            assert(s[m] == e);
            assert(s[s.len() - 1] == x);
        }
        lemma_insert_ranked_distinct(x, sort_ranked(s.drop_last()));
    }
}

/// No two handles carry the same node identity.
pub open spec fn distinct_ids<N: KeyspaceNode>(s: Seq<NodeRef<N>>) -> bool {
    forall|i: int, j: int|
        0 <= i < j < s.len() ==> (#[trigger] s[i]).spec_id() != (#[trigger] s[j]).spec_id()
}

/// The (score, position) pairs of a candidate sequence at a shard anchor.
pub open spec fn spec_ranked<N: KeyspaceNode>(s: Seq<NodeRef<N>>, anchor: u64) -> Seq<
    (u64, usize),
> {
    Seq::new(s.len(), |i: int| (mix_spec(s[i].spec_score_key(), anchor), i as usize))
}

/// The candidates in rendezvous order for the given shard anchor: highest
/// mixed score first, with ties keeping the earlier candidate first.
pub open spec fn hrw_order<N: KeyspaceNode>(s: Seq<NodeRef<N>>, anchor: u64) -> Seq<NodeRef<N>> {
    sort_ranked(spec_ranked(s, anchor)).map_values(|p: (u64, usize)| s[p.1 as int])
}

proof fn lemma_sorted_shape<N: KeyspaceNode>(s: Seq<NodeRef<N>>, anchor: u64)
    requires
        s.len() <= usize::MAX,
    ensures
        sort_ranked(spec_ranked(s, anchor)).len() == s.len(),
        forall|k: int|
            0 <= k < s.len() ==> 0 <= (#[trigger] sort_ranked(spec_ranked(s, anchor))[k]).1
                < s.len() && sort_ranked(spec_ranked(s, anchor))[k] == spec_ranked(s, anchor)[
                sort_ranked(spec_ranked(s, anchor))[k].1 as int
            ],
        distinct_positions(sort_ranked(spec_ranked(s, anchor))),
{
    let ranked = spec_ranked(s, anchor);
    let sorted = sort_ranked(ranked);
    lemma_sort_ranked_props(ranked);
    assert forall|i: int, j: int| 0 <= i < j < ranked.len() implies (#[trigger] ranked[i]).1 != (
    #[trigger] ranked[j]).1 by {
        assert(ranked[i].1 == i as usize);
        assert(ranked[j].1 == j as usize);
        assert(i as usize != j as usize);
    }
    lemma_sort_ranked_distinct(ranked);
    assert forall|k: int| 0 <= k < s.len() implies 0 <= (#[trigger] sorted[k]).1 < s.len()
        && sorted[k] == ranked[sorted[k].1 as int] by {
        assert(ranked.contains(sorted[k]));
        let j = choose|j: int| 0 <= j < ranked.len() && ranked[j] == sorted[k];
        assert(ranked[j].1 == j as usize);
    }
}

#[verifier::rlimit(50)]
pub proof fn lemma_hrw_order_props<N: KeyspaceNode>(s: Seq<NodeRef<N>>, anchor: u64)
    requires
        s.len() <= usize::MAX,
        distinct_ids(s),
    ensures
        hrw_order(s, anchor).len() == s.len(),
        forall|k: int| 0 <= k < s.len() ==> s.contains(#[trigger] hrw_order(s, anchor)[k]),
        distinct_ids(hrw_order(s, anchor)),
{
    let ranked = spec_ranked(s, anchor);
    let sorted = sort_ranked(ranked);
    let ordered = hrw_order(s, anchor);
    lemma_sorted_shape(s, anchor);
    assert(ordered.len() == s.len());
    assert forall|k: int| 0 <= k < s.len() implies s.contains(#[trigger] ordered[k]) by {
        assert(ordered[k] == s[sorted[k].1 as int]);
        let w = sorted[k].1 as int;
        assert(s[w] == ordered[k]);
    }
    assert forall|i: int, j: int| 0 <= i < j < s.len() implies (#[trigger] ordered[i]).spec_id()
        != (#[trigger] ordered[j]).spec_id() by {
        assert(sorted[i].1 != sorted[j].1);
        assert(ordered[i] == s[sorted[i].1 as int]);
        assert(ordered[j] == s[sorted[j].1 as int]);
        let a = sorted[i].1 as int;
        let b = sorted[j].1 as int;
        if a < b {
            assert(s[a].spec_id() != s[b].spec_id());
        } else {
            assert(s[b].spec_id() != s[a].spec_id());
        }
    }
}

proof fn lemma_insert_point(x: (u64, usize), s: Seq<(u64, usize)>) -> (j: int)
    ensures
        0 <= j <= s.len(),
        insert_ranked(x, s) =~= s.take(j) + seq![x] + s.skip(j),
    decreases s.len(),
{
    if s.len() == 0 {
        lemma_insert_ranked_at(x, s, 0);
        0
    } else if pair_before(x, s[0]) {
        lemma_insert_ranked_at(x, s, 0);
        0
    } else {
        let j0 = lemma_insert_point(x, s.drop_first());
        assert(insert_ranked(x, s) == seq![s[0]] + insert_ranked(x, s.drop_first()));
        assert(insert_ranked(x, s.drop_first()) =~= s.drop_first().take(j0) + seq![x]
            + s.drop_first().skip(j0));
        assert(insert_ranked(x, s) =~= s.take(j0 + 1) + seq![x] + s.skip(j0 + 1)) by {
            assert forall|m: int| 0 <= m < insert_ranked(x, s).len() implies insert_ranked(
                x,
                s,
            )[m] == (s.take(j0 + 1) + seq![x] + s.skip(j0 + 1))[m] by {
                if m > 0 {
                    assert(insert_ranked(x, s)[m] == insert_ranked(x, s.drop_first())[m - 1]);
                    if m - 1 < j0 {
                        assert(s.drop_first().take(j0)[m - 1] == s[m]);
                    } else if m - 1 > j0 {
                        assert(insert_ranked(x, s.drop_first())[m - 1] == s.drop_first().skip(
                            j0,
                        )[m - 2 - j0]);
                        assert(s.drop_first().skip(j0)[m - 2 - j0] == s[m - 1]);
                        assert((s.take(j0 + 1) + seq![x] + s.skip(j0 + 1))[m] == s.skip(
                            j0 + 1,
                        )[m - j0 - 2]);
                        assert(s.skip(j0 + 1)[m - j0 - 2] == s[m - 1]);
                    }
                }
            }
        }
        j0 + 1
    }
}

/// Extending the candidates by one node changes any leading prefix of the
/// rendezvous order only by the insertion of that node: every other node
/// in the new prefix already stood in the old prefix at the same length.
/// This is the minimal-perturbation property of rendezvous ranking.
#[verifier::rlimit(100)]
pub proof fn lemma_order_prefix_locality<N: KeyspaceNode>(
    s: Seq<NodeRef<N>>,
    x: NodeRef<N>,
    anchor: u64,
    rf: int,
)
    requires
        s.len() + 1 <= usize::MAX,
        0 <= rf <= s.len(),
    ensures
        forall|t: <N::Id as View>::V|
            crate::replication::ids_of(hrw_order(s.push(x), anchor).take(rf)).contains(t) && t
                != x.spec_id() ==> crate::replication::ids_of(
                hrw_order(s, anchor).take(rf),
            ).contains(t),
{
    let n = s.len() as int;
    let sx = s.push(x);
    let ranked = spec_ranked(s, anchor);
    let rankedx = spec_ranked(sx, anchor);
    let p = (mix_spec(x.spec_score_key(), anchor), s.len() as usize);
    assert(rankedx =~= ranked.push(p)) by {
        assert forall|i: int| 0 <= i < rankedx.len() implies rankedx[i] == ranked.push(p)[i] by {
            if i < n {
                assert(sx[i] == s[i]);
            } else {
                assert(sx[i] == x);
            }
        }
    }
    let sorted = sort_ranked(ranked);
    let sortedx = sort_ranked(rankedx);
    assert(sortedx == insert_ranked(p, sorted)) by {
        assert(rankedx.len() == n + 1);
        assert(rankedx.last() == p);
        assert(rankedx.drop_last() =~= ranked);
    }
    lemma_sorted_shape(s, anchor);
    lemma_sort_ranked_props(ranked);
    let j = lemma_insert_point(p, sorted);
    let ordered = hrw_order(s, anchor);
    let orderedx = hrw_order(sx, anchor);
    assert forall|k: int|
        0 <= k < rf implies #[trigger] orderedx[k] == x || exists|m: int|
            0 <= m < rf && ordered[m] == orderedx[k] by {
        let q = sortedx[k];
        assert(orderedx[k] == sx[q.1 as int]);
        if k < j {
            assert(sortedx[k] == (sorted.take(j) + seq![p] + sorted.skip(j))[k]);
            assert(q == sorted[k]);
            assert(0 <= q.1 < n && q == ranked[q.1 as int]);
            assert(sx[q.1 as int] == s[q.1 as int]);
            assert(ordered[k] == s[sorted[k].1 as int]);
            assert(ordered[k] == orderedx[k]);
        } else if k == j {
            assert(sortedx[k] == (sorted.take(j) + seq![p] + sorted.skip(j))[k]);
            assert(q == p);
            assert(sx[n] == x);
        } else {
            assert(sortedx[k] == (sorted.take(j) + seq![p] + sorted.skip(j))[k]);
            assert(q == sorted[k - 1]);
            assert(0 <= q.1 < n && q == ranked[q.1 as int]);
            assert(sx[q.1 as int] == s[q.1 as int]);
            assert(ordered[k - 1] == s[sorted[k - 1].1 as int]);
            assert(ordered[k - 1] == orderedx[k]);
        }
    }
    assert forall|t: <N::Id as View>::V|
        crate::replication::ids_of(orderedx.take(rf)).contains(t) && t != x.spec_id() implies
        crate::replication::ids_of(ordered.take(rf)).contains(t) by {
        crate::replication::lemma_ids_of_witness(orderedx.take(rf), t);
        let k = choose|k: int|
            0 <= k < orderedx.take(rf).len() && (#[trigger] orderedx.take(rf)[k]).spec_id() == t;
        assert(orderedx[k].spec_id() == t);
        assert(orderedx[k] != x);
        let m = choose|m: int| 0 <= m < rf && ordered[m] == orderedx[k];
        assert(ordered.take(rf)[m].spec_id() == t);
        crate::replication::lemma_ids_of_intro(ordered.take(rf), m);
    }
}

/// Computes the rendezvous order of the candidates for a shard anchor.
fn order_candidates<N: KeyspaceNode>(values: &Vec<NodeRef<N>>, anchor: u64) -> (r: Vec<
    NodeRef<N>,
>)
    ensures
        r@ == hrw_order(values@, anchor),
{
    let mut pairs: Vec<(u64, usize)> = Vec::new();
    let mut i: usize = 0;
    while i < values.len()
        invariant
            i <= values@.len(),
            pairs@ == spec_ranked(values@, anchor).take(i as int),
        decreases values@.len() - i,
    {
        let m = mix64(values[i].score_key(), anchor);
        pairs.push((m, i));
        i = i + 1;
        proof {
            assert(pairs@ =~= spec_ranked(values@, anchor).take(i as int));
        }
    }
    proof {
        assert(pairs@ =~= spec_ranked(values@, anchor));
    }
    let sorted = sort_pairs(pairs);
    proof {
        lemma_sort_ranked_props(spec_ranked(values@, anchor));
    }
    let mut out: Vec<NodeRef<N>> = Vec::new();
    let mut k: usize = 0;
    while k < sorted.len()
        invariant
            k <= sorted@.len(),
            sorted@ == sort_ranked(spec_ranked(values@, anchor)),
            sorted@.len() == values@.len(),
            forall|m: int|
                0 <= m < sorted@.len() ==> spec_ranked(values@, anchor).contains(
                    #[trigger] sorted@[m],
                ),
            out@ == hrw_order(values@, anchor).take(k as int),
        decreases sorted@.len() - k,
    {
        let p = sorted[k];
        proof {
            assert(spec_ranked(values@, anchor).contains(sorted@[k as int]));
            let j = choose|j: int|
                0 <= j < spec_ranked(values@, anchor).len() && spec_ranked(values@, anchor)[j]
                    == sorted@[k as int];
            assert(sorted@[k as int].1 == j);
        }
        out.push(values[p.1].clone());
        k = k + 1;
        proof {
            assert(out@ =~= hrw_order(values@, anchor).take(k as int));
        }
    }
    proof {
        assert(out@ =~= hrw_order(values@, anchor));
    }
    out
}

/// Whether `m` picks the elements of `sub` out of `sup` in order:
/// strictly increasing positions, one per element.
pub open spec fn spec_selects<N: KeyspaceNode>(
    m: Seq<int>,
    sub: Seq<NodeRef<N>>,
    sup: Seq<NodeRef<N>>,
) -> bool {
    &&& m.len() == sub.len()
    &&& forall|k: int| 0 <= k < m.len() ==> 0 <= #[trigger] m[k] < sup.len() && sub[k] == sup[m[k]]
    &&& forall|k1: int, k2: int| 0 <= k1 < k2 < m.len() ==> #[trigger] m[k1] < #[trigger] m[k2]
}

/// Whether `sub` appears within `sup` in order: an order-preserving
/// selection of some of its elements.
pub open spec fn spec_subsequence_of<N: KeyspaceNode>(
    sub: Seq<NodeRef<N>>,
    sup: Seq<NodeRef<N>>,
) -> bool {
    exists|m: Seq<int>| #[trigger] spec_selects(m, sub, sup)
}

/// Walks the ordered candidates, admits those the strategy accepts, and
/// stops once the replication factor is reached. For a strategy that
/// accepts every candidate the selection is exactly the leading `RF`
/// candidates.
fn select_replicas<N: KeyspaceNode, R: ReplicationStrategy<N>, const RF: usize>(
    ordered: &Vec<NodeRef<N>>,
    strategy: &mut R,
) -> (r: Vec<NodeRef<N>>)
    requires
        distinct_ids(ordered@),
    ensures
        r@.len() <= RF,
        R::spec_accepts_all() ==> r@ == (if ordered@.len() >= RF as int {
            ordered@.take(RF as int)
        } else {
            ordered@
        }),
        forall|k: int| 0 <= k < r@.len() ==> ordered@.contains(#[trigger] r@[k]),
        distinct_ids(r@),
        spec_subsequence_of(r@, ordered@),
{
    let mut selected: Vec<NodeRef<N>> = Vec::new();
    let ghost mut picks: Seq<int> = Seq::empty();
    let mut i: usize = 0;
    while i < ordered.len() && selected.len() < RF
        invariant
            distinct_ids(ordered@),
            i <= ordered@.len(),
            selected@.len() <= RF,
            picks.len() == selected@.len(),
            forall|k: int| 0 <= k < picks.len() ==> 0 <= #[trigger] picks[k] < i,
            forall|k: int|
                0 <= k < picks.len() ==> #[trigger] selected@[k] == ordered@[picks[k]],
            forall|k1: int, k2: int|
                0 <= k1 < k2 < picks.len() ==> #[trigger] picks[k1] < #[trigger] picks[k2],
            distinct_ids(selected@),
            R::spec_accepts_all() ==> selected@ == (if i as int <= RF as int {
                ordered@.take(i as int)
            } else {
                ordered@.take(RF as int)
            }),
        decreases ordered@.len() - i,
    {
        let node = &ordered[i];
        if strategy.is_eligible_replica(node.inner()) {
            proof {
                assert forall|k: int| 0 <= k < selected@.len() implies (
                #[trigger] selected@[k]).spec_id() != ordered@[i as int].spec_id() by {
                    assert(selected@[k] == ordered@[picks[k]]);
                    let a = picks[k];
                    let b = i as int;
                    assert(0 <= a < b < ordered@.len());
                    assert((ordered@[a]).spec_id() != (ordered@[b]).spec_id());
                }
            }
            selected.push(node.clone());
            proof {
                picks = picks.push(i as int);
            }
        }
        i = i + 1;
        proof {
            if R::spec_accepts_all() {
                if i as int <= RF as int {
                    assert(selected@ =~= ordered@.take(i as int));
                }
            }
        }
    }
    proof {
        assert forall|k: int| 0 <= k < selected@.len() implies ordered@.contains(
            #[trigger] selected@[k],
        ) by {
            assert(selected@[k] == ordered@[picks[k]]);
        }
        if R::spec_accepts_all() {
            if ordered@.len() >= RF as int {
                assert(selected@ == ordered@.take(RF as int));
            } else {
                assert(i == ordered@.len());
                assert(selected@ =~= ordered@);
            }
        }
        assert(spec_selects(picks, selected@, ordered@));
    }
    selected
}

/// The shard table: the keyspace uniformly divided into shards, each
/// governed by a replica set of nodes.
pub struct Shards<N, const RF: usize> {
    table: Vec<ReplicaSet<N, RF>>,
}

/// A shard: one slice of the keyspace together with its replica set.
pub struct Shard<'a, N, const RF: usize> {
    idx: ShardIdx,
    replica_set: &'a ReplicaSet<N, RF>,
}

impl<'a, N: KeyspaceNode, const RF: usize> Shard<'a, N, RF> {
    pub closed spec fn spec_idx(&self) -> u16 {
        self.idx.spec_value()
    }

    pub closed spec fn spec_replica_set(&self) -> ReplicaSet<N, RF> {
        *self.replica_set
    }

    /// Creates a shard from its index and replica set.
    pub fn new(idx: ShardIdx, replica_set: &'a ReplicaSet<N, RF>) -> (r: Self)
        ensures
            r.spec_idx() == idx.spec_value(),
            r.spec_replica_set() == *replica_set,
    {
        Shard { idx, replica_set }
    }

    /// The replica set of the shard.
    pub fn replica_set(&self) -> (r: &ReplicaSet<N, RF>)
        ensures
            *r == self.spec_replica_set(),
    {
        self.replica_set
    }

    /// The range of keys that this shard governs.
    pub fn key_range(&self) -> (r: KeyRange)
        ensures
            r == spec_shard_range(self.spec_idx() as int),
    {
        shard_range_of(self.idx.value())
    }
}

impl<N: KeyspaceNode, const RF: usize> Shards<N, RF> {
    /// The replica sets, indexed by shard.
    pub closed spec fn spec_table(&self) -> Seq<ReplicaSet<N, RF>> {
        self.table@
    }

    /// The replica-node sequences, indexed by shard.
    pub open spec fn spec_rows(&self) -> Seq<Seq<NodeRef<N>>> {
        self.spec_table().map_values(|rs: ReplicaSet<N, RF>| rs.spec_nodes())
    }

    /// A well-formed table has one row per shard, each with exactly the
    /// replication factor many handles, no node twice in a row.
    pub open spec fn wf(&self) -> bool {
        &&& self.spec_rows().len() == SHARD_COUNT
        &&& forall|i: int|
            0 <= i < SHARD_COUNT ==> (#[trigger] self.spec_rows()[i]).len() == RF as int
        &&& forall|i: int| 0 <= i < SHARD_COUNT ==> distinct_ids(#[trigger] self.spec_rows()[i])
    }

    /// Every handle in every row is one of `values`.
    pub open spec fn spec_rows_from(&self, values: Seq<NodeRef<N>>) -> bool {
        forall|i: int, k: int|
            0 <= i < self.spec_rows().len() && 0 <= k < self.spec_rows()[i].len()
                ==> values.contains(#[trigger] self.spec_rows()[i][k])
    }

    /// The row that a strategy admitting every candidate yields for shard
    /// `i`: the leading `rf` candidates in rendezvous order.
    pub open spec fn spec_full_row(values: Seq<NodeRef<N>>, i: u16, rf: int) -> Seq<NodeRef<N>> {
        hrw_order(values, spec_shard_anchor(i)).take(rf)
    }

    /// Builds the shard table over the given nodes: for each shard, the
    /// candidates are ranked in rendezvous order with respect to the shard's
    /// anchor, the strategy filters them, and the first `RF` survivors form
    /// the shard's replica set.
    pub fn new<R: ReplicationStrategy<N>>(nodes: &Nodes<N>, replication_strategy: R) -> (r:
        KeyspaceResult<Self>)
        requires
            nodes.wf(),
        ensures
            (nodes.spec_entries().len() < RF as int) <==> (r matches Err(e) && e
                == KeyspaceError::NotEnoughNodes(RF)),
            R::spec_accepts_all() && nodes.spec_entries().len() >= RF as int ==> r is Ok,
            match r {
                Ok(s) => {
                    &&& s.wf()
                    &&& s.spec_rows_from(nodes.spec_entries())
                    &&& forall|i: int|
                        0 <= i < SHARD_COUNT ==> spec_subsequence_of(
                            #[trigger] s.spec_rows()[i],
                            hrw_order(nodes.spec_entries(), spec_shard_anchor(i as u16)),
                        )
                    &&& R::spec_accepts_all() ==> forall|i: int|
                        0 <= i < SHARD_COUNT ==> #[trigger] s.spec_rows()[i]
                            == Self::spec_full_row(nodes.spec_entries(), i as u16, RF as int)
                },
                Err(e) => e == KeyspaceError::NotEnoughNodes(RF) || e
                    == KeyspaceError::IncompleteReplicaSet,
            },
    {
        if nodes.len() < RF {
            return Err(KeyspaceError::NotEnoughNodes(RF));
        }
        let values = nodes.values();
        let n_values = values.len();
        proof {
            assert(values@.len() == n_values);
            assert forall|a: int, b: int| 0 <= a < b < values@.len() implies (
            #[trigger] values@[a]).spec_id() != (#[trigger] values@[b]).spec_id() by {
                assert(nodes.spec_ids()[a] == values@[a].spec_id());
                assert(nodes.spec_ids()[b] == values@[b].spec_id());
            }
        }
        let mut table: Vec<ReplicaSet<N, RF>> = Vec::new();
        let mut i: usize = 0;
        while i < SHARD_COUNT
            invariant
                nodes.wf(),
                values@ == nodes.spec_entries(),
                distinct_ids(values@),
                values@.len() >= RF as int,
                values@.len() <= usize::MAX,
                i <= SHARD_COUNT,
                table@.len() == i,
                forall|k: int|
                    0 <= k < i ==> (#[trigger] table@[k].spec_nodes()).len() == RF as int,
                forall|k: int| 0 <= k < i ==> distinct_ids(#[trigger] table@[k].spec_nodes()),
                forall|k: int, m: int|
                    0 <= k < i && 0 <= m < table@[k].spec_nodes().len() ==> values@.contains(
                        #[trigger] table@[k].spec_nodes()[m],
                    ),
                forall|k: int|
                    0 <= k < i ==> spec_subsequence_of(
                        #[trigger] table@[k].spec_nodes(),
                        hrw_order(values@, spec_shard_anchor(k as u16)),
                    ),
                R::spec_accepts_all() ==> forall|k: int|
                    0 <= k < i ==> #[trigger] table@[k].spec_nodes() == Self::spec_full_row(
                        values@,
                        k as u16,
                        RF as int,
                    ),
            decreases SHARD_COUNT - i,
        {
            let anchor = shard_anchor(i as u16);
            let ordered = order_candidates(&values, anchor);
            proof {
                lemma_hrw_order_props(values@, anchor);
            }
            let mut strat = replication_strategy.clone();
            let selected = select_replicas::<N, R, RF>(&ordered, &mut strat);
            let ghost sel = selected@;
            if selected.len() < RF {
                return Err(KeyspaceError::IncompleteReplicaSet);
            }
            match ReplicaSet::<N, RF>::try_from_iter(selected) {
                Ok(rs) => {
                    proof {
                        assert(rs.spec_nodes() =~= sel);
                        assert(spec_subsequence_of(rs.spec_nodes(), ordered@));
                        assert(spec_subsequence_of(
                            rs.spec_nodes(),
                            hrw_order(values@, spec_shard_anchor(i as u16)),
                        ));
                        if R::spec_accepts_all() {
                            assert(ordered@.len() == values@.len() >= RF as int);
                            assert(rs.spec_nodes() == Self::spec_full_row(
                                values@,
                                i as u16,
                                RF as int,
                            ));
                        }
                        assert forall|m: int| 0 <= m < rs.spec_nodes().len() implies
                            values@.contains(#[trigger] rs.spec_nodes()[m]) by {
                            assert(ordered@.contains(sel[m]));
                            let w = choose|w: int|
                                0 <= w < ordered@.len() && ordered@[w] == sel[m];
                            assert(values@.contains(ordered@[w]));
                        }
                    }
                    table.push(rs);
                },
                Err(e) => {
                    proof {
                        assert(false);
                    }
                    return Err(e);
                },
            }
            i = i + 1;
        }
        let s = Shards { table };
        proof {
            assert(s.spec_rows().len() == SHARD_COUNT);
        }
        Ok(s)
    }

    /// Number of shards in the table.
    pub fn len(&self) -> (r: usize)
        ensures
            r == self.spec_table().len(),
    {
        self.table.len()
    }

    /// The replica set of the shard with the given index.
    pub fn replica_set(&self, idx: ShardIdx) -> (r: &ReplicaSet<N, RF>)
        requires
            self.wf(),
        ensures
            *r == self.spec_table()[idx.spec_value() as int],
    {
        let i = idx.value();
        proof {
            assert(self.spec_rows().len() == self.spec_table().len());
        }
        &self.table[i as usize]
    }

    /// Determinism of the sharding engine: two tables whose rows each equal
    /// the full rendezvous selection over the same candidate sequence are
    /// identical. Placement is a function of the stored score keys alone,
    /// so rebuilding over unchanged nodes reproduces the table exactly.
    pub proof fn lemma_table_deterministic(s1: Self, s2: Self, values: Seq<NodeRef<N>>)
        requires
            s1.spec_rows().len() == SHARD_COUNT,
            s2.spec_rows().len() == SHARD_COUNT,
            forall|i: int|
                0 <= i < SHARD_COUNT ==> #[trigger] s1.spec_rows()[i] == Self::spec_full_row(
                    values,
                    i as u16,
                    RF as int,
                ),
            forall|i: int|
                0 <= i < SHARD_COUNT ==> #[trigger] s2.spec_rows()[i] == Self::spec_full_row(
                    values,
                    i as u16,
                    RF as int,
                ),
        ensures
            s1.spec_rows() == s2.spec_rows(),
    {
        assert(s1.spec_rows() =~= s2.spec_rows());
    }

    pub(crate) fn row(&self, i: usize) -> (r: &ReplicaSet<N, RF>)
        requires
            i < self.spec_table().len(),
        ensures
            *r == self.spec_table()[i as int],
    {
        &self.table[i]
    }

    /// The shards of the table, in index order.
    pub fn iter(&self) -> (r: Vec<Shard<'_, N, RF>>)
        requires
            self.wf(),
        ensures
            r@.len() == SHARD_COUNT,
            forall|i: int|
                0 <= i < SHARD_COUNT ==> (#[trigger] r@[i]).spec_idx() == i as u16
                    && r@[i].spec_replica_set() == self.spec_table()[i],
    {
        let mut out: Vec<Shard<'_, N, RF>> = Vec::new();
        let mut i: usize = 0;
        proof {
            assert(self.spec_rows().len() == self.spec_table().len());
        }
        while i < SHARD_COUNT
            invariant
                self.wf(),
                self.spec_table().len() == SHARD_COUNT,
                i <= SHARD_COUNT,
                out@.len() == i,
                forall|k: int|
                    0 <= k < i ==> (#[trigger] out@[k]).spec_idx() == k as u16
                        && out@[k].spec_replica_set() == self.spec_table()[k],
            decreases SHARD_COUNT - i,
        {
            let idx = ShardIdx::from_index(i as u16);
            out.push(Shard::new(idx, &self.table[i]));
            i = i + 1;
        }
        out
    }
}

} // verus!
