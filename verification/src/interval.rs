use vstd::prelude::*;

use crate::node::{KeyspaceNode, NodeRef};

verus! {

/// A range of keys in the keyspace: half-open `[start, end)` when bounded,
/// or everything from `start` upward.
#[derive(Debug, Clone, Copy, PartialEq, Eq, Structural)]
pub enum KeyRange {
    Bounded(u64, u64),
    Unbounded(u64),
}

impl KeyRange {
    /// Creates a key range from a start position and an optional end.
    pub fn new(start: u64, end: Option<u64>) -> (r: Self)
        ensures
            r == (match end {
                Some(e) => KeyRange::Bounded(start, e),
                None => KeyRange::Unbounded(start),
            }),
    {
        match end {
            Some(e) => KeyRange::Bounded(start, e),
            None => KeyRange::Unbounded(start),
        }
    }

    /// Whether the position lies in the range.
    pub open spec fn spec_contains(self, pos: u64) -> bool {
        match self {
            KeyRange::Bounded(start, end) => start <= pos && pos < end,
            KeyRange::Unbounded(start) => start <= pos,
        }
    }

    /// Checks whether the given position lies in the range. Note that not a
    /// key itself but the hash of a key gives its position in the keyspace.
    pub fn contains(&self, key_hash: u64) -> (r: bool)
        ensures
            r == self.spec_contains(key_hash),
    {
        match self {
            KeyRange::Bounded(start, end) => *start <= key_hash && key_hash < *end,
            KeyRange::Unbounded(start) => *start <= key_hash,
        }
    }
}

/// A half-open interval of the keyspace together with the nodes that
/// currently hold its data.
pub struct Interval<N> {
    key_range: KeyRange,
    nodes: Vec<NodeRef<N>>,
}

impl<N: KeyspaceNode> Interval<N> {
    /// The interval's range.
    pub closed spec fn spec_key_range(&self) -> KeyRange {
        self.key_range
    }

    /// The handles of the nodes holding the interval's data, in selection
    /// order.
    pub closed spec fn spec_nodes(&self) -> Seq<NodeRef<N>> {
        self.nodes@
    }

    /// Creates an interval covering `key_range`, sourced from `nodes`.
    pub(crate) fn new(key_range: KeyRange, nodes: Vec<NodeRef<N>>) -> (r: Self)
        ensures
            r.spec_key_range() == key_range,
            r.spec_nodes() == nodes@,
    {
        Interval { key_range, nodes }
    }

    /// Returns the key range of the interval.
    pub fn key_range(&self) -> (r: &KeyRange)
        ensures
            *r == self.spec_key_range(),
    {
        &self.key_range
    }

    /// Returns the nodes responsible for the interval.
    pub fn nodes(&self) -> (r: &Vec<NodeRef<N>>)
        ensures
            r@ == self.spec_nodes(),
    {
        &self.nodes
    }
}

impl<N: KeyspaceNode> Clone for Interval<N> {
    fn clone(&self) -> (r: Self)
        ensures
            r.spec_key_range() == self.spec_key_range(),
            r.spec_nodes() == self.spec_nodes(),
    {
        let mut nodes: Vec<NodeRef<N>> = Vec::new();
        let mut i: usize = 0;
        while i < self.nodes.len()
            invariant
                i <= self.nodes@.len(),
                nodes@ == self.nodes@.take(i as int),
            decreases self.nodes@.len() - i,
        {
            nodes.push(self.nodes[i].clone());
            i = i + 1;
            proof {
                assert(nodes@ =~= self.nodes@.take(i as int));
            }
        }
        proof {
            assert(nodes@ =~= self.nodes@);
        }
        Interval { key_range: self.key_range, nodes }
    }
}

} // verus!
