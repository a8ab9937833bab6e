use vstd::prelude::*;

verus! {

/// The 64-bit digest that the stable byte-stream hash assigns to a sequence
/// of bytes. The digest depends on the bytes alone: it is the same in every
/// process and on every machine, which is what makes key positions and node
/// scores reproducible across platforms.
pub uninterp spec fn stream_hash(bytes: Seq<u8>) -> u64;

/// Relies on rapidhash::v3::rapidhash_v3: a pure function of the input
/// bytes, with the default seed and secrets, fixed across platforms and
/// releases.
#[verifier::external_body]
pub(crate) fn rapid_v3(bytes: &[u8]) -> (r: u64)
    ensures
        r == stream_hash(bytes@),
{
    rapidhash::v3::rapidhash_v3(bytes)
}

/// Relies on hrw_hash::DefaultHasher (through std's BuildHasher machinery):
/// it buffers the key's hash stream and digests it with the stable
/// byte-stream hash. The result depends on the key's Hash implementation,
/// which this crate cannot model, so nothing is promised of it; callers pass
/// the returned position to verified code that is exact in the position.
#[verifier::external_body]
pub(crate) fn key_position_of<K: core::hash::Hash + ?Sized>(key: &K) -> (r: u64) {
    let bh = std::hash::BuildHasherDefault::<hrw_hash::DefaultHasher>::default();
    std::hash::BuildHasher::hash_one(&bh, key)
}

/// Relies on hrw_hash::DefaultHasher (through std's BuildHasher machinery):
/// digests a shared node handle exactly as a rendezvous scoring context
/// built over such handles would. The result depends on the node's Hash
/// implementation, which this crate cannot model, so nothing is promised of
/// it; the handle stores the returned score key once, and placement is
/// verified to be a function of the stored keys.
#[verifier::external_body]
pub(crate) fn node_score_key<N: core::hash::Hash>(node: &std::sync::Arc<N>) -> (r: u64) {
    let bh = std::hash::BuildHasherDefault::<hrw_hash::DefaultHasher>::default();
    std::hash::BuildHasher::hash_one(&bh, &Some(std::sync::Arc::clone(node)))
}

pub open spec fn mul_wrap64(a: u64, b: u64) -> u64 {
    ((a as int * b as int) % 0x1_0000_0000_0000_0000) as u64
}

/// What the rendezvous score of a node at a shard anchor is ordered by: the
/// 64-bit mix of the node's score key and the shard's anchor value.
///
/// This is the mixing function that hrw_hash's scoring applies to the pair
/// before turning it into a floating-point score. With equal node weights
/// that score is a monotone transform of this value, so ordering by it,
/// with ties broken by candidate position, realizes an order the
/// floating-point scoring admits; distinct mixes can only tie there
/// through floating-point rounding, where the reference leaves the order
/// open.
pub open spec fn mix_spec(a: u64, b: u64) -> u64 {
    let d0 = a ^ b;
    let d1 = d0 ^ (d0 >> 33);
    let d2 = mul_wrap64(d1, 0xff51_afd7_ed55_8ccd);
    let d3 = d2 ^ (d2 >> 33);
    let d4 = mul_wrap64(d3, 0xc4ce_b9fe_1a85_ec53);
    d4 ^ (d4 >> 33)
}

pub(crate) fn mix64(a: u64, b: u64) -> (r: u64)
    ensures
        r == mix_spec(a, b),
{
    let d0: u64 = a ^ b;
    let d1: u64 = d0 ^ (d0 >> 33);
    let d2: u64 = d1.wrapping_mul(0xff51_afd7_ed55_8ccd);
    let d3: u64 = d2 ^ (d2 >> 33);
    let d4: u64 = d3.wrapping_mul(0xc4ce_b9fe_1a85_ec53);
    d4 ^ (d4 >> 33)
}

/// The stable byte-stream hasher behind key positioning.
///
/// It buffers every written byte and digests the whole buffer at once, so
/// the result is a function of the concatenated stream alone. The output is
/// portable across platforms and releases.
pub struct DefaultHasher {
    buffer: Vec<u8>,
}

impl View for DefaultHasher {
    type V = Seq<u8>;

    closed spec fn view(&self) -> Seq<u8> {
        self.buffer@
    }
}

impl DefaultHasher {
    /// Creates a hasher with an empty buffer.
    pub fn new() -> (r: Self)
        ensures
            r@ == Seq::<u8>::empty(),
    {
        DefaultHasher { buffer: Vec::new() }
    }

    /// Appends bytes to the buffered stream.
    pub fn write(&mut self, bytes: &[u8])
        ensures
            final(self)@ == old(self)@ + bytes@,
    {
        let mut i: usize = 0;
        while i < bytes.len()
            invariant
                i <= bytes.len(),
                self@ == old(self)@ + bytes@.take(i as int),
            decreases bytes.len() - i,
        {
            self.buffer.push(bytes[i]);
            i = i + 1;
            proof {
                assert(self@ =~= old(self)@ + bytes@.take(i as int));
            }
        }
        proof {
            assert(self@ =~= old(self)@ + bytes@);
        }
    }

    /// Digests the buffered stream.
    pub fn finish(&self) -> (r: u64)
        ensures
            r == stream_hash(self@),
    {
        rapid_v3(self.buffer.as_slice())
    }
}

impl Default for DefaultHasher {
    fn default() -> (r: Self)
        ensures
            r@ == Seq::<u8>::empty(),
    {
        DefaultHasher::new()
    }
}

} // verus!
