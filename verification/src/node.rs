//! The pluggable value codec: how one node's payload is turned into bytes
//! and read back from the end of a byte region.

use vstd::prelude::*;

verus! {

/// Binary sizes of encoded trees are stored as 64-bit integers regardless of
/// the host word size, so that a buffer written on one platform reads back
/// identically on any other.
pub type TreeSize = u64;

/// A value codec: the strategy by which the value attached to each node is
/// serialized and deserialized. A tree type is generic over its codec, so the
/// same value type can be stored, say, little endian, big endian or bitpacked.
///
/// An implementation chooses a value type, says in `enc` what its byte
/// encoding is, proves that the encoding can be delimited unambiguously from
/// the back of a region, and supplies the two executable operations.
///
/// The contracts below spell out "the encoding of `v` sits at the very end of
/// the region" literally; the spec function [`value_at_end`] names the same
/// condition for use elsewhere.
pub trait Node: Sized {
    /// The value type associated with each node in the tree.
    type Value;

    /// The byte encoding of a value under this codec.
    spec fn enc(v: Self::Value) -> Seq<u8>;

    /// The encoding is self-delimiting from the right: at the end of one and
    /// the same region there is room for at most one encoded value.
    proof fn lemma_enc_unambiguous(v1: Self::Value, v2: Self::Value, b: Seq<u8>)
        requires
            Self::enc(v1).len() <= b.len(),
            b.subrange(b.len() - Self::enc(v1).len(), b.len() as int) == Self::enc(v1),
            Self::enc(v2).len() <= b.len(),
            b.subrange(b.len() - Self::enc(v2).len(), b.len() as int) == Self::enc(v2),
        ensures
            v1 == v2,
    ;

    /// Appends the encoding of `value` to `out`, so [`Self::read_value`] can
    /// extract it again, and returns the number of bytes written.
    fn write_value(out: &mut Vec<u8>, value: &Self::Value) -> (n: usize)
        ensures
            final(out)@ == old(out)@ + Self::enc(*value),
            n == Self::enc(*value).len(),
    ;

    /// Reads the value whose encoding ends at the last byte of `bytes`, and
    /// returns how many trailing bytes that encoding occupies together with
    /// the value itself.
    fn read_value(bytes: &[u8]) -> (r: (usize, Self::Value))
        requires
            exists|v: Self::Value|
                {
                    &&& #[trigger] Self::enc(v).len() <= bytes@.len()
                    &&& bytes@.subrange(bytes@.len() - Self::enc(v).len(), bytes@.len() as int)
                        == Self::enc(v)
                },
        ensures
            Self::enc(r.1).len() <= bytes@.len(),
            bytes@.subrange(bytes@.len() - Self::enc(r.1).len(), bytes@.len() as int) == Self::enc(
                r.1,
            ),
            r.0 == Self::enc(r.1).len(),
    ;
}

/// Holds when the encoding of `v` sits at the very end of the region `b`:
/// the shape in which [`Node::read_value`] is handed a value.
pub open spec fn value_at_end<N: Node>(b: Seq<u8>, v: N::Value) -> bool {
    &&& N::enc(v).len() <= b.len()
    &&& b.subrange(b.len() - N::enc(v).len(), b.len() as int) == N::enc(v)
}

} // verus!
