//! The mathematical model of the format: trees as values, and the encoding
//! of a tree as a sequence of bytes.
//!
//! A node is encoded as the concatenation of its children's encodings (in the
//! order the children were written), then the value's bytes, then an
//! eight-byte little-endian trailer holding the combined length of the
//! children's encodings and the value bytes. The full length of a node's
//! encoding is therefore its trailer value plus eight.

use vstd::bytes::spec_u64_from_le_bytes;
use vstd::bytes::spec_u64_to_le_bytes;
use vstd::prelude::*;

use crate::node::Node;

verus! {

broadcast use vstd::seq::group_seq_axioms;

/// A tree: one value together with an ordered sequence of child trees.
/// This is the logical entity that a byte buffer encodes.
#[verifier::ext_equal]
pub ghost struct Tree<V> {
    pub value: V,
    pub children: Seq<Tree<V>>,
}

/// The number of bytes in a node's encoding that its trailer counts: the
/// value's bytes plus the children's encodings, excluding the trailer itself.
pub open spec fn body_size<N: Node>(t: Tree<N::Value>) -> nat
    decreases t, 0int,
{
    encode_forest::<N>(t.children).len() + N::enc(t.value).len()
}

/// The full byte length of a node's encoding, trailer included. This is the
/// size a parent must account for to skip over the node.
pub open spec fn full_size<N: Node>(t: Tree<N::Value>) -> nat {
    body_size::<N>(t) + 8
}

/// The encoding of one tree: children, then value bytes, then the trailer.
pub open spec fn encode<N: Node>(t: Tree<N::Value>) -> Seq<u8>
    decreases t, 1int,
{
    encode_forest::<N>(t.children) + N::enc(t.value) + spec_u64_to_le_bytes(
        #[verifier::truncate] (body_size::<N>(t) as u64),
    )
}

/// The encoding of a sequence of trees: their encodings, concatenated in
/// order, with nothing in between.
pub open spec fn encode_forest<N: Node>(ts: Seq<Tree<N::Value>>) -> Seq<u8>
    decreases ts, 0int,
{
    if ts.len() == 0 {
        Seq::empty()
    } else {
        encode_forest::<N>(ts.drop_last()) + encode::<N>(ts.last())
    }
}

/// Every trailer in the tree fits its fixed eight-byte field.
pub open spec fn size_ok<N: Node>(t: Tree<N::Value>) -> bool
    decreases t,
{
    &&& body_size::<N>(t) <= u64::MAX
    &&& forall|i: int| 0 <= i < t.children.len() ==> size_ok::<N>(#[trigger] t.children[i])
}

/// The byte region `b` is exactly the encoding of the tree `t`.
pub open spec fn encodes<N: Node>(b: Seq<u8>, t: Tree<N::Value>) -> bool {
    &&& size_ok::<N>(t)
    &&& b == encode::<N>(t)
}

/// The byte region `b` is exactly the concatenation of the encodings of the
/// trees `ts`, in order.
pub open spec fn encodes_forest<N: Node>(b: Seq<u8>, ts: Seq<Tree<N::Value>>) -> bool {
    &&& forall|i: int| 0 <= i < ts.len() ==> size_ok::<N>(#[trigger] ts[i])
    &&& b == encode_forest::<N>(ts)
}

/// The combined full length of a sequence of trees' encodings.
pub open spec fn forest_size<N: Node>(ts: Seq<Tree<N::Value>>) -> nat
    decreases ts,
{
    if ts.len() == 0 {
        0
    } else {
        forest_size::<N>(ts.drop_last()) + full_size::<N>(ts.last())
    }
}

/// A node's encoding is its body plus the eight trailer bytes.
pub proof fn lemma_encode_len<N: Node>(t: Tree<N::Value>)
    ensures
        encode::<N>(t).len() == full_size::<N>(t),
{
    vstd::bytes::lemma_auto_spec_u64_to_from_le_bytes();
}

/// The encoding of a forest is as long as its trees' full sizes combined.
pub proof fn lemma_encode_forest_len<N: Node>(ts: Seq<Tree<N::Value>>)
    ensures
        encode_forest::<N>(ts).len() == forest_size::<N>(ts),
    decreases ts,
{
    if ts.len() > 0 {
        lemma_encode_forest_len::<N>(ts.drop_last());
        lemma_encode_len::<N>(ts.last());
    }
}

/// A forest of one tree encodes as that tree alone.
pub proof fn lemma_encode_forest_singleton<N: Node>(t: Tree<N::Value>)
    ensures
        encode_forest::<N>(seq![t]) == encode::<N>(t),
{
    assert(seq![t].drop_last() =~= Seq::<Tree<N::Value>>::empty());
    assert(encode_forest::<N>(Seq::<Tree<N::Value>>::empty()) == Seq::<u8>::empty());
    assert(Seq::<u8>::empty() + encode::<N>(t) =~= encode::<N>(t));
}

/// Concatenating two forests concatenates their encodings.
pub proof fn lemma_encode_forest_concat<N: Node>(a: Seq<Tree<N::Value>>, b: Seq<Tree<N::Value>>)
    ensures
        encode_forest::<N>(a + b) == encode_forest::<N>(a) + encode_forest::<N>(b),
    decreases b,
{
    if b.len() == 0 {
        assert(a + b =~= a);
        assert(encode_forest::<N>(a) + encode_forest::<N>(b) =~= encode_forest::<N>(a));
    } else {
        lemma_encode_forest_concat::<N>(a, b.drop_last());
        assert((a + b).drop_last() =~= a + b.drop_last());
        assert((a + b).last() == b.last());
        assert(encode_forest::<N>(a) + encode_forest::<N>(b.drop_last()) + encode::<N>(b.last())
            =~= encode_forest::<N>(a) + (encode_forest::<N>(b.drop_last()) + encode::<N>(
            b.last(),
        )));
    }
}

/// A forest's encoding is empty exactly when the forest has no trees: every
/// tree contributes at least its eight trailer bytes.
pub proof fn lemma_forest_empty<N: Node>(ts: Seq<Tree<N::Value>>)
    ensures
        encode_forest::<N>(ts).len() == 0 <==> ts.len() == 0,
{
    if ts.len() > 0 {
        lemma_encode_len::<N>(ts.last());
    }
}

/// How the last tree of a forest is peeled off its encoded bytes: the final
/// eight bytes spell that tree's trailer, the final `trailer + 8` bytes are
/// exactly that tree's own complete encoding, and what remains on the left is
/// the encoding of the remaining forest.
pub proof fn lemma_forest_last<N: Node>(b: Seq<u8>, ts: Seq<Tree<N::Value>>)
    requires
        encodes_forest::<N>(b, ts),
        ts.len() > 0,
    ensures
        8 <= full_size::<N>(ts.last()) <= b.len(),
        spec_u64_from_le_bytes(b.subrange(b.len() - 8, b.len() as int)) == body_size::<N>(
            ts.last(),
        ),
        encodes::<N>(b.subrange(b.len() - full_size::<N>(ts.last()), b.len() as int), ts.last()),
        encodes_forest::<N>(b.subrange(0, b.len() - full_size::<N>(ts.last())), ts.drop_last()),
{
    let t = ts.last();
    let full = full_size::<N>(t);
    assert(size_ok::<N>(t)) by {
        assert(ts[ts.len() - 1] == t);
    }
    lemma_encode_len::<N>(t);
    vstd::bytes::lemma_auto_spec_u64_to_from_le_bytes();
    let rest = encode_forest::<N>(ts.drop_last());
    assert(b == rest + encode::<N>(t));
    assert(b.subrange(b.len() - full, b.len() as int) =~= encode::<N>(t));
    assert(b.subrange(0, b.len() - full) =~= rest);
    let tb = spec_u64_to_le_bytes(body_size::<N>(t) as u64);
    assert(b.subrange(b.len() - 8, b.len() as int) =~= tb);
    assert(spec_u64_from_le_bytes(tb) == body_size::<N>(t) as u64);
    assert(forall|i: int|
        0 <= i < ts.drop_last().len() ==> size_ok::<N>(#[trigger] ts.drop_last()[i])) by {
        assert(forall|i: int| 0 <= i < ts.drop_last().len() ==> ts.drop_last()[i] == ts[i]);
    }
}

/// Law: a byte region encodes at most one tree. Together with the builder's
/// contract (it produces the encoding of the tree the caller described) and
/// the reader's contract (it returns the value and children of any tree the
/// region encodes), this says that a tree written and read back comes back
/// exactly as it was, whatever its shape.
pub proof fn lemma_encoding_unique<N: Node>(b: Seq<u8>, t1: Tree<N::Value>, t2: Tree<N::Value>)
    requires
        encodes::<N>(b, t1),
        encodes::<N>(b, t2),
    ensures
        t1 == t2,
    decreases t1, 1int,
{
    lemma_encode_len::<N>(t1);
    lemma_encode_len::<N>(t2);
    vstd::bytes::lemma_auto_spec_u64_to_from_le_bytes();
    let ec1 = encode_forest::<N>(t1.children);
    let ec2 = encode_forest::<N>(t2.children);
    let ev1 = N::enc(t1.value);
    let ev2 = N::enc(t2.value);
    let inner = b.subrange(0, b.len() - 8);
    assert(inner =~= ec1 + ev1);
    assert(inner =~= ec2 + ev2);
    assert(inner.subrange(inner.len() - ev1.len(), inner.len() as int) =~= ev1);
    assert(inner.subrange(inner.len() - ev2.len(), inner.len() as int) =~= ev2);
    N::lemma_enc_unambiguous(t1.value, t2.value, inner);
    assert(ec1 =~= ec2) by {
        assert(ec1 =~= inner.subrange(0, inner.len() - ev1.len()));
        assert(ec2 =~= inner.subrange(0, inner.len() - ev2.len()));
    }
    lemma_forest_encoding_unique::<N>(ec1, t1.children, t2.children);
    assert(t1 =~= t2);
}

/// Law: a byte region encodes at most one sequence of sibling trees.
pub proof fn lemma_forest_encoding_unique<N: Node>(
    b: Seq<u8>,
    ts1: Seq<Tree<N::Value>>,
    ts2: Seq<Tree<N::Value>>,
)
    requires
        encodes_forest::<N>(b, ts1),
        encodes_forest::<N>(b, ts2),
    ensures
        ts1 == ts2,
    decreases ts1, 0int,
{
    lemma_forest_empty::<N>(ts1);
    lemma_forest_empty::<N>(ts2);
    if ts1.len() == 0 || ts2.len() == 0 {
        assert(ts1 =~= ts2);
    } else {
        lemma_forest_last::<N>(b, ts1);
        lemma_forest_last::<N>(b, ts2);
        let full1 = full_size::<N>(ts1.last());
        let full2 = full_size::<N>(ts2.last());
        assert(full1 == full2);
        lemma_encoding_unique::<N>(
            b.subrange(b.len() - full1, b.len() as int),
            ts1.last(),
            ts2.last(),
        );
        lemma_forest_encoding_unique::<N>(
            b.subrange(0, b.len() - full1),
            ts1.drop_last(),
            ts2.drop_last(),
        );
        assert(ts1 =~= ts2) by {
            assert(forall|i: int|
                0 <= i < ts1.len() - 1 ==> #[trigger] ts1[i] == ts1.drop_last()[i]
                    && ts2[i] == ts2.drop_last()[i]);
        }
    }
}

/// Law: a buffer that holds exactly one unattached subtree — as the
/// builder's buffer does once the root node has been written — is the
/// complete, self-contained encoding of that one tree, decodable given
/// nothing but its own bytes.
pub proof fn lemma_single_root<N: Node>(b: Seq<u8>, t: Tree<N::Value>)
    requires
        encodes_forest::<N>(b, seq![t]),
    ensures
        encodes::<N>(b, t),
{
    lemma_encode_forest_singleton::<N>(t);
    assert(seq![t][0] == t);
}

/// Law: every node's trailer counts exactly its own value bytes plus the
/// full encoded lengths, trailers included, of all its children; the node's
/// whole encoding is the trailer's count plus the eight trailer bytes; and
/// reading the encoding's last eight bytes as a little-endian integer
/// recovers exactly that count. Since this holds of every tree, it holds
/// recursively of every subtree of a tree, whatever its depth or width.
pub proof fn lemma_size_accounting<N: Node>(t: Tree<N::Value>)
    requires
        size_ok::<N>(t),
    ensures
        body_size::<N>(t) == N::enc(t.value).len() + forest_size::<N>(t.children),
        encode::<N>(t).len() == body_size::<N>(t) + 8,
        spec_u64_from_le_bytes(
            encode::<N>(t).subrange(encode::<N>(t).len() - 8, encode::<N>(t).len() as int),
        ) == body_size::<N>(t),
{
    lemma_encode_forest_len::<N>(t.children);
    lemma_encode_len::<N>(t);
    vstd::bytes::lemma_auto_spec_u64_to_from_le_bytes();
    let b = encode::<N>(t);
    let tb = spec_u64_to_le_bytes(body_size::<N>(t) as u64);
    assert(b.subrange(b.len() - 8, b.len() as int) =~= tb);
}

/// Law: a buffer that is the encoding of a single value with zero children
/// decodes to exactly that value and an empty child sequence, whatever tree
/// shape a decoder might otherwise ascribe to it.
pub proof fn lemma_round_trip_leaf<N: Node>(v: N::Value, t: Tree<N::Value>)
    requires
        encodes::<N>(encode::<N>(Tree { value: v, children: Seq::empty() }), t),
    ensures
        t.value == v,
        t.children.len() == 0,
{
    let leaf = Tree { value: v, children: Seq::<Tree<N::Value>>::empty() };
    lemma_encode_len::<N>(t);
    lemma_encode_len::<N>(leaf);
    assert(size_ok::<N>(leaf)) by {
        assert(encode_forest::<N>(leaf.children) == Seq::<u8>::empty());
        assert(body_size::<N>(leaf) == body_size::<N>(t));
    }
    lemma_encoding_unique::<N>(encode::<N>(leaf), leaf, t);
}

} // verus!
