//! Reading trees back from a byte buffer, in place.
//!
//! A finished buffer is owned by a [`TreeVec`]; any subtree of it can be
//! borrowed as a [`TreeSlice`] and decoded on its own. Decoding proceeds from
//! the back of a region: the value codec delimits the root's value, and the
//! bytes left of it hold the children's encodings, which [`Branches`] peels
//! off one at a time from the right. Children are therefore yielded in
//! reverse of the order in which they were written; this is a contract of
//! the format, not an accident.
//!
//! No decoding step writes to the buffer: every operation here borrows the
//! bytes immutably, so any number of readers, including overlapping ones,
//! can traverse the same buffer.

use core::marker::PhantomData;
use vstd::bytes::u64_from_le_bytes;
use vstd::prelude::*;
use vstd::slice::slice_subrange;

use crate::model::Tree;
use crate::model::encode_forest;
use crate::model::encodes;
use crate::model::encodes_forest;
use crate::model::lemma_encode_len;
use crate::model::lemma_encoding_unique;
use crate::model::lemma_forest_empty;
use crate::model::lemma_forest_encoding_unique;
use crate::model::lemma_forest_last;
use crate::model::full_size;
use crate::node::Node;

verus! {

broadcast use vstd::seq::group_seq_axioms;

/// An owned tree, stored in contiguous memory.
///
/// Takes ownership of a byte buffer and interprets it as the encoding of one
/// complete tree. Construction performs no validation: decoding demands, by
/// contract, that the bytes really are such an encoding, as every buffer
/// written by [`crate::TreeBuilder`] is.
pub struct TreeVec<N: Node> {
    _node_type: PhantomData<N>,
    bytes: Vec<u8>,
}

impl<N: Node> View for TreeVec<N> {
    type V = Seq<u8>;

    closed spec fn view(&self) -> Seq<u8> {
        self.bytes@
    }
}

impl<N: Node> TreeVec<N> {
    /// Takes ownership of the bytes, and interprets them as a tree.
    pub fn new(bytes: Vec<u8>) -> (r: TreeVec<N>)
        ensures
            r@ == bytes@,
    {
        TreeVec { _node_type: PhantomData, bytes }
    }

    /// Borrows the whole buffer as one tree slice.
    pub fn as_tree_slice(&self) -> (r: TreeSlice<'_, N>)
        ensures
            r@ == self@,
    {
        TreeSlice::from_slice(self.bytes.as_slice())
    }

    /// Deserializes the value of the root node, and returns an iterator over
    /// the root's children. See [`TreeSlice::read_node`].
    pub fn read_node(&self) -> (r: (N::Value, Branches<'_, N>))
        requires
            exists|t: Tree<N::Value>| encodes::<N>(self@, t),
        ensures
            forall|t: Tree<N::Value>|
                encodes::<N>(self@, t) ==> r.0 == t.value && encodes_forest::<N>(
                    r.1@,
                    t.children,
                ),
    {
        self.as_tree_slice().read_node()
    }
}

/// A borrowed byte range understood to hold one complete, self-contained
/// tree encoding. Each subtree of a buffer is contiguous, so it can be
/// borrowed independently, like a slice of bytes, and decoded in isolation.
pub struct TreeSlice<'a, N: Node> {
    _node_type: PhantomData<N>,
    bytes: &'a [u8],
}

impl<'a, N: Node> View for TreeSlice<'a, N> {
    type V = Seq<u8>;

    closed spec fn view(&self) -> Seq<u8> {
        self.bytes@
    }
}

impl<'a, N: Node> TreeSlice<'a, N> {
    /// Wraps a borrowed byte range as a tree slice, without copying and
    /// without validation.
    pub fn from_slice(slice: &'a [u8]) -> (r: Self)
        ensures
            r@ == slice@,
    {
        TreeSlice { _node_type: PhantomData, bytes: slice }
    }

    /// Deserializes the value of the root node of this slice, and returns an
    /// iterator over its children.
    ///
    /// For whatever tree this slice encodes, the returned value is that
    /// tree's root value, and the iterator walks exactly that tree's
    /// children (in reverse order of writing).
    pub fn read_node(&self) -> (r: (N::Value, Branches<'a, N>))
        requires
            exists|t: Tree<N::Value>| encodes::<N>(self@, t),
        ensures
            forall|t: Tree<N::Value>|
                encodes::<N>(self@, t) ==> r.0 == t.value && encodes_forest::<N>(
                    r.1@,
                    t.children,
                ),
    {
        let ghost t = choose|t: Tree<N::Value>| encodes::<N>(self@, t);
        proof {
            lemma_encode_len::<N>(t);
        }
        let total_size = self.bytes.len();
        let value_region = slice_subrange(self.bytes, 0, total_size - 8);
        proof {
            let ec = encode_forest::<N>(t.children);
            let ev = N::enc(t.value);
            assert(value_region@ =~= ec + ev);
            assert(value_region@.subrange(value_region@.len() - ev.len(), value_region@.len() as int)
                =~= ev);
        }
        let (size_value, value) = N::read_value(value_region);
        proof {
            N::lemma_enc_unambiguous(t.value, value, value_region@);
        }
        let branches_bytes = slice_subrange(self.bytes, 0, total_size - 8 - size_value);
        let branches = Branches { _node_type: PhantomData, bytes: branches_bytes };
        proof {
            assert(branches@ =~= encode_forest::<N>(t.children));
            assert forall|t2: Tree<N::Value>| encodes::<N>(self@, t2) implies value == t2.value
                && encodes_forest::<N>(branches@, t2.children) by {
                lemma_encoding_unique::<N>(self@, t, t2);
            }
        }
        (value, branches)
    }
}

/// Iterates over the individual root nodes of a node's subtrees, yielding a
/// borrowed [`TreeSlice`] for each.
///
/// The iterator is lazy: a child's bytes are not decoded until that child is
/// asked for, and no child beyond the one requested is looked at. Children
/// come back in reverse of the order in which they were written, because
/// each step peels the rightmost remaining encoding off the region.
pub struct Branches<'a, N: Node> {
    pub(crate) _node_type: PhantomData<N>,
    pub(crate) bytes: &'a [u8],
}

impl<'a, N: Node> View for Branches<'a, N> {
    type V = Seq<u8>;

    closed spec fn view(&self) -> Seq<u8> {
        self.bytes@
    }
}

impl<'a, N: Node> Branches<'a, N> {
    /// Yields the next child, right to left: the most recently written child
    /// of the node first, or `None` once every child has been yielded.
    ///
    /// The slice returned is itself a complete tree encoding, decodable in
    /// isolation from its parent and siblings.
    pub fn next(&mut self) -> (r: Option<TreeSlice<'a, N>>)
        requires
            exists|ts: Seq<Tree<N::Value>>| encodes_forest::<N>(old(self)@, ts),
        ensures
            forall|ts: Seq<Tree<N::Value>>|
                encodes_forest::<N>(old(self)@, ts) ==> match r {
                    Option::None => ts.len() == 0 && final(self)@ == old(self)@,
                    Option::Some(child) => {
                        &&& ts.len() > 0
                        &&& encodes::<N>(child@, ts.last())
                        &&& encodes_forest::<N>(final(self)@, ts.drop_last())
                    },
                },
    {
        if self.bytes.is_empty() {
            proof {
                assert forall|ts: Seq<Tree<N::Value>>|
                    encodes_forest::<N>(self@, ts) implies ts.len() == 0 by {
                    lemma_forest_empty::<N>(ts);
                }
            }
            None
        } else {
            let ghost ts = choose|ts: Seq<Tree<N::Value>>| encodes_forest::<N>(self@, ts);
            proof {
                lemma_forest_empty::<N>(ts);
                lemma_forest_last::<N>(self@, ts);
            }
            let total_size = self.bytes.len();
            let trailer = slice_subrange(self.bytes, total_size - 8, total_size);
            let tree_size64 = u64_from_le_bytes(trailer);
            let tree_size = tree_size64 as usize;
            proof {
                assert(tree_size + 8 == full_size::<N>(ts.last()));
            }
            let child_bytes = slice_subrange(self.bytes, total_size - tree_size - 8, total_size);
            let remainder = slice_subrange(self.bytes, 0, total_size - tree_size - 8);
            self.bytes = remainder;
            proof {
                assert forall|ts2: Seq<Tree<N::Value>>|
                    encodes_forest::<N>(old(self)@, ts2) implies ts2.len() > 0 && encodes::<N>(
                    child_bytes@,
                    ts2.last(),
                ) && encodes_forest::<N>(self@, ts2.drop_last()) by {
                    lemma_forest_encoding_unique::<N>(old(self)@, ts, ts2);
                }
            }
            Some(TreeSlice { _node_type: PhantomData, bytes: child_bytes })
        }
    }
}

} // verus!
