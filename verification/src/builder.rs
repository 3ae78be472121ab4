//! Serializing a tree into a byte buffer, depth first.

use vstd::bytes::spec_u64_to_le_bytes;
use vstd::bytes::u64_to_le_bytes;
use vstd::prelude::*;

use crate::model::Tree;
use crate::model::body_size;
use crate::model::encode;
use crate::model::encode_forest;
use crate::model::encodes_forest;
use crate::model::forest_size;
use crate::model::full_size;
use crate::model::lemma_encode_forest_concat;
use crate::model::lemma_encode_forest_len;
use crate::model::lemma_encode_forest_singleton;
use crate::model::lemma_encode_len;
use crate::model::size_ok;
use crate::node::Node;
use crate::node::TreeSize;

verus! {

broadcast use vstd::seq::group_seq_axioms;

/// The error returned by [`TreeBuilder::try_write_node`] when a node claims
/// more children than there are unattached subtrees to adopt.
#[derive(Clone, Copy, Debug, PartialEq, Eq)]
pub enum BuildError {
    TooManyChildren,
}

/// The forest after one node is written: the node adopts the last
/// `num_children` unattached subtrees, in the order they were written, and
/// takes their place as a single new unattached subtree.
pub open spec fn attach<N: Node>(
    forest: Seq<Tree<N::Value>>,
    v: N::Value,
    num_children: int,
) -> Seq<Tree<N::Value>> {
    forest.subrange(0, forest.len() - num_children).push(
        (Tree { value: v, children: forest.subrange(forest.len() - num_children, forest.len() as int) }),
    )
}

/// Serializes a tree data structure in a depth-first manner.
///
/// Nodes are written in depth-first post-order: all children of a node
/// before the node itself, each call saying how many of the already written,
/// still unattached subtrees the new node adopts. The builder keeps only the
/// output buffer and the byte sizes of those unattached subtrees, so its
/// bookkeeping is proportional to the number of open subtrees, not to the
/// size of the tree.
pub struct TreeBuilder<N: Node> {
    /// Full encoded sizes of the subtrees which are fully written but not
    /// yet connected to a parent node, in the order they were completed.
    open_node_sizes: Vec<TreeSize>,
    /// The buffer the tree is serialized into.
    bytes: Vec<u8>,
    /// The unattached subtrees themselves: the ghost model of the two fields
    /// above.
    forest: Ghost<Seq<Tree<N::Value>>>,
}

impl<N: Node> TreeBuilder<N> {
    /// The subtrees written so far but not yet attached to a parent, in the
    /// order they were completed: the abstract state of the builder.
    pub closed spec fn forest(&self) -> Seq<Tree<N::Value>> {
        self.forest@
    }

    /// The bytes written so far.
    pub closed spec fn buf(&self) -> Seq<u8> {
        self.bytes@
    }

    /// The builder's bookkeeping matches its ghost forest: the buffer holds
    /// the unattached subtrees' encodings back to back, and the open sizes
    /// are their full encoded sizes.
    pub closed spec fn wf(&self) -> bool {
        &&& self.open_node_sizes@.len() == self.forest@.len()
        &&& self.bytes@ == encode_forest::<N>(self.forest@)
        &&& forall|i: int|
            0 <= i < self.forest@.len() ==> size_ok::<N>(#[trigger] self.forest@[i])
        &&& forall|i: int|
            0 <= i < self.forest@.len() ==> self.open_node_sizes@[i] as nat == full_size::<N>(
                #[trigger] self.forest@[i],
            )
    }

    /// A fresh builder with an empty buffer and no unattached subtrees.
    pub fn new() -> (r: Self)
        ensures
            r.wf(),
            r.forest() == Seq::<Tree<N::Value>>::empty(),
            r.buf() == Seq::<u8>::empty(),
    {
        Self { open_node_sizes: Vec::new(), bytes: Vec::new(), forest: Ghost(Seq::empty()) }
    }

    /// Adds a node to the tree.
    ///
    /// The node's value bytes are appended to the buffer, followed by the
    /// eight-byte trailer holding the length of the value bytes plus the
    /// full encodings of the adopted children. The node becomes the parent
    /// of the last `num_children` nodes written which do not have a parent
    /// yet, and takes their place as a single unattached subtree.
    ///
    /// Asking for more children than there are unattached subtrees is a
    /// sequencing error in the caller and is excluded by contract; see
    /// [`Self::try_write_node`] for the checked variant.
    pub fn write_node(&mut self, value: &N::Value, num_children: usize)
        requires
            old(self).wf(),
            num_children <= old(self).forest().len(),
        ensures
            final(self).wf(),
            final(self).forest() == attach::<N>(old(self).forest(), *value, num_children as int),
            encodes_forest::<N>(final(self).buf(), final(self).forest()),
            final(self).buf().len() == old(self).buf().len() + N::enc(*value).len() + 8,
    {
        let ghost old_forest = self.forest@;
        let ghost m = old_forest.len() - num_children;
        proof {
            lemma_encode_forest_len::<N>(old_forest);
        }
        let n = N::write_value(&mut self.bytes, value);
        let written = self.bytes.len();
        let size_value: TreeSize = n as TreeSize;
        let ghost old_sizes = self.open_node_sizes@;
        let mut size_children: TreeSize = 0;
        let mut k: usize = 0;
        proof {
            assert(old_forest.subrange(old_forest.len() as int, old_forest.len() as int)
                =~= Seq::<Tree<N::Value>>::empty());
        }
        while k < num_children
            invariant
                k <= num_children,
                num_children <= old_forest.len(),
                old_forest.len() == old_sizes.len(),
                self.forest@ == old_forest,
                self.bytes@ == encode_forest::<N>(old_forest) + N::enc(*value),
                self.bytes@.len() == written,
                written <= usize::MAX,
                self.open_node_sizes@ == old_sizes.subrange(0, old_sizes.len() - k),
                forall|i: int|
                    0 <= i < old_forest.len() ==> size_ok::<N>(#[trigger] old_forest[i]),
                forall|i: int|
                    0 <= i < old_forest.len() ==> old_sizes[i] as nat == full_size::<N>(
                        #[trigger] old_forest[i],
                    ),
                size_children as nat == forest_size::<N>(
                    old_forest.subrange(old_forest.len() - k, old_forest.len() as int),
                ),
            decreases num_children - k,
        {
            proof {
                let tail = old_forest.subrange(old_forest.len() - k, old_forest.len() as int);
                let tail1 = old_forest.subrange(
                    old_forest.len() - (k + 1),
                    old_forest.len() as int,
                );
                let t = old_forest[old_forest.len() - (k + 1)];
                assert(tail1 =~= seq![t] + tail);
                lemma_encode_forest_len::<N>(tail);
                lemma_encode_forest_len::<N>(tail1);
                lemma_encode_forest_concat::<N>(seq![t], tail);
                lemma_encode_forest_singleton::<N>(t);
                lemma_encode_len::<N>(t);
                assert(forest_size::<N>(tail1) == full_size::<N>(t) + forest_size::<N>(tail));
                // the new sum stays below the bytes already in the buffer
                let head = old_forest.subrange(0, old_forest.len() - (k + 1));
                assert(old_forest =~= head + tail1);
                lemma_encode_forest_concat::<N>(head, tail1);
                lemma_encode_forest_len::<N>(old_forest);
                assert(forest_size::<N>(tail1) <= forest_size::<N>(old_forest));
            }
            let s = self.open_node_sizes.pop().unwrap();
            proof {
                let t = old_forest[old_forest.len() - (k + 1)];
                assert(s == old_sizes.subrange(0, old_sizes.len() - k).last());
                assert(s as nat == full_size::<N>(t));
            }
            size_children = size_children + s;
            k = k + 1;
            proof {
                assert(self.open_node_sizes@ =~= old_sizes.subrange(0, old_sizes.len() - k));
            }
        }
        proof {
            let children = old_forest.subrange(m as int, old_forest.len() as int);
            let head = old_forest.subrange(0, m as int);
            assert(old_forest =~= head + children);
            lemma_encode_forest_concat::<N>(head, children);
            lemma_encode_forest_len::<N>(children);
            lemma_encode_forest_len::<N>(old_forest);
            assert(size_children as nat == forest_size::<N>(children));
            assert(size_value + size_children <= written);
        }
        let total_size: TreeSize = size_value + size_children;
        let mut trailer = u64_to_le_bytes(total_size);
        self.bytes.append(&mut trailer);
        let full = self.bytes.len();
        proof {
            lemma_encode_forest_len::<N>(old_forest);
            assert(total_size as nat + 8 <= full as nat);
        }
        self.open_node_sizes.push(total_size + 8);
        let ghost children = old_forest.subrange(m as int, old_forest.len() as int);
        let ghost tree = Tree { value: *value, children };
        proof {
            self.forest@ = attach::<N>(old_forest, *value, num_children as int);
            let head = old_forest.subrange(0, m as int);
            assert(old_forest =~= head + children);
            lemma_encode_forest_concat::<N>(head, children);
            lemma_encode_forest_len::<N>(children);
            assert(body_size::<N>(tree) == total_size as nat);
            assert(size_ok::<N>(tree)) by {
                assert(forall|i: int|
                    0 <= i < children.len() ==> #[trigger] children[i] == old_forest[m + i]);
            }
            lemma_encode_len::<N>(tree);
            assert(self.forest@.drop_last() =~= head);
            assert(self.forest@.last() == tree);
            assert(self.bytes@ =~= encode_forest::<N>(head) + encode::<N>(tree)) by {
                assert(spec_u64_to_le_bytes(body_size::<N>(tree) as u64) == spec_u64_to_le_bytes(
                    total_size,
                ));
            }
            assert(self.bytes@ == encode_forest::<N>(self.forest@));
            assert(forall|i: int|
                0 <= i < self.forest@.len() ==> size_ok::<N>(#[trigger] self.forest@[i])) by {
                assert(forall|i: int|
                    0 <= i < head.len() ==> #[trigger] self.forest@[i] == old_forest[i]);
            }
            assert(forall|i: int|
                0 <= i < self.forest@.len() ==> self.open_node_sizes@[i] as nat == full_size::<N>(
                    #[trigger] self.forest@[i],
                )) by {
                assert(forall|i: int|
                    0 <= i < head.len() ==> #[trigger] self.forest@[i] == old_forest[i]
                        && self.open_node_sizes@[i] == old_sizes[i]);
            }
        }
    }

    /// The checked variant of [`Self::write_node`]: if the node claims more
    /// children than there are unattached subtrees, nothing is written and
    /// the buffer is left exactly as it was; otherwise the node is written
    /// as by `write_node`.
    pub fn try_write_node(&mut self, value: &N::Value, num_children: usize) -> (r: Result<
        (),
        BuildError,
    >)
        requires
            old(self).wf(),
        ensures
            final(self).wf(),
            num_children <= old(self).forest().len() ==> {
                &&& r == Result::<(), BuildError>::Ok(())
                &&& final(self).forest() == attach::<N>(
                    old(self).forest(),
                    *value,
                    num_children as int,
                )
                &&& encodes_forest::<N>(final(self).buf(), final(self).forest())
            },
            num_children > old(self).forest().len() ==> {
                &&& r == Result::<(), BuildError>::Err(BuildError::TooManyChildren)
                &&& *final(self) == *old(self)
            },
    {
        if num_children <= self.open_node_sizes.len() {
            self.write_node(value, num_children);
            Ok(())
        } else {
            Err(BuildError::TooManyChildren)
        }
    }

    /// Hands back the buffer the builder wrote into. After one write per
    /// node, in depth-first post-order and ending with the root, the buffer
    /// is the complete encoding of that one tree.
    pub fn finish(self) -> (r: Vec<u8>)
        ensures
            r@ == self.buf(),
    {
        self.bytes
    }
}

} // verus!
