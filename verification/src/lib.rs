//! Write and read tree graphs to and from contiguous blocks of memory.
//!
//! A tree is serialized depth first into one flat byte buffer by
//! [`TreeBuilder`]; the finished buffer is owned by a [`TreeVec`], and any
//! subtree of it can be borrowed as a [`TreeSlice`] and decoded in place,
//! without copying and without touching unrelated parts of the buffer.
//!
//! Each node is laid out as its children's encodings (in the order they were
//! written), then the node's value bytes, then an eight-byte little-endian
//! trailer holding the byte length of everything before it within the node.
//! Decoding therefore proceeds from the back: the trailer delimits the node,
//! the value codec delimits the value, and what remains on the left is the
//! concatenation of the children, peelable one at a time from the right.
//! A traversal over children consequently yields them in reverse of the
//! order in which they were written.

pub mod builder;
pub mod codecs;
pub mod model;
pub mod node;
pub mod reader;

pub use builder::BuildError;
pub use builder::TreeBuilder;
pub use codecs::LeI32;
pub use codecs::U8;
pub use model::Tree;
pub use node::Node;
pub use node::TreeSize;
pub use reader::Branches;
pub use reader::TreeSlice;
pub use reader::TreeVec;
