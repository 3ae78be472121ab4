//! Tests of traversal order, repeated and overlapping reads, and the
//! independence of child views.

use contigious_tree::{LeI32, TreeBuilder, TreeVec, U8};

/// Children come back in reverse of the order they were written, however
/// many there are.
#[test]
fn wide_node_yields_children_in_reverse_write_order() {
    let mut builder = TreeBuilder::<LeI32>::new();
    for v in 10..15 {
        builder.write_node(&v, 0);
    }
    builder.write_node(&99, 5);
    let tree = TreeVec::<LeI32>::new(builder.finish());

    let (value, mut branches) = tree.read_node();
    assert_eq!(99, value);
    for expected in (10..15).rev() {
        let child = branches.next().unwrap();
        let (value, mut grandchildren) = child.read_node();
        assert_eq!(expected, value);
        assert!(grandchildren.next().is_none());
    }
    assert!(branches.next().is_none());
}

/// A chain of single-child nodes decodes level by level.
#[test]
fn deep_chain_decodes_level_by_level() {
    let mut builder = TreeBuilder::<U8>::new();
    builder.write_node(&0, 0);
    for v in 1u8..6 {
        builder.write_node(&v, 1);
    }
    let tree = TreeVec::<U8>::new(builder.finish());

    let (value, mut branches) = tree.read_node();
    assert_eq!(5, value);
    for expected in (0u8..5).rev() {
        let child = branches.next().unwrap();
        assert!(branches.next().is_none());
        let (value, next_branches) = child.read_node();
        assert_eq!(expected, value);
        branches = next_branches;
    }
    assert!(branches.next().is_none());
}

/// Decoding the same buffer any number of times, including through
/// overlapping traversals held at the same time, keeps yielding the same
/// tree: no read mutates the underlying bytes.
#[test]
fn repeated_and_overlapping_reads_agree() {
    let mut builder = TreeBuilder::<U8>::new();
    builder.write_node(&1, 0);
    builder.write_node(&2, 0);
    builder.write_node(&3, 2);
    let tree = TreeVec::<U8>::new(builder.finish());

    let (first_value, mut first_walk) = tree.read_node();
    let (second_value, mut second_walk) = tree.read_node();
    assert_eq!(first_value, second_value);

    // Advance the first traversal to its end before the second starts.
    let mut first_children = Vec::new();
    while let Some(child) = first_walk.next() {
        first_children.push(child.read_node().0);
    }
    let mut second_children = Vec::new();
    while let Some(child) = second_walk.next() {
        second_children.push(child.read_node().0);
    }
    assert_eq!(vec![2, 1], first_children);
    assert_eq!(first_children, second_children);

    // A third pass still sees the identical tree.
    let (value, mut branches) = tree.read_node();
    assert_eq!(3, value);
    assert_eq!(2, branches.next().unwrap().read_node().0);
    assert_eq!(1, branches.next().unwrap().read_node().0);
    assert!(branches.next().is_none());
}

/// A child's view stays usable and correct on its own, after the iterator
/// that produced it is exhausted and independent of parent and siblings.
#[test]
fn child_views_decode_in_isolation() {
    let mut builder = TreeBuilder::<U8>::new();
    builder.write_node(&10, 0);
    builder.write_node(&20, 1);
    builder.write_node(&30, 0);
    builder.write_node(&40, 2);
    let tree = TreeVec::<U8>::new(builder.finish());

    let (value, mut branches) = tree.read_node();
    assert_eq!(40, value);
    let late_child = branches.next().unwrap();
    let early_child = branches.next().unwrap();
    assert!(branches.next().is_none());

    // Decode the earlier-written subtree first, then the later one: each
    // view covers exactly its own subtree.
    let (value, mut early_branches) = early_child.read_node();
    assert_eq!(20, value);
    let grandchild = early_branches.next().unwrap();
    assert!(early_branches.next().is_none());
    let (value, mut grand_branches) = grandchild.read_node();
    assert_eq!(10, value);
    assert!(grand_branches.next().is_none());

    let (value, mut late_branches) = late_child.read_node();
    assert_eq!(30, value);
    assert!(late_branches.next().is_none());
}
