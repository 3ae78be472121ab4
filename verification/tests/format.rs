//! Tests pinning down the byte-level format and the builder's error path.

use contigious_tree::{BuildError, LeI32, TreeBuilder, TreeVec, U8};

/// A single 32-bit value with no children occupies 4 value bytes plus the
/// 8-byte trailer, and the trailer counts the value bytes alone.
#[test]
fn leaf_buffer_layout() {
    let mut builder = TreeBuilder::<LeI32>::new();
    builder.write_node(&42, 0);
    let bytes = builder.finish();

    assert_eq!(12, bytes.len());
    assert_eq!(vec![42, 0, 0, 0, 4, 0, 0, 0, 0, 0, 0, 0], bytes);
}

/// Negative and extreme 32-bit values survive the round trip.
#[test]
fn le_i32_round_trips_negative_and_extreme_values() {
    for expected in [-1, -123_456, i32::MIN, i32::MAX, 0] {
        let mut builder = TreeBuilder::<LeI32>::new();
        builder.write_node(&expected, 0);
        let tree = TreeVec::<LeI32>::new(builder.finish());
        let (value, mut branches) = tree.read_node();
        assert_eq!(expected, value);
        assert!(branches.next().is_none());
    }
}

/// Boundary values of the one-byte codec round-trip.
#[test]
fn u8_round_trips_boundary_values() {
    for expected in [0u8, 255u8] {
        let mut builder = TreeBuilder::<U8>::new();
        builder.write_node(&expected, 0);
        let tree = TreeVec::<U8>::new(builder.finish());
        let (value, mut branches) = tree.read_node();
        assert_eq!(expected, value);
        assert!(branches.next().is_none());
    }
}

/// Every node's trailer equals its value-byte count plus the full encoded
/// lengths of its children, and each node's extent can be re-derived from
/// the trailers alone, walking the buffer from the back.
#[test]
fn trailers_account_for_value_and_children_sizes() {
    let mut builder = TreeBuilder::<U8>::new();
    builder.write_node(&1, 0);
    builder.write_node(&2, 0);
    builder.write_node(&3, 2);
    let bytes = builder.finish();

    // child 1: 1 value byte + trailer 1; child 2: likewise;
    // parent: 1 value byte + trailer 1 + 9 + 9 = 19.
    let expected = vec![
        1, 1, 0, 0, 0, 0, 0, 0, 0, //
        2, 1, 0, 0, 0, 0, 0, 0, 0, //
        3, 19, 0, 0, 0, 0, 0, 0, 0,
    ];
    assert_eq!(expected, bytes);

    // Re-derive each node's extent from the trailers alone.
    let root_trailer = u64::from_le_bytes(bytes[19..27].try_into().unwrap());
    assert_eq!(19, root_trailer);
    let root_extent = root_trailer as usize + 8;
    assert_eq!(bytes.len(), root_extent);

    // The root's children region is everything left of its value byte.
    let children_end = bytes.len() - 8 - 1;
    let second_trailer = u64::from_le_bytes(bytes[children_end - 8..children_end].try_into().unwrap());
    assert_eq!(1, second_trailer);
    let second_start = children_end - (second_trailer as usize + 8);
    assert_eq!(9, second_start);

    let first_trailer = u64::from_le_bytes(bytes[second_start - 8..second_start].try_into().unwrap());
    assert_eq!(1, first_trailer);
    assert_eq!(0, second_start - (first_trailer as usize + 8));
}

/// A node claiming more children than there are unattached subtrees is
/// rejected, and the rejected call leaves the buffer exactly as it was.
#[test]
fn builder_rejects_excess_children() {
    let mut builder = TreeBuilder::<U8>::new();
    builder.write_node(&1, 0);
    let r = builder.try_write_node(&2, 2);
    assert_eq!(Err(BuildError::TooManyChildren), r);

    // Nothing of the failed node reached the buffer.
    let bytes = builder.finish();
    assert_eq!(vec![1, 1, 0, 0, 0, 0, 0, 0, 0], bytes);
}

/// The checked write behaves like the plain one when the child count is
/// available.
#[test]
fn checked_write_accepts_valid_child_count() {
    let mut builder = TreeBuilder::<U8>::new();
    assert_eq!(Ok(()), builder.try_write_node(&7, 0));
    assert_eq!(Ok(()), builder.try_write_node(&9, 1));
    let tree = TreeVec::<U8>::new(builder.finish());
    let (value, mut branches) = tree.read_node();
    assert_eq!(9, value);
    let child = branches.next().unwrap();
    assert!(branches.next().is_none());
    let (value, mut branches) = child.read_node();
    assert_eq!(7, value);
    assert!(branches.next().is_none());
}
