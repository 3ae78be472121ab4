//! Example value codecs: fixed-width integers in little-endian byte order.

use vstd::bytes::lemma_auto_spec_u32_to_from_le_bytes;
use vstd::bytes::spec_u32_from_le_bytes;
use vstd::bytes::spec_u32_to_le_bytes;
use vstd::bytes::u32_from_le_bytes;
use vstd::bytes::u32_to_le_bytes;
use vstd::prelude::*;
use vstd::slice::slice_index_get;
use vstd::slice::slice_subrange;

use crate::node::Node;

verus! {

broadcast use vstd::seq::group_seq_axioms;

/// The unsigned 32-bit integer with the same bit pattern as `v`, two's
/// complement.
pub open spec fn i32_bits(v: i32) -> u32 {
    if v >= 0 {
        v as u32
    } else {
        (v + 0x1_0000_0000) as u32
    }
}

/// 32-bit signed integer stored in little-endian byte order.
pub struct LeI32;

impl Node for LeI32 {
    type Value = i32;

    open spec fn enc(v: i32) -> Seq<u8> {
        spec_u32_to_le_bytes(i32_bits(v))
    }

    proof fn lemma_enc_unambiguous(v1: i32, v2: i32, b: Seq<u8>) {
        lemma_auto_spec_u32_to_from_le_bytes();
        assert(Self::enc(v1) == Self::enc(v2));
        assert(i32_bits(v1) == i32_bits(v2)) by {
            assert(spec_u32_from_le_bytes(spec_u32_to_le_bytes(i32_bits(v1))) == i32_bits(v1));
            assert(spec_u32_from_le_bytes(spec_u32_to_le_bytes(i32_bits(v2))) == i32_bits(v2));
        }
    }

    fn write_value(out: &mut Vec<u8>, value: &i32) -> (n: usize) {
        let v = *value;
        let bits: u32 = if v >= 0 {
            v as u32
        } else {
            ((v as i64) + 0x1_0000_0000i64) as u32
        };
        proof {
            lemma_auto_spec_u32_to_from_le_bytes();
            assert(bits == i32_bits(v));
        }
        let mut bs = u32_to_le_bytes(bits);
        let n = bs.len();
        out.append(&mut bs);
        n
    }

    fn read_value(bytes: &[u8]) -> (r: (usize, i32)) {
        proof {
            lemma_auto_spec_u32_to_from_le_bytes();
            let v0 = choose|v: i32|
                {
                    &&& #[trigger] Self::enc(v).len() <= bytes@.len()
                    &&& bytes@.subrange(bytes@.len() - Self::enc(v).len(), bytes@.len() as int)
                        == Self::enc(v)
                };
            assert(Self::enc(v0).len() == 4);
        }
        let total_len = bytes.len();
        let last4 = slice_subrange(bytes, total_len - 4, total_len);
        let bits = u32_from_le_bytes(last4);
        let v: i32 = if bits <= 0x7fff_ffffu32 {
            bits as i32
        } else {
            ((bits as i64) - 0x1_0000_0000i64) as i32
        };
        proof {
            assert(i32_bits(v) == bits);
            assert(Self::enc(v) == last4@) by {
                assert(spec_u32_to_le_bytes(spec_u32_from_le_bytes(last4@)) == last4@);
            }
        }
        (4, v)
    }
}

/// 8-bit unsigned integer stored as one byte.
pub struct U8;

impl Node for U8 {
    type Value = u8;

    open spec fn enc(v: u8) -> Seq<u8> {
        seq![v]
    }

    proof fn lemma_enc_unambiguous(v1: u8, v2: u8, b: Seq<u8>) {
        assert(Self::enc(v1)[0] == Self::enc(v2)[0]);
    }

    fn write_value(out: &mut Vec<u8>, value: &u8) -> (n: usize) {
        out.push(*value);
        proof {
            assert(out@ =~= old(out)@ + seq![*value]);
        }
        1
    }

    fn read_value(bytes: &[u8]) -> (r: (usize, u8)) {
        proof {
            let v0 = choose|v: u8|
                {
                    &&& #[trigger] Self::enc(v).len() <= bytes@.len()
                    &&& bytes@.subrange(bytes@.len() - Self::enc(v).len(), bytes@.len() as int)
                        == Self::enc(v)
                };
            assert(Self::enc(v0).len() == 1);
        }
        let total_len = bytes.len();
        let v = *slice_index_get(bytes, total_len - 1);
        proof {
            assert(bytes@.subrange(bytes@.len() - 1, bytes@.len() as int) =~= seq![v]);
        }
        (1, v)
    }
}

} // verus!
