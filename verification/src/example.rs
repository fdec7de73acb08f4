//! The example records of the storage template, and the stable encoding of
//! the vector example.

use vstd::prelude::*;

verus! {

/// The example kept in a stable cell.
pub struct ExampleCell {
    pub cell_data: String,
}

/// The example kept in a stable vector and a priority queue.
pub struct ExampleVec {
    pub vec_data: u64,
}

/// The eight bytes of `v`, most significant first.
pub open spec fn be_bytes(v: u64) -> Seq<u8> {
    seq![
        ((v >> 56u64) & 0xffu64) as u8,
        ((v >> 48u64) & 0xffu64) as u8,
        ((v >> 40u64) & 0xffu64) as u8,
        ((v >> 32u64) & 0xffu64) as u8,
        ((v >> 24u64) & 0xffu64) as u8,
        ((v >> 16u64) & 0xffu64) as u8,
        ((v >> 8u64) & 0xffu64) as u8,
        (v & 0xffu64) as u8,
    ]
}

/// Calls `ic_canister_kit::stable::common::u64_to_bytes`, which appends the
/// stable encoding of a `u64`; the contract claims that this encoding is its
/// eight bytes, most significant first.
#[verifier::external_body]
fn u64_to_bytes(buf: &mut Vec<u8>, value: u64)
    ensures
        final(buf)@ == old(buf)@ + be_bytes(value),
{
    ic_canister_kit::stable::common::u64_to_bytes(buf, value)
}

/// Calls `ic_canister_kit::stable::common::u64_from_bytes`, which decodes the
/// first eight bytes; the contract claims that it reads them most significant
/// first.
#[verifier::external_body]
fn u64_from_bytes(bytes: &[u8]) -> (value: u64)
    requires
        bytes@.len() >= 8,
    ensures
        be_bytes(value) == bytes@.subrange(0, 8),
{
    ic_canister_kit::stable::common::u64_from_bytes(bytes)
}

impl ExampleVec {
    /// The stable encoding: the value's eight bytes, most significant first.
    pub fn to_bytes(&self) -> (bytes: Vec<u8>)
        ensures
            bytes@ == be_bytes(self.vec_data),
    {
        let mut bytes: Vec<u8> = Vec::new();
        u64_to_bytes(&mut bytes, self.vec_data);
        proof {
            assert(bytes@ =~= be_bytes(self.vec_data));
        }
        bytes
    }

    /// Decodes the first eight bytes of a stable encoding.
    pub fn from_bytes(bytes: &[u8]) -> (e: Self)
        requires
            bytes@.len() >= 8,
        ensures
            be_bytes(e.vec_data) == bytes@.subrange(0, 8),
    {
        ExampleVec { vec_data: u64_from_bytes(bytes) }
    }
}

/// Two values with the same eight bytes are the same value.
pub proof fn lemma_be_bytes_injective(a: u64, b: u64)
    requires
        be_bytes(a) == be_bytes(b),
    ensures
        a == b,
{
    assert(be_bytes(a)[0] == be_bytes(b)[0]);
    assert(be_bytes(a)[1] == be_bytes(b)[1]);
    assert(be_bytes(a)[2] == be_bytes(b)[2]);
    assert(be_bytes(a)[3] == be_bytes(b)[3]);
    assert(be_bytes(a)[4] == be_bytes(b)[4]);
    assert(be_bytes(a)[5] == be_bytes(b)[5]);
    assert(be_bytes(a)[6] == be_bytes(b)[6]);
    assert(be_bytes(a)[7] == be_bytes(b)[7]);
    assert(a == b) by (bit_vector)
        requires
            ((a >> 56u64) & 0xffu64) as u8 == ((b >> 56u64) & 0xffu64) as u8,
            ((a >> 48u64) & 0xffu64) as u8 == ((b >> 48u64) & 0xffu64) as u8,
            ((a >> 40u64) & 0xffu64) as u8 == ((b >> 40u64) & 0xffu64) as u8,
            ((a >> 32u64) & 0xffu64) as u8 == ((b >> 32u64) & 0xffu64) as u8,
            ((a >> 24u64) & 0xffu64) as u8 == ((b >> 24u64) & 0xffu64) as u8,
            ((a >> 16u64) & 0xffu64) as u8 == ((b >> 16u64) & 0xffu64) as u8,
            ((a >> 8u64) & 0xffu64) as u8 == ((b >> 8u64) & 0xffu64) as u8,
            (a & 0xffu64) as u8 == (b & 0xffu64) as u8,
    ;
}

/// Decoding the stable encoding of an example gives the example back.
pub proof fn lemma_example_vec_round_trip(v: u64, bytes: Seq<u8>, decoded: u64)
    requires
        bytes == be_bytes(v),
        be_bytes(decoded) == bytes.subrange(0, 8),
    ensures
        decoded == v,
{
    assert(bytes.subrange(0, 8) =~= bytes);
    lemma_be_bytes_injective(decoded, v);
}

} // verus!
