use vstd::prelude::*;

pub mod types;

use crate::handles::types::{Edge, VHandle, Weight, MASK};

verus! {

/// The handle that marks "no vertex".
pub const NONE: VHandle = 0xFFFF_FFFF;

/// The unsigned 32-bit pattern of a weight (two's complement).
pub open spec fn weight_bits(w: Weight) -> nat {
    if w >= 0 { w as nat } else { (w + 0x1_0000_0000) as nat }
}

/// The weight whose two's-complement pattern is `bits` (`bits < 2^32`).
pub open spec fn weight_of_bits(bits: nat) -> int {
    if bits < 0x8000_0000 { bits as int } else { bits - 0x1_0000_0000 }
}

/// The packed edge of target `v` and weight `w`.
pub open spec fn spec_pack(v: VHandle, w: Weight) -> Edge {
    (v + weight_bits(w) * 0x1_0000_0000) as u64
}

/// The target vertex of a packed edge: its low 32 bits.
pub open spec fn spec_vh(e: Edge) -> VHandle {
    (e % 0x1_0000_0000) as u32
}

/// The weight of a packed edge: its high 32 bits read as a signed value.
pub open spec fn spec_wgt(e: Edge) -> Weight {
    weight_of_bits((e / 0x1_0000_0000) as nat) as i32
}

proof fn lemma_weight_bits_range(w: Weight)
    ensures
        weight_bits(w) < 0x1_0000_0000,
        weight_of_bits(weight_bits(w)) == w,
{
}

proof fn lemma_pack_bits(v: VHandle, w: Weight)
    ensures
        ((v as u64) | ((w as u64) << 32u64)) == spec_pack(v, w),
{
    let wb: u64 = w as u64;
    assert(((v as u64) | (wb << 32u64)) == (v as u64) + ((wb & 0xFFFF_FFFFu64) * 0x1_0000_0000u64)) by (bit_vector);
    assert((wb & 0xFFFF_FFFFu64) == weight_bits(w)) by {
        assert(w >= 0 ==> (w as u64) & 0xFFFF_FFFFu64 == w) by (bit_vector);
        assert(w < 0 ==> (w as u64) & 0xFFFF_FFFFu64 == w + 0x1_0000_0000) by (bit_vector);
    }
}

/// The target vertex of `handle`, as a `usize` for indexing.
pub fn vhu(handle: Edge) -> (r: usize)
    ensures
        r == spec_vh(handle),
{
    proof {
        assert((handle as u32) == handle % 0x1_0000_0000) by (bit_vector);
    }
    (handle as VHandle) as usize
}

/// The target vertex of `handle`.
pub fn vh(handle: Edge) -> (r: VHandle)
    ensures
        r == spec_vh(handle),
{
    proof {
        assert((handle as u32) == handle % 0x1_0000_0000) by (bit_vector);
    }
    handle as VHandle
}

/// The weight of `handle`.
pub fn wgt(handle: Edge) -> (r: Weight)
    ensures
        r == spec_wgt(handle),
{
    proof {
        assert((handle >> 32u64) == handle / 0x1_0000_0000) by (bit_vector);
        let hi: u64 = handle >> 32u64;
        assert(hi < 0x8000_0000 ==> (hi as i32) == hi) by (bit_vector);
        assert(hi < 0x1_0000_0000 && hi >= 0x8000_0000 ==> (hi as i32) == hi - 0x1_0000_0000) by (bit_vector);
    }
    (handle >> 32u64) as Weight
}

/// The edge to `handle` with weight 0.
pub fn vh_pack(handle: VHandle) -> (r: Edge)
    ensures
        r == spec_pack(handle, 0),
{
    handle as Edge
}

/// The edge to `node_id` with weight `weight`.
pub fn pack(node_id: VHandle, weight: Weight) -> (r: Edge)
    ensures
        r == spec_pack(node_id, weight),
{
    proof {
        lemma_pack_bits(node_id, weight);
    }
    (node_id as Edge) | ((weight as Edge) << 32u64)
}

/// `handle` with its weight replaced by `weight`; the target is kept.
pub fn set_wgt(handle: Edge, weight: Weight) -> (r: Edge)
    ensures
        r == spec_pack(spec_vh(handle), weight),
{
    let cleared = handle & !((MASK as Edge) << 32u64);
    proof {
        let wb: u64 = weight as u64;
        assert((handle & !(0xFFFF_FFFFu64 << 32u64)) | (wb << 32u64)
            == (handle % 0x1_0000_0000) + ((wb & 0xFFFF_FFFFu64) * 0x1_0000_0000u64)) by (bit_vector);
        assert(weight >= 0 ==> (weight as u64) & 0xFFFF_FFFFu64 == weight) by (bit_vector);
        assert(weight < 0 ==> (weight as u64) & 0xFFFF_FFFFu64 == weight + 0x1_0000_0000) by (bit_vector);
    }
    cleared | ((weight as Edge) << 32u64)
}

/// `handle` with its target replaced by `vert_id`; the weight is kept.
pub fn set_vh(handle: Edge, vert_id: VHandle) -> (r: Edge)
    ensures
        r == spec_pack(vert_id, spec_wgt(handle)),
{
    proof {
        let v: u64 = vert_id as u64;
        assert((handle & !(0xFFFF_FFFFu64)) | v == v + (handle / 0x1_0000_0000) * 0x1_0000_0000u64)
            by (bit_vector) requires v < 0x1_0000_0000u64;
        lemma_high_bits_roundtrip(handle);
    }
    (handle & !(MASK as Edge)) | (vert_id as Edge)
}

proof fn lemma_high_bits_roundtrip(e: Edge)
    ensures
        weight_bits(spec_wgt(e)) == e / 0x1_0000_0000,
{
    let hi = (e / 0x1_0000_0000) as nat;
    assert(hi < 0x1_0000_0000) by {
        assert(e / 0x1_0000_0000 < 0x1_0000_0000) by (bit_vector);
    }
}

/// Packing a target and a weight and reading them back gives the same
/// target and weight.
pub proof fn lemma_pack_unpack(v: VHandle, w: Weight)
    ensures
        spec_vh(spec_pack(v, w)) == v,
        spec_wgt(spec_pack(v, w)) == w,
{
    lemma_weight_bits_range(w);
    let e = spec_pack(v, w) as int;
    assert(e == v + weight_bits(w) * 0x1_0000_0000);
    vstd::arithmetic::div_mod::lemma_fundamental_div_mod_converse(e, 0x1_0000_0000, weight_bits(w) as int, v as int);
}

/// Every packed edge is the packing of its own target and weight.
pub proof fn lemma_unpack_pack(e: Edge)
    ensures
        spec_pack(spec_vh(e), spec_wgt(e)) == e,
{
    lemma_high_bits_roundtrip(e);
    vstd::arithmetic::div_mod::lemma_fundamental_div_mod(e as int, 0x1_0000_0000);
}

/// Replacing the weight keeps the target and sets the weight; replacing the
/// target keeps the weight and sets the target.
pub proof fn lemma_set_fields(e: Edge, v: VHandle, w: Weight)
    ensures
        spec_vh(spec_pack(spec_vh(e), w)) == spec_vh(e),
        spec_wgt(spec_pack(spec_vh(e), w)) == w,
        spec_vh(spec_pack(v, spec_wgt(e))) == v,
        spec_wgt(spec_pack(v, spec_wgt(e))) == spec_wgt(e),
{
    lemma_pack_unpack(spec_vh(e), w);
    lemma_pack_unpack(v, spec_wgt(e));
}

} // verus!
