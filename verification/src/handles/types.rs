use vstd::prelude::*;

verus! {

/// A packed edge: the target vertex handle in the low 32 bits and the
/// weight, as a two's-complement 32-bit value, in the high 32 bits.
pub type Edge = u64;

/// A vertex handle.
pub type VHandle = u32;

/// An edge weight.
pub type Weight = i32;

/// A compact integer used for lengths, capacities and offsets.
pub type Ci = u32;

/// A count of edge slots.
pub type Slot = u32;

/// Number of bits the weight is shifted by inside a packed edge.
pub const SHIFT: u64 = 32;

/// Mask of the vertex-handle half of a packed edge.
pub const MASK: u32 = 0xFFFF_FFFF;

} // verus!
