//! Pipeline stages, memory access kinds and image layouts, the three parts
//! of a synchronization state.
use vstd::prelude::*;

verus! {

pub const SYNC_VERTEX_INPUT: u32 = 1;
pub const SYNC_VERTEX_SHADER: u32 = 2;
pub const SYNC_FRAGMENT_SHADER: u32 = 4;
pub const SYNC_COMPUTE_SHADER: u32 = 8;
pub const SYNC_EARLY_DEPTH: u32 = 16;
pub const SYNC_LATE_DEPTH: u32 = 32;
pub const SYNC_RENDER_TARGET: u32 = 64;
pub const SYNC_COPY: u32 = 128;
pub const SYNC_RESOLVE: u32 = 256;
pub const SYNC_INDIRECT: u32 = 512;
pub const SYNC_INDEX_INPUT: u32 = 1024;
pub const SYNC_HOST: u32 = 2048;
pub const SYNC_ACCELERATION_STRUCTURE_BUILD: u32 = 4096;
pub const SYNC_RAY_TRACING: u32 = 8192;

pub const ACCESS_VERTEX_INPUT_READ: u32 = 1;
pub const ACCESS_INDEX_READ: u32 = 2;
pub const ACCESS_INDIRECT_READ: u32 = 4;
pub const ACCESS_CONSTANT_READ: u32 = 8;
pub const ACCESS_SAMPLING_READ: u32 = 16;
pub const ACCESS_STORAGE_READ: u32 = 32;
pub const ACCESS_STORAGE_WRITE: u32 = 64;
pub const ACCESS_RENDER_TARGET_READ: u32 = 128;
pub const ACCESS_RENDER_TARGET_WRITE: u32 = 256;
pub const ACCESS_DEPTH_STENCIL_READ: u32 = 512;
pub const ACCESS_DEPTH_STENCIL_WRITE: u32 = 1024;
pub const ACCESS_COPY_READ: u32 = 2048;
pub const ACCESS_COPY_WRITE: u32 = 4096;
pub const ACCESS_SHADER_READ: u32 = 8192;
pub const ACCESS_SHADER_WRITE: u32 = 16384;
pub const ACCESS_MEMORY_READ: u32 = 32768;
pub const ACCESS_MEMORY_WRITE: u32 = 65536;
pub const ACCESS_HOST_READ: u32 = 131072;
pub const ACCESS_HOST_WRITE: u32 = 262144;
pub const ACCESS_ACCELERATION_STRUCTURE_READ: u32 = 524288;
pub const ACCESS_ACCELERATION_STRUCTURE_WRITE: u32 = 1048576;

/// Every access bit that stands for a write.
pub const ACCESS_WRITE_MASK: u32 = 1398080;

/// `a` holds every bit of `b`.
pub open spec fn bits_contain(a: u32, b: u32) -> bool {
    a & b == b
}

/// A set of pipeline stages, one bit per stage.
#[derive(Clone, Copy, Debug, PartialEq, Eq, Structural)]
pub struct BarrierSync {
    pub bits: u32,
}

/// A set of memory access kinds, one bit per kind.
#[derive(Clone, Copy, Debug, PartialEq, Eq, Structural)]
pub struct BarrierAccess {
    pub bits: u32,
}

/// The layout an image is kept in between two accesses.
#[derive(Clone, Copy, Debug, PartialEq, Eq, Structural)]
pub enum TextureLayout {
    Undefined,
    General,
    Sampled,
    Storage,
    RenderTarget,
    DepthStencilRead,
    DepthStencilReadWrite,
    CopySrc,
    CopyDst,
    Present,
}

impl BarrierSync {
    pub fn empty() -> (r: BarrierSync)
        ensures
            r.bits == 0,
    {
        BarrierSync { bits: 0 }
    }

    pub fn from_bits(bits: u32) -> (r: BarrierSync)
        ensures
            r.bits == bits,
    {
        BarrierSync { bits }
    }

    pub fn contains(&self, other: BarrierSync) -> (r: bool)
        ensures
            r == bits_contain(self.bits, other.bits),
    {
        self.bits & other.bits == other.bits
    }

    pub fn intersects(&self, other: BarrierSync) -> (r: bool)
        ensures
            r == (self.bits & other.bits != 0),
    {
        self.bits & other.bits != 0
    }

    pub fn union(&self, other: BarrierSync) -> (r: BarrierSync)
        ensures
            r.bits == self.bits | other.bits,
    {
        BarrierSync { bits: self.bits | other.bits }
    }
}

impl BarrierAccess {
    pub open spec fn spec_is_write(&self) -> bool {
        self.bits & ACCESS_WRITE_MASK != 0
    }

    pub fn empty() -> (r: BarrierAccess)
        ensures
            r.bits == 0,
    {
        BarrierAccess { bits: 0 }
    }

    pub fn from_bits(bits: u32) -> (r: BarrierAccess)
        ensures
            r.bits == bits,
    {
        BarrierAccess { bits }
    }

    pub fn write_mask() -> (r: BarrierAccess)
        ensures
            r.bits == ACCESS_WRITE_MASK,
    {
        BarrierAccess { bits: ACCESS_WRITE_MASK }
    }

    /// Whether any of the access kinds is a write.
    pub fn is_write(&self) -> (r: bool)
        ensures
            r == self.spec_is_write(),
    {
        self.bits & ACCESS_WRITE_MASK != 0
    }

    pub fn contains(&self, other: BarrierAccess) -> (r: bool)
        ensures
            r == bits_contain(self.bits, other.bits),
    {
        self.bits & other.bits == other.bits
    }

    pub fn union(&self, other: BarrierAccess) -> (r: BarrierAccess)
        ensures
            r.bits == self.bits | other.bits,
    {
        BarrierAccess { bits: self.bits | other.bits }
    }

    /// The write kinds among the access kinds: what a barrier has to make
    /// available before the next access.
    pub fn writes_only(&self) -> (r: BarrierAccess)
        ensures
            r.bits == self.bits & ACCESS_WRITE_MASK,
    {
        BarrierAccess { bits: self.bits & ACCESS_WRITE_MASK }
    }
}

/// A union holds both of its parts.
pub proof fn lemma_union_contains(a: u32, b: u32)
    ensures
        bits_contain(a | b, a),
        bits_contain(a | b, b),
{
    assert((a | b) & a == a) by (bit_vector);
    assert((a | b) & b == b) by (bit_vector);
}

/// A set that holds `b` and `c` holds their union, and the reverse.
pub proof fn lemma_contains_union(a: u32, b: u32, c: u32)
    ensures
        bits_contain(a, b | c) <==> (bits_contain(a, b) && bits_contain(a, c)),
{
    assert((a & (b | c) == (b | c)) <==> (a & b == b && a & c == c)) by (bit_vector);
}

/// Every set holds itself.
pub proof fn lemma_contains_self(a: u32)
    ensures
        bits_contain(a, a),
{
    assert(a & a == a) by (bit_vector);
}

} // verus!
