//! Synchronization state of subresources and the barriers an access needs.
use vstd::prelude::*;

use crate::sync::{
    bits_contain, lemma_contains_self, lemma_contains_union, lemma_union_contains, BarrierAccess,
    BarrierSync, TextureLayout, ACCESS_WRITE_MASK,
};

verus! {

/// What is known of one subresource: the stages and access kinds of the
/// accesses recorded since the last barrier, and its layout. The same shape
/// describes a requested access.
#[derive(Clone, Copy, Debug, PartialEq, Eq, Structural)]
pub struct SubresourceState {
    pub stages: BarrierSync,
    pub access: BarrierAccess,
    pub layout: TextureLayout,
}

/// Which instance of a resource is meant: for a resource with history, one
/// of its two physical instances; for any other, the only one.
#[derive(Clone, Copy, Debug, PartialEq, Eq, Structural, Hash)]
pub enum InstanceSlot {
    A,
    B,
}

/// A physical instance of a tracked resource: the index of the resource in
/// its registry table and the slot of the instance.
#[derive(Clone, Copy, Debug, PartialEq, Eq, Structural, Hash)]
pub struct InstanceHandle {
    pub resource: usize,
    pub slot: InstanceSlot,
}

/// A range of mip levels and array layers of an image.
#[derive(Clone, Copy, Debug, PartialEq, Eq, Structural, Hash)]
pub struct BarrierTextureRange {
    pub base_mip_level: u32,
    pub mip_level_length: u32,
    pub base_array_layer: u32,
    pub array_layer_length: u32,
}

/// The change of synchronization scope that one barrier makes.
#[derive(Clone, Copy, Debug, PartialEq, Eq, Structural)]
pub struct Transition {
    pub old_sync: BarrierSync,
    pub new_sync: BarrierSync,
    pub old_access: BarrierAccess,
    pub new_access: BarrierAccess,
    pub old_layout: TextureLayout,
    pub new_layout: TextureLayout,
}

/// A barrier on a range of an image instance, to be recorded right before
/// the access that asked for it.
#[derive(Clone, Copy, Debug, PartialEq, Eq, Structural)]
pub struct TextureBarrier {
    pub texture: InstanceHandle,
    pub transition: Transition,
    pub range: BarrierTextureRange,
}

/// A barrier on a buffer instance.
#[derive(Clone, Copy, Debug, PartialEq, Eq, Structural)]
pub struct BufferBarrier {
    pub buffer: InstanceHandle,
    pub transition: Transition,
}

impl SubresourceState {
    /// The state of a subresource that nothing has accessed yet.
    pub fn initial() -> (r: SubresourceState)
        ensures
            r == Self::spec_initial(),
    {
        SubresourceState {
            stages: BarrierSync::empty(),
            access: BarrierAccess::empty(),
            layout: TextureLayout::Undefined,
        }
    }

    pub open spec fn spec_initial() -> SubresourceState {
        SubresourceState {
            stages: BarrierSync { bits: 0 },
            access: BarrierAccess { bits: 0 },
            layout: TextureLayout::Undefined,
        }
    }
}

/// The tracked access kinds are dropped rather than merged: a write on
/// either side, or a change of layout.
pub open spec fn replaces(old: SubresourceState, req: SubresourceState) -> bool {
    req.access.spec_is_write() || old.access.spec_is_write() || old.layout != req.layout
}

/// An access needs a barrier unless it only reads what is already visible
/// to its stages, in the layout the subresource is in.
pub open spec fn needs_barrier(old: SubresourceState, req: SubresourceState) -> bool {
    replaces(old, req) || !bits_contain(old.access.bits, req.access.bits) || !bits_contain(
        old.stages.bits,
        req.stages.bits,
    )
}

/// The state after an access: unchanged where no barrier was needed; the
/// access itself after a write or a change of layout; otherwise the union of
/// the reads.
pub open spec fn state_after(old: SubresourceState, req: SubresourceState) -> SubresourceState {
    if !needs_barrier(old, req) {
        old
    } else if replaces(old, req) {
        req
    } else {
        SubresourceState {
            stages: BarrierSync { bits: old.stages.bits | req.stages.bits },
            access: BarrierAccess { bits: old.access.bits | req.access.bits },
            layout: req.layout,
        }
    }
}

/// The barrier's transition for a subresource. A discarding access does not
/// keep the old contents: it starts from an undefined layout and makes no
/// earlier write available.
pub open spec fn transition_for(old: SubresourceState, req: SubresourceState, discard: bool) -> Transition {
    Transition {
        old_sync: old.stages,
        new_sync: req.stages,
        old_access: if discard {
            BarrierAccess { bits: 0 }
        } else {
            BarrierAccess { bits: old.access.bits & ACCESS_WRITE_MASK }
        },
        new_access: req.access,
        old_layout: if discard {
            TextureLayout::Undefined
        } else {
            old.layout
        },
        new_layout: req.layout,
    }
}

/// Where the state of a subresource is kept among those of its image.
pub open spec fn sub_index(mip: int, mip_count: int, layer: int) -> int {
    layer * mip_count + mip
}

pub open spec fn in_range(range: BarrierTextureRange, layer: int, mip: int) -> bool {
    range.base_array_layer <= layer < range.base_array_layer + range.array_layer_length
        && range.base_mip_level <= mip < range.base_mip_level + range.mip_level_length
}

/// A range that lies within an image of the given size.
pub open spec fn range_fits(range: BarrierTextureRange, mip_count: int, layer_count: int) -> bool {
    range.base_mip_level + range.mip_level_length <= mip_count && range.base_array_layer
        + range.array_layer_length <= layer_count
}

/// For each mip level of the range in one layer, the transition it needs,
/// if any.
pub open spec fn layer_row(
    states: Seq<SubresourceState>,
    mip_count: int,
    layer: int,
    range: BarrierTextureRange,
    req: SubresourceState,
    discard: bool,
) -> Seq<Option<Transition>> {
    Seq::new(
        range.mip_level_length as nat,
        |i: int|
            {
                let s = states[sub_index(range.base_mip_level + i, mip_count, layer)];
                if needs_barrier(s, req) {
                    Some(transition_for(s, req, discard))
                } else {
                    None
                }
            },
    )
}

/// The barriers for one layer: each maximal run of neighbouring mip levels
/// that need the same transition becomes one barrier.
pub open spec fn row_runs(
    texture: InstanceHandle,
    layer: int,
    base_mip: int,
    row: Seq<Option<Transition>>,
) -> Seq<TextureBarrier>
    decreases row.len(),
{
    if row.len() == 0 {
        seq![]
    } else {
        let prev = row_runs(texture, layer, base_mip, row.drop_last());
        let mip = base_mip + row.len() - 1;
        match row.last() {
            None => prev,
            Some(t) => {
                if prev.len() > 0 && prev.last().transition == t && prev.last().range.base_mip_level
                    + prev.last().range.mip_level_length == mip {
                    let last = prev.last();
                    prev.drop_last().push(
                        TextureBarrier {
                            range: BarrierTextureRange {
                                mip_level_length: (last.range.mip_level_length + 1) as u32,
                                ..last.range
                            },
                            ..last
                        },
                    )
                } else {
                    prev.push(
                        TextureBarrier {
                            texture,
                            transition: t,
                            range: BarrierTextureRange {
                                base_mip_level: mip as u32,
                                mip_level_length: 1,
                                base_array_layer: layer as u32,
                                array_layer_length: 1,
                            },
                        },
                    )
                }
            },
        }
    }
}

/// The barriers for the first `n` layers of the range, layer by layer.
pub open spec fn texture_barriers(
    texture: InstanceHandle,
    states: Seq<SubresourceState>,
    mip_count: int,
    range: BarrierTextureRange,
    req: SubresourceState,
    discard: bool,
    n: int,
) -> Seq<TextureBarrier>
    decreases n,
{
    if n <= 0 {
        seq![]
    } else {
        let layer = range.base_array_layer + n - 1;
        texture_barriers(texture, states, mip_count, range, req, discard, n - 1) + row_runs(
            texture,
            layer,
            range.base_mip_level as int,
            layer_row(states, mip_count, layer, range, req, discard),
        )
    }
}

/// `new` is `old` after an access to `range`: each subresource in the
/// range took the access, the others are as they were.
pub open spec fn states_after_access(
    old: Seq<SubresourceState>,
    new: Seq<SubresourceState>,
    mip_count: int,
    layer_count: int,
    range: BarrierTextureRange,
    req: SubresourceState,
) -> bool {
    &&& new.len() == old.len()
    &&& forall|layer: int, mip: int|
        0 <= layer < layer_count && 0 <= mip < mip_count ==> #[trigger] new[sub_index(
            mip,
            mip_count,
            layer,
        )] == if in_range(range, layer, mip) {
            state_after(old[sub_index(mip, mip_count, layer)], req)
        } else {
            old[sub_index(mip, mip_count, layer)]
        }
}

/// Decides whether an access to a whole buffer needs a barrier, and updates
/// its tracked state. Buffers have no layout: their state and the access keep
/// the same one.
pub fn record_buffer_access(state: &mut SubresourceState, buffer: InstanceHandle, req: SubresourceState) -> (barrier: Option<BufferBarrier>)
    requires
        req.layout == old(state).layout,
    ensures
        *final(state) == state_after(*old(state), req),
        barrier == if needs_barrier(*old(state), req) {
            Some(BufferBarrier { buffer, transition: transition_for(*old(state), req, false) })
        } else {
            None
        },
{
    let old_state = *state;
    let barrier_needed = req.access.is_write() || old_state.access.is_write()
        || old_state.layout != req.layout || !old_state.access.contains(req.access)
        || !old_state.stages.contains(req.stages);
    if !barrier_needed {
        return None;
    }
    let transition = Transition {
        old_sync: old_state.stages,
        new_sync: req.stages,
        old_access: old_state.access.writes_only(),
        new_access: req.access,
        old_layout: old_state.layout,
        new_layout: req.layout,
    };
    if req.access.is_write() || old_state.access.is_write() {
        *state = req;
    } else {
        *state = SubresourceState {
            stages: old_state.stages.union(req.stages),
            access: old_state.access.union(req.access),
            layout: req.layout,
        };
    }
    Some(BufferBarrier { buffer, transition })
}

proof fn lemma_sub_index(mip1: int, layer1: int, mip2: int, layer2: int, mip_count: int, layer_count: int)
    requires
        0 <= mip1 < mip_count,
        0 <= mip2 < mip_count,
        0 <= layer1 < layer_count,
        0 <= layer2,
    ensures
        0 <= sub_index(mip1, mip_count, layer1) < mip_count * layer_count,
        sub_index(mip1, mip_count, layer1) == sub_index(mip2, mip_count, layer2) ==> (mip1 == mip2
            && layer1 == layer2),
{
    assert(0 <= layer1 * mip_count + mip1 < mip_count * layer_count) by (nonlinear_arith)
        requires
            0 <= mip1 < mip_count,
            0 <= layer1 < layer_count,
    ;
    if layer1 * mip_count + mip1 == layer2 * mip_count + mip2 {
        assert(layer1 == layer2 && mip1 == mip2) by (nonlinear_arith)
            requires
                layer1 * mip_count + mip1 == layer2 * mip_count + mip2,
                0 <= mip1 < mip_count,
                0 <= mip2 < mip_count,
                0 <= layer1,
                0 <= layer2,
        ;
    }
}

/// Decides the barriers for one access on a range of an image instance and
/// updates the tracked state of every subresource in the range.
pub fn record_texture_access(
    states: &mut Vec<SubresourceState>,
    mip_count: u32,
    layer_count: u32,
    texture: InstanceHandle,
    range: BarrierTextureRange,
    req: SubresourceState,
    discard: bool,
) -> (barriers: Vec<TextureBarrier>)
    requires
        old(states)@.len() == mip_count as int * layer_count as int,
        range_fits(range, mip_count as int, layer_count as int),
    ensures
        states_after_access(old(states)@, final(states)@, mip_count as int, layer_count as int, range, req),
        barriers@ == texture_barriers(
            texture,
            old(states)@,
            mip_count as int,
            range,
            req,
            discard,
            range.array_layer_length as int,
        ),
{
    let ghost old_states = states@;
    let ghost m = mip_count as int;
    let mut out: Vec<TextureBarrier> = Vec::new();
    let mut li: u32 = 0;
    while li < range.array_layer_length
        invariant
            li <= range.array_layer_length,
            range_fits(range, m, layer_count as int),
            m == mip_count,
            old_states.len() == m * layer_count,
            states@.len() == old_states.len(),
            forall|layer: int, mip: int|
                0 <= layer < layer_count && 0 <= mip < mip_count ==> #[trigger] states@[sub_index(
                    mip,
                    m,
                    layer,
                )] == if in_range(range, layer, mip) && layer < range.base_array_layer + li {
                    state_after(old_states[sub_index(mip, m, layer)], req)
                } else {
                    old_states[sub_index(mip, m, layer)]
                },
            out@ == texture_barriers(texture, old_states, m, range, req, discard, li as int),
        decreases range.array_layer_length - li,
    {
        let layer: u32 = range.base_array_layer + li;
        let ghost row = layer_row(old_states, m, layer as int, range, req, discard);
        let ghost before = out@;
        let row_start = out.len();
        let mut mi: u32 = 0;
        while mi < range.mip_level_length
            invariant
                li < range.array_layer_length,
                layer == range.base_array_layer + li,
                mi <= range.mip_level_length,
                range_fits(range, m, layer_count as int),
                m == mip_count,
                old_states.len() == m * layer_count,
                states@.len() == old_states.len(),
                row == layer_row(old_states, m, layer as int, range, req, discard),
                forall|l: int, mip: int|
                    0 <= l < layer_count && 0 <= mip < mip_count ==> #[trigger] states@[sub_index(
                        mip,
                        m,
                        l,
                    )] == if in_range(range, l, mip) && (l < layer || (l == layer && mip
                        < range.base_mip_level + mi)) {
                        state_after(old_states[sub_index(mip, m, l)], req)
                    } else {
                        old_states[sub_index(mip, m, l)]
                    },
                before == texture_barriers(texture, old_states, m, range, req, discard, li as int),
                row_start == before.len(),
                out@ == before + row_runs(texture, layer as int, range.base_mip_level as int, row.take(mi as int)),
            decreases range.mip_level_length - mi,
        {
            let mip: u32 = range.base_mip_level + mi;
            proof {
                lemma_sub_index(mip as int, layer as int, 0, 0, m, layer_count as int);
            }
            let len = states.len();
            proof {
                assert(0 <= (layer as int) * m <= (layer as int) * m + (mip as int)) by (nonlinear_arith)
                    requires
                        m >= 0,
                ;
                assert((layer as int) * m + (mip as int) < len);
            }
            let idx: usize = (layer as usize) * (mip_count as usize) + (mip as usize);
            let old_state = states[idx];
            let ghost runs_before = row_runs(texture, layer as int, range.base_mip_level as int, row.take(mi as int));
            proof {
                assert(old_state == old_states[sub_index(mip as int, m, layer as int)]);
                assert(row.take(mi as int + 1).drop_last() =~= row.take(mi as int));
            }
            let barrier_needed = req.access.is_write() || old_state.access.is_write()
                || old_state.layout != req.layout || !old_state.access.contains(req.access)
                || !old_state.stages.contains(req.stages);
            if barrier_needed {
                let t = Transition {
                    old_sync: old_state.stages,
                    new_sync: req.stages,
                    old_access: if discard {
                        BarrierAccess::empty()
                    } else {
                        old_state.access.writes_only()
                    },
                    new_access: req.access,
                    old_layout: if discard {
                        TextureLayout::Undefined
                    } else {
                        old_state.layout
                    },
                    new_layout: req.layout,
                };
                let n = out.len();
                proof {
                    assert(out@ =~= before + runs_before);
                    assert(runs_before.len() > 0 ==> runs_before.last() == out@[n - 1]);
                }
                let mut extended = false;
                if n > row_start {
                    let last = out[n - 1];
                    if last.transition == t && last.range.base_mip_level as u64
                        + last.range.mip_level_length as u64 == mip as u64 {
                        let grown = TextureBarrier {
                            range: BarrierTextureRange {
                                mip_level_length: last.range.mip_level_length + 1,
                                ..last.range
                            },
                            ..last
                        };
                        out.set(n - 1, grown);
                        extended = true;
                    }
                }
                if !extended {
                    out.push(
                        TextureBarrier {
                            texture,
                            transition: t,
                            range: BarrierTextureRange {
                                base_mip_level: mip,
                                mip_level_length: 1,
                                base_array_layer: layer,
                                array_layer_length: 1,
                            },
                        },
                    );
                }
                let new_state = if req.access.is_write() || old_state.access.is_write()
                    || old_state.layout != req.layout {
                    req
                } else {
                    SubresourceState {
                        stages: old_state.stages.union(req.stages),
                        access: old_state.access.union(req.access),
                        layout: req.layout,
                    }
                };
                states.set(idx, new_state);
                proof {
                    assert(out@ =~= before + row_runs(
                        texture,
                        layer as int,
                        range.base_mip_level as int,
                        row.take(mi as int + 1),
                    ));
                }
            } else {
                proof {
                    assert(out@ =~= before + row_runs(
                        texture,
                        layer as int,
                        range.base_mip_level as int,
                        row.take(mi as int + 1),
                    ));
                }
            }
            proof {
                assert forall|l: int, mp: int|
                    0 <= l < layer_count && 0 <= mp < mip_count implies #[trigger] states@[sub_index(
                        mp,
                        m,
                        l,
                    )] == if in_range(range, l, mp) && (l < layer || (l == layer && mp
                        < range.base_mip_level + mi + 1)) {
                        state_after(old_states[sub_index(mp, m, l)], req)
                    } else {
                        old_states[sub_index(mp, m, l)]
                    } by {
                    lemma_sub_index(mp, l, mip as int, layer as int, m, layer_count as int);
                }
            }
            mi = mi + 1;
        }
        proof {
            assert(row.take(range.mip_level_length as int) =~= row);
            assert(out@ =~= texture_barriers(texture, old_states, m, range, req, discard, li as int + 1));
        }
        li = li + 1;
    }
    out
}

/// Repeating a read-only access needs no further barrier: the state it
/// leaves already covers it.
pub proof fn lemma_repeated_read_needs_no_barrier(old: SubresourceState, req: SubresourceState)
    requires
        !req.access.spec_is_write(),
    ensures
        !needs_barrier(state_after(old, req), req),
        state_after(state_after(old, req), req) == state_after(old, req),
{
    let a = old.access.bits;
    let b = req.access.bits;
    assert((a | b) & ACCESS_WRITE_MASK != 0 <==> (a & ACCESS_WRITE_MASK != 0 || b & ACCESS_WRITE_MASK
        != 0)) by (bit_vector);
    lemma_contains_self(req.stages.bits);
    lemma_contains_self(req.access.bits);
    lemma_union_contains(old.stages.bits, req.stages.bits);
    lemma_union_contains(old.access.bits, req.access.bits);
}

/// After two reads in one layout, any read in that layout whose stages and
/// access kinds lie within the union of the two needs no barrier, and
/// leaves the state as it is.
pub proof fn lemma_reads_coalesce(
    old: SubresourceState,
    first: SubresourceState,
    second: SubresourceState,
    later: SubresourceState,
)
    requires
        !first.access.spec_is_write(),
        !second.access.spec_is_write(),
        !later.access.spec_is_write(),
        first.layout == second.layout,
        later.layout == first.layout,
        bits_contain(first.stages.bits | second.stages.bits, later.stages.bits),
        bits_contain(first.access.bits | second.access.bits, later.access.bits),
    ensures
        !needs_barrier(state_after(state_after(old, first), second), later),
        state_after(state_after(state_after(old, first), second), later) == state_after(
            state_after(old, first),
            second,
        ),
{
    let s1 = state_after(old, first);
    let s2 = state_after(s1, second);
    lemma_repeated_read_needs_no_barrier(old, first);
    lemma_repeated_read_needs_no_barrier(s1, second);
    let w = ACCESS_WRITE_MASK;
    let (oa, fa, sa, la) = (old.access.bits, first.access.bits, second.access.bits, later.access.bits);
    let (os, fs, ss, ls) = (old.stages.bits, first.stages.bits, second.stages.bits, later.stages.bits);
    // s1 covers the first read and s2 covers s1 and the second read.
    assert(bits_contain(s1.stages.bits, fs) && bits_contain(s1.access.bits, fa));
    assert(!s1.access.spec_is_write());
    assert(bits_contain(s2.stages.bits, s1.stages.bits) && bits_contain(s2.access.bits, s1.access.bits)
        && bits_contain(s2.stages.bits, ss) && bits_contain(s2.access.bits, sa)) by {
        lemma_contains_self(s1.stages.bits);
        lemma_contains_self(s1.access.bits);
        lemma_contains_self(ss);
        lemma_contains_self(sa);
        lemma_union_contains(s1.stages.bits, ss);
        lemma_union_contains(s1.access.bits, sa);
    }
    assert(forall|x: u32, y: u32, z: u32| #![auto] (x & y == y && y & z == z) ==> x & z == z) by {
        assert(forall|x: u32, y: u32, z: u32| #![auto] (x & y == y && y & z == z) ==> x & z == z)
            by (bit_vector);
    }
    lemma_contains_union(s2.stages.bits, fs, ss);
    lemma_contains_union(s2.access.bits, fa, sa);
    assert(bits_contain(s2.stages.bits, ls));
    assert(bits_contain(s2.access.bits, la));
}

/// A write always needs a barrier, and the tracked access kinds become
/// exactly those of the write.
pub proof fn lemma_write_replaces(old: SubresourceState, req: SubresourceState)
    requires
        req.access.spec_is_write(),
    ensures
        needs_barrier(old, req),
        state_after(old, req) == req,
        state_after(old, req).access == req.access,
{
}

/// Barrier `b` covers the same mip levels as `p`, in the layers right
/// after it, with the same transition: the two form one range.
pub open spec fn stacks_on(p: TextureBarrier, b: TextureBarrier) -> bool {
    &&& p.texture == b.texture
    &&& p.transition == b.transition
    &&& p.range.base_mip_level == b.range.base_mip_level
    &&& p.range.mip_level_length == b.range.mip_level_length
    &&& p.range.base_array_layer + p.range.array_layer_length == b.range.base_array_layer
}

/// The position of the first barrier in `bs` that `b` stacks on, or -1.
pub open spec fn stack_target(bs: Seq<TextureBarrier>, b: TextureBarrier) -> int
    decreases bs.len(),
{
    if bs.len() == 0 {
        -1
    } else {
        let r = stack_target(bs.drop_last(), b);
        if r >= 0 {
            r
        } else if stacks_on(bs.last(), b) {
            bs.len() - 1
        } else {
            -1
        }
    }
}

/// `p` grown by the layers of `b`, which stacks on it.
pub open spec fn stacked(p: TextureBarrier, b: TextureBarrier) -> TextureBarrier {
    TextureBarrier {
        range: BarrierTextureRange {
            array_layer_length: (p.range.array_layer_length + b.range.array_layer_length) as u32,
            ..p.range
        },
        ..p
    }
}

/// The barriers of the layers in order, each merged into the barrier it
/// stacks on, if one was kept already: the same mip levels with the same
/// transition in neighbouring layers become one barrier, whatever else the
/// layers hold.
pub open spec fn merge_layers(bs: Seq<TextureBarrier>) -> Seq<TextureBarrier>
    decreases bs.len(),
{
    if bs.len() == 0 {
        seq![]
    } else {
        let prev = merge_layers(bs.drop_last());
        let b = bs.last();
        let j = stack_target(prev, b);
        if j >= 0 {
            prev.update(j, stacked(prev[j], b))
        } else {
            prev.push(b)
        }
    }
}

/// Every barrier's layers end within `layer_count`.
pub open spec fn layers_within(bs: Seq<TextureBarrier>, layer_count: int) -> bool {
    forall|i: int|
        0 <= i < bs.len() ==> (#[trigger] bs[i]).range.base_array_layer + bs[i].range.array_layer_length
            <= layer_count
}

proof fn lemma_stack_target(bs: Seq<TextureBarrier>, b: TextureBarrier)
    ensures
        -1 <= stack_target(bs, b) < bs.len(),
        stack_target(bs, b) >= 0 ==> stacks_on(bs[stack_target(bs, b)], b),
        stack_target(bs, b) == -1 ==> forall|i: int| 0 <= i < bs.len() ==> !stacks_on(#[trigger] bs[i], b),
    decreases bs.len(),
{
    if bs.len() > 0 {
        lemma_stack_target(bs.drop_last(), b);
        if stack_target(bs, b) == -1 {
            assert forall|i: int| 0 <= i < bs.len() implies !stacks_on(#[trigger] bs[i], b) by {
                if i < bs.len() - 1 {
                    assert(bs[i] == bs.drop_last()[i]);
                }
            }
        }
    }
}

proof fn lemma_stack_target_prefix(bs: Seq<TextureBarrier>, b: TextureBarrier, k: int)
    requires
        0 < k <= bs.len(),
        stack_target(bs.take(k), b) >= 0,
    ensures
        stack_target(bs, b) == stack_target(bs.take(k), b),
    decreases bs.len() - k,
{
    if k < bs.len() {
        assert(bs.take(k + 1).drop_last() =~= bs.take(k));
        lemma_stack_target_prefix(bs, b, k + 1);
    } else {
        assert(bs.take(k) =~= bs);
    }
}

fn find_stack_target(out: &Vec<TextureBarrier>, b: TextureBarrier) -> (r: Option<usize>)
    ensures
        match r {
            Some(j) => j < out@.len() && j as int == stack_target(out@, b),
            None => stack_target(out@, b) == -1,
        },
{
    let mut t: usize = 0;
    while t < out.len()
        invariant
            t <= out@.len(),
            stack_target(out@.take(t as int), b) == -1,
        decreases out@.len() - t,
    {
        proof {
            assert(out@.take(t as int + 1).drop_last() =~= out@.take(t as int));
        }
        let p = out[t];
        if p.texture == b.texture && p.transition == b.transition && p.range.base_mip_level
            == b.range.base_mip_level && p.range.mip_level_length == b.range.mip_level_length
            && p.range.base_array_layer as u64 + p.range.array_layer_length as u64
            == b.range.base_array_layer as u64 {
            proof {
                lemma_stack_target_prefix(out@, b, t as int + 1);
            }
            return Some(t);
        }
        t = t + 1;
    }
    proof {
        assert(out@.take(t as int) =~= out@);
    }
    None
}

/// Merges the runs of the same mip levels with the same transition in
/// neighbouring layers.
pub fn merge_layer_runs(bs: Vec<TextureBarrier>, layer_count: u32) -> (r: Vec<TextureBarrier>)
    requires
        layers_within(bs@, layer_count as int),
    ensures
        r@ == merge_layers(bs@),
{
    let mut out: Vec<TextureBarrier> = Vec::new();
    let mut i: usize = 0;
    while i < bs.len()
        invariant
            i <= bs@.len(),
            layers_within(bs@, layer_count as int),
            out@ == merge_layers(bs@.take(i as int)),
        decreases bs@.len() - i,
    {
        let b = bs[i];
        proof {
            assert(bs@.take(i as int + 1).drop_last() =~= bs@.take(i as int));
            assert(b.range.base_array_layer + b.range.array_layer_length <= layer_count);
        }
        match find_stack_target(&out, b) {
            Some(j) => {
                let p = out[j];
                proof {
                    lemma_stack_target(out@, b);
                }
                out.set(
                    j,
                    TextureBarrier {
                        range: BarrierTextureRange {
                            array_layer_length: p.range.array_layer_length + b.range.array_layer_length,
                            ..p.range
                        },
                        ..p
                    },
                );
            },
            None => {
                out.push(b);
            },
        }
        proof {
            assert(out@ =~= merge_layers(bs@.take(i as int + 1)));
        }
        i = i + 1;
    }
    proof {
        assert(bs@.take(i as int) =~= bs@);
    }
    out
}

proof fn lemma_row_runs_layers(texture: InstanceHandle, layer: int, base_mip: int, row: Seq<Option<Transition>>)
    requires
        0 <= layer <= u32::MAX,
        0 <= base_mip,
        base_mip + row.len() <= u32::MAX + 1,
    ensures
        forall|i: int|
            0 <= i < row_runs(texture, layer, base_mip, row).len() ==> (#[trigger] row_runs(
                texture,
                layer,
                base_mip,
                row,
            )[i]).range.base_array_layer == layer && row_runs(texture, layer, base_mip, row)[i].range.array_layer_length
                == 1,
    decreases row.len(),
{
    if row.len() > 0 {
        lemma_row_runs_layers(texture, layer, base_mip, row.drop_last());
        let prev = row_runs(texture, layer, base_mip, row.drop_last());
        let cur = row_runs(texture, layer, base_mip, row);
        assert forall|i: int| 0 <= i < cur.len() implies (#[trigger] cur[i]).range.base_array_layer == layer
            && cur[i].range.array_layer_length == 1 by {
            if i < prev.len() && i < cur.len() - 1 {
                assert(cur[i] == prev[i]);
            } else if prev.len() > 0 && i == prev.len() - 1 {
                assert(prev[i] == prev.last());
            }
        }
    }
}

/// The barriers of the first `n` layers of a range lie in those layers.
pub proof fn lemma_texture_barriers_layers(
    texture: InstanceHandle,
    states: Seq<SubresourceState>,
    mip_count: int,
    layer_count: int,
    range: BarrierTextureRange,
    req: SubresourceState,
    discard: bool,
    n: int,
)
    requires
        range_fits(range, mip_count, layer_count),
        mip_count <= u32::MAX,
        layer_count <= u32::MAX,
        0 <= n <= range.array_layer_length,
    ensures
        layers_within(texture_barriers(texture, states, mip_count, range, req, discard, n), range.base_array_layer + n),
    decreases n,
{
    if n > 0 {
        lemma_texture_barriers_layers(texture, states, mip_count, layer_count, range, req, discard, n - 1);
        let layer = range.base_array_layer + n - 1;
        let row = layer_row(states, mip_count, layer, range, req, discard);
        lemma_row_runs_layers(texture, layer, range.base_mip_level as int, row);
        let a = texture_barriers(texture, states, mip_count, range, req, discard, n - 1);
        let b = row_runs(texture, layer, range.base_mip_level as int, row);
        assert forall|i: int| 0 <= i < (a + b).len() implies (#[trigger] (a + b)[i]).range.base_array_layer
            + (a + b)[i].range.array_layer_length <= range.base_array_layer + n by {
            if i < a.len() {
                assert((a + b)[i] == a[i]);
            } else {
                assert((a + b)[i] == b[i - a.len()]);
            }
        }
    }
}

/// Merging keeps a nonempty list nonempty.
pub proof fn lemma_merge_nonempty(bs: Seq<TextureBarrier>)
    requires
        bs.len() > 0,
    ensures
        merge_layers(bs).len() > 0,
{
    let prev = merge_layers(bs.drop_last());
    lemma_stack_target(prev, bs.last());
}

proof fn lemma_row_runs_empty(texture: InstanceHandle, layer: int, base_mip: int, row: Seq<Option<Transition>>)
    requires
        forall|i: int| 0 <= i < row.len() ==> (#[trigger] row[i]) is None,
    ensures
        row_runs(texture, layer, base_mip, row) == Seq::<TextureBarrier>::empty(),
    decreases row.len(),
{
    if row.len() > 0 {
        lemma_row_runs_empty(texture, layer, base_mip, row.drop_last());
        assert(row[row.len() - 1] is None);
    }
}

proof fn lemma_row_runs_nonempty(texture: InstanceHandle, layer: int, base_mip: int, row: Seq<Option<Transition>>)
    requires
        row.len() > 0,
        row.last() is Some,
    ensures
        row_runs(texture, layer, base_mip, row).len() > 0,
{
    let prev = row_runs(texture, layer, base_mip, row.drop_last());
    if prev.len() > 0 {
        assert(prev.drop_last().len() + 1 == prev.len());
    }
}

/// Where no subresource of the range needs a barrier, the access emits
/// none.
pub proof fn lemma_no_barrier_needed(
    texture: InstanceHandle,
    states: Seq<SubresourceState>,
    mip_count: int,
    layer_count: int,
    range: BarrierTextureRange,
    req: SubresourceState,
    discard: bool,
    n: int,
)
    requires
        range_fits(range, mip_count, layer_count),
        0 <= n <= range.array_layer_length,
        forall|layer: int, mip: int|
            in_range(range, layer, mip) ==> !needs_barrier(
                #[trigger] states[sub_index(mip, mip_count, layer)],
                req,
            ),
    ensures
        texture_barriers(texture, states, mip_count, range, req, discard, n) == Seq::<TextureBarrier>::empty(),
    decreases n,
{
    if n > 0 {
        lemma_no_barrier_needed(texture, states, mip_count, layer_count, range, req, discard, n - 1);
        let layer = range.base_array_layer + n - 1;
        let row = layer_row(states, mip_count, layer, range, req, discard);
        assert forall|i: int| 0 <= i < row.len() implies (#[trigger] row[i]) is None by {
            assert(in_range(range, layer, range.base_mip_level + i));
        }
        lemma_row_runs_empty(texture, layer, range.base_mip_level as int, row);
        assert(texture_barriers(texture, states, mip_count, range, req, discard, n) =~= Seq::<TextureBarrier>::empty());
    }
}

/// Where every subresource of a nonempty range needs a barrier, the access
/// emits at least one.
pub proof fn lemma_barrier_needed(
    texture: InstanceHandle,
    states: Seq<SubresourceState>,
    mip_count: int,
    layer_count: int,
    range: BarrierTextureRange,
    req: SubresourceState,
    discard: bool,
    n: int,
)
    requires
        range_fits(range, mip_count, layer_count),
        0 < n <= range.array_layer_length,
        range.mip_level_length > 0,
        forall|layer: int, mip: int|
            in_range(range, layer, mip) ==> needs_barrier(#[trigger] states[sub_index(mip, mip_count, layer)], req),
    ensures
        texture_barriers(texture, states, mip_count, range, req, discard, n).len() > 0,
{
    let layer = range.base_array_layer + n - 1;
    let row = layer_row(states, mip_count, layer, range, req, discard);
    assert(in_range(range, layer, range.base_mip_level + row.len() - 1));
    lemma_row_runs_nonempty(texture, layer, range.base_mip_level as int, row);
}

/// Barrier `b` covers the subresource at `layer`, `mip`.
pub open spec fn covers(b: TextureBarrier, layer: int, mip: int) -> bool {
    &&& b.range.base_array_layer <= layer < b.range.base_array_layer + b.range.array_layer_length
    &&& b.range.base_mip_level <= mip < b.range.base_mip_level + b.range.mip_level_length
}

/// The transition the subresource at `layer`, `mip` needs, if any.
pub open spec fn pending(
    states: Seq<SubresourceState>,
    mip_count: int,
    layer: int,
    mip: int,
    req: SubresourceState,
    discard: bool,
) -> Option<Transition> {
    let s = states[sub_index(mip, mip_count, layer)];
    if needs_barrier(s, req) {
        Some(transition_for(s, req, discard))
    } else {
        None
    }
}

/// The barriers cover exactly the subresources of layers `lo..hi`, mips
/// `mlo..mhi` that need a transition, each with the transition it needs,
/// and none twice.
pub open spec fn exact_cover(
    bs: Seq<TextureBarrier>,
    states: Seq<SubresourceState>,
    mip_count: int,
    req: SubresourceState,
    discard: bool,
    lo: int,
    hi: int,
    mlo: int,
    mhi: int,
) -> bool {
    &&& forall|i: int, l: int, m: int|
        0 <= i < bs.len() && #[trigger] covers(bs[i], l, m) ==> lo <= l < hi && mlo <= m < mhi && pending(
            states,
            mip_count,
            l,
            m,
            req,
            discard,
        ) == Some(bs[i].transition)
    &&& forall|l: int, m: int|
        lo <= l < hi && mlo <= m < mhi && (#[trigger] pending(states, mip_count, l, m, req, discard)) is Some
            ==> exists|i: int| 0 <= i < bs.len() && #[trigger] covers(bs[i], l, m)
    &&& forall|i: int, j: int, l: int, m: int|
        0 <= i < bs.len() && 0 <= j < bs.len() && i != j && #[trigger] covers(bs[i], l, m) ==> !#[trigger] covers(
            bs[j],
            l,
            m,
        )
}

/// Every barrier covers at least one subresource and targets `texture`.
pub open spec fn nonempty_ranges(bs: Seq<TextureBarrier>, texture: InstanceHandle) -> bool {
    forall|i: int|
        0 <= i < bs.len() ==> (#[trigger] bs[i]).range.mip_level_length >= 1 && bs[i].range.array_layer_length >= 1
            && bs[i].texture == texture
}

proof fn lemma_row_runs_cover(
    texture: InstanceHandle,
    states: Seq<SubresourceState>,
    mip_count: int,
    req: SubresourceState,
    discard: bool,
    layer: int,
    base_mip: int,
    row: Seq<Option<Transition>>,
)
    requires
        0 <= layer <= u32::MAX,
        0 <= base_mip,
        base_mip + row.len() <= u32::MAX,
        forall|i: int| 0 <= i < row.len() ==> #[trigger] row[i] == pending(states, mip_count, layer, base_mip + i, req, discard),
    ensures
        exact_cover(
            row_runs(texture, layer, base_mip, row),
            states,
            mip_count,
            req,
            discard,
            layer,
            layer + 1,
            base_mip,
            base_mip + row.len(),
        ),
        nonempty_ranges(row_runs(texture, layer, base_mip, row), texture),
        forall|i: int|
            0 <= i < row_runs(texture, layer, base_mip, row).len() ==> (#[trigger] row_runs(
                texture,
                layer,
                base_mip,
                row,
            )[i]).range.base_array_layer == layer && row_runs(texture, layer, base_mip, row)[i].range.array_layer_length
                == 1,
    decreases row.len(),
{
    lemma_row_runs_layers(texture, layer, base_mip, row);
    let rr = row_runs(texture, layer, base_mip, row);
    if row.len() > 0 {
        let short = row.drop_last();
        assert forall|i: int| 0 <= i < short.len() implies #[trigger] short[i] == pending(
            states,
            mip_count,
            layer,
            base_mip + i,
            req,
            discard,
        ) by {
            assert(short[i] == row[i]);
        }
        lemma_row_runs_cover(texture, states, mip_count, req, discard, layer, base_mip, short);
        let prev = row_runs(texture, layer, base_mip, short);
        let mip = base_mip + row.len() - 1;
        let hi = base_mip + row.len();
        assert(row.last() == row[row.len() - 1]);
        assert(row[row.len() - 1] == pending(states, mip_count, layer, mip, req, discard));
        match row.last() {
            None => {
                assert(rr == prev);
                assert forall|l: int, m: int|
                    layer <= l < layer + 1 && base_mip <= m < hi && (#[trigger] pending(
                        states,
                        mip_count,
                        l,
                        m,
                        req,
                        discard,
                    )) is Some implies exists|i: int| 0 <= i < rr.len() && #[trigger] covers(rr[i], l, m) by {
                    if m < mip {
                    }
                }
            },
            Some(t) => {
                if prev.len() > 0 && prev.last().transition == t && prev.last().range.base_mip_level
                    + prev.last().range.mip_level_length == mip {
                    let k = prev.len() - 1;
                    assert(prev.last() == prev[k]);
                    let ext = stacked_mip(prev[k]);
                    assert(rr == prev.drop_last().push(ext));
                    assert(rr.len() == prev.len());
                    assert forall|i: int| 0 <= i < k implies #[trigger] rr[i] == prev[i] by {}
                    assert(rr[k] == ext);
                    assert(prev[k].range.base_array_layer == layer && prev[k].range.array_layer_length == 1);
                    assert forall|l: int, m: int| #[trigger] covers(ext, l, m) implies covers(prev[k], l, m) || (l
                        == layer && m == mip) by {}
                    assert forall|i: int| 0 <= i < rr.len() implies (#[trigger] rr[i]).range.mip_level_length >= 1
                        && rr[i].range.array_layer_length >= 1 && rr[i].texture == texture by {
                        if i < k {
                            assert(rr[i] == prev[i]);
                        }
                    }
                    assert forall|i: int, l: int, m: int|
                        0 <= i < rr.len() && #[trigger] covers(rr[i], l, m) implies layer <= l < layer + 1 && base_mip
                        <= m < hi && pending(states, mip_count, l, m, req, discard) == Some(rr[i].transition) by {
                        if i < k {
                            assert(covers(prev[i], l, m));
                        } else if m != mip {
                            assert(covers(prev[k], l, m));
                        }
                    }
                    assert forall|l: int, m: int|
                        layer <= l < layer + 1 && base_mip <= m < hi && (#[trigger] pending(
                            states,
                            mip_count,
                            l,
                            m,
                            req,
                            discard,
                        )) is Some implies exists|i: int| 0 <= i < rr.len() && #[trigger] covers(rr[i], l, m) by {
                        if m < mip {
                            let i0 = choose|i: int| 0 <= i < prev.len() && #[trigger] covers(prev[i], l, m);
                            if i0 < k {
                                assert(covers(rr[i0], l, m));
                            } else {
                                assert(covers(rr[k], l, m));
                            }
                        } else {
                            assert(covers(rr[k], l, m));
                        }
                    }
                    assert forall|a: int, b: int, l: int, m: int|
                        0 <= a < rr.len() && 0 <= b < rr.len() && a != b && #[trigger] covers(rr[a], l, m) implies !#[trigger] covers(
                        rr[b],
                        l,
                        m,
                    ) by {
                        if covers(rr[b], l, m) {
                            if a != k && b != k {
                                assert(covers(prev[a], l, m) && covers(prev[b], l, m));
                            } else if a == k {
                                assert(covers(prev[b], l, m));
                                if m != mip {
                                    assert(covers(prev[k], l, m));
                                }
                            } else {
                                assert(covers(prev[a], l, m));
                                if m != mip {
                                    assert(covers(prev[k], l, m));
                                }
                            }
                        }
                    }
                } else {
                    let nb = TextureBarrier {
                        texture,
                        transition: t,
                        range: BarrierTextureRange {
                            base_mip_level: mip as u32,
                            mip_level_length: 1,
                            base_array_layer: layer as u32,
                            array_layer_length: 1,
                        },
                    };
                    let k = prev.len() as int;
                    assert(rr == prev.push(nb));
                    assert forall|i: int| 0 <= i < k implies #[trigger] rr[i] == prev[i] by {}
                    assert(rr[k] == nb);
                    assert forall|l: int, m: int| #[trigger] covers(nb, l, m) implies l == layer && m == mip by {}
                    assert forall|i: int, l: int, m: int|
                        0 <= i < rr.len() && #[trigger] covers(rr[i], l, m) implies layer <= l < layer + 1 && base_mip
                        <= m < hi && pending(states, mip_count, l, m, req, discard) == Some(rr[i].transition) by {
                        if i < k {
                            assert(covers(prev[i], l, m));
                        }
                    }
                    assert forall|l: int, m: int|
                        layer <= l < layer + 1 && base_mip <= m < hi && (#[trigger] pending(
                            states,
                            mip_count,
                            l,
                            m,
                            req,
                            discard,
                        )) is Some implies exists|i: int| 0 <= i < rr.len() && #[trigger] covers(rr[i], l, m) by {
                        if m < mip {
                            let i0 = choose|i: int| 0 <= i < prev.len() && #[trigger] covers(prev[i], l, m);
                            assert(covers(rr[i0], l, m));
                        } else {
                            assert(covers(rr[k], l, m));
                        }
                    }
                    assert forall|a: int, b: int, l: int, m: int|
                        0 <= a < rr.len() && 0 <= b < rr.len() && a != b && #[trigger] covers(rr[a], l, m) implies !#[trigger] covers(
                        rr[b],
                        l,
                        m,
                    ) by {
                        if covers(rr[b], l, m) {
                            if a != k && b != k {
                                assert(covers(prev[a], l, m) && covers(prev[b], l, m));
                            } else if a == k {
                                assert(covers(prev[b], l, m));
                            } else {
                                assert(covers(prev[a], l, m));
                            }
                        }
                    }
                }
            },
        }
    }
}

/// `p` grown by one mip level.
pub open spec fn stacked_mip(p: TextureBarrier) -> TextureBarrier {
    TextureBarrier {
        range: BarrierTextureRange { mip_level_length: (p.range.mip_level_length + 1) as u32, ..p.range },
        ..p
    }
}

proof fn lemma_texture_barriers_cover(
    texture: InstanceHandle,
    states: Seq<SubresourceState>,
    mip_count: int,
    layer_count: int,
    range: BarrierTextureRange,
    req: SubresourceState,
    discard: bool,
    n: int,
)
    requires
        range_fits(range, mip_count, layer_count),
        mip_count <= u32::MAX,
        layer_count <= u32::MAX,
        0 <= n <= range.array_layer_length,
    ensures
        exact_cover(
            texture_barriers(texture, states, mip_count, range, req, discard, n),
            states,
            mip_count,
            req,
            discard,
            range.base_array_layer as int,
            range.base_array_layer + n,
            range.base_mip_level as int,
            range.base_mip_level + range.mip_level_length,
        ),
        nonempty_ranges(texture_barriers(texture, states, mip_count, range, req, discard, n), texture),
    decreases n,
{
    if n > 0 {
        lemma_texture_barriers_cover(texture, states, mip_count, layer_count, range, req, discard, n - 1);
        let layer = range.base_array_layer + n - 1;
        let row = layer_row(states, mip_count, layer, range, req, discard);
        assert forall|i: int| 0 <= i < row.len() implies #[trigger] row[i] == pending(
            states,
            mip_count,
            layer,
            range.base_mip_level + i,
            req,
            discard,
        ) by {}
        lemma_row_runs_cover(texture, states, mip_count, req, discard, layer, range.base_mip_level as int, row);
        let a = texture_barriers(texture, states, mip_count, range, req, discard, n - 1);
        let b = row_runs(texture, layer, range.base_mip_level as int, row);
        let c = a + b;
        let lo = range.base_array_layer as int;
        let mlo = range.base_mip_level as int;
        let mhi = range.base_mip_level + range.mip_level_length;
        assert(texture_barriers(texture, states, mip_count, range, req, discard, n) == c);
        assert forall|i: int| 0 <= i < c.len() implies #[trigger] c[i] == if i < a.len() {
            a[i]
        } else {
            b[i - a.len()]
        } by {}
        assert forall|i: int, l: int, m: int|
            0 <= i < c.len() && #[trigger] covers(c[i], l, m) implies lo <= l < layer + 1 && mlo <= m < mhi && pending(
            states,
            mip_count,
            l,
            m,
            req,
            discard,
        ) == Some(c[i].transition) by {
            if i < a.len() {
                assert(covers(a[i], l, m));
            } else {
                assert(covers(b[i - a.len()], l, m));
            }
        }
        assert forall|l: int, m: int|
            lo <= l < layer + 1 && mlo <= m < mhi && (#[trigger] pending(states, mip_count, l, m, req, discard)) is Some
                implies exists|i: int| 0 <= i < c.len() && #[trigger] covers(c[i], l, m) by {
            if l < layer {
                let i0 = choose|i: int| 0 <= i < a.len() && #[trigger] covers(a[i], l, m);
                assert(covers(c[i0], l, m));
            } else {
                let i0 = choose|i: int| 0 <= i < b.len() && #[trigger] covers(b[i], l, m);
                assert(covers(c[i0 + a.len()], l, m));
            }
        }
        assert forall|x: int, y: int, l: int, m: int|
            0 <= x < c.len() && 0 <= y < c.len() && x != y && #[trigger] covers(c[x], l, m) implies !#[trigger] covers(
            c[y],
            l,
            m,
        ) by {
            if covers(c[y], l, m) {
                if x < a.len() && y < a.len() {
                    assert(covers(a[x], l, m) && covers(a[y], l, m));
                } else if x >= a.len() && y >= a.len() {
                    assert(covers(b[x - a.len()], l, m) && covers(b[y - a.len()], l, m));
                } else if x < a.len() {
                    assert(covers(a[x], l, m));
                    assert(covers(b[y - a.len()], l, m));
                } else {
                    assert(covers(a[y], l, m));
                    assert(covers(b[x - a.len()], l, m));
                }
            }
        }
        assert forall|i: int| 0 <= i < c.len() implies (#[trigger] c[i]).range.mip_level_length >= 1
            && c[i].range.array_layer_length >= 1 && c[i].texture == texture by {
            if i < a.len() {
                assert(a[i] == c[i]);
            } else {
                assert(b[i - a.len()] == c[i]);
            }
        }
    }
}

/// What merging keeps: each merged barrier covers only what some barrier
/// it was made of covered, with that barrier's transition; all that any of
/// them covered stays covered; disjoint barriers stay disjoint.
pub open spec fn merge_keeps(bs: Seq<TextureBarrier>, ms: Seq<TextureBarrier>) -> bool {
    &&& forall|i: int, l: int, m: int|
        0 <= i < ms.len() && #[trigger] covers(ms[i], l, m) ==> exists|j: int|
            0 <= j < bs.len() && #[trigger] covers(bs[j], l, m) && bs[j].transition == ms[i].transition
    &&& forall|j: int, l: int, m: int|
        0 <= j < bs.len() && #[trigger] covers(bs[j], l, m) ==> exists|i: int| 0 <= i < ms.len() && #[trigger] covers(ms[i], l, m)
}

pub open spec fn disjoint(bs: Seq<TextureBarrier>) -> bool {
    forall|i: int, j: int, l: int, m: int|
        0 <= i < bs.len() && 0 <= j < bs.len() && i != j && #[trigger] covers(bs[i], l, m) ==> !#[trigger] covers(bs[j], l, m)
}

proof fn lemma_merge_cover(bs: Seq<TextureBarrier>, texture: InstanceHandle, layer_count: int)
    requires
        disjoint(bs),
        nonempty_ranges(bs, texture),
        layers_within(bs, layer_count),
        layer_count <= u32::MAX,
    ensures
        merge_keeps(bs, merge_layers(bs)),
        disjoint(merge_layers(bs)),
        nonempty_ranges(merge_layers(bs), texture),
    decreases bs.len(),
{
    let ms = merge_layers(bs);
    if bs.len() > 0 {
        let bs2 = bs.drop_last();
        let b = bs.last();
        let last = bs.len() - 1;
        assert(b == bs[last]);
        assert forall|i: int| 0 <= i < bs2.len() implies #[trigger] bs2[i] == bs[i] by {}
        assert(disjoint(bs2)) by {
            assert forall|i: int, j: int, l: int, m: int|
                0 <= i < bs2.len() && 0 <= j < bs2.len() && i != j && #[trigger] covers(bs2[i], l, m) implies !#[trigger] covers(bs2[j], l, m) by {
                assert(covers(bs[i], l, m));
            }
        }
        assert(layers_within(bs2, layer_count)) by {
            assert forall|i: int| 0 <= i < bs2.len() implies (#[trigger] bs2[i]).range.base_array_layer
                + bs2[i].range.array_layer_length <= layer_count by {
                assert(bs2[i] == bs[i]);
            }
        }
        lemma_merge_cover(bs2, texture, layer_count);
        let prev = merge_layers(bs2);
        lemma_stack_target(prev, b);
        let t = stack_target(prev, b);
        // Whatever a barrier of `prev` covers comes from one of the first barriers.
        assert forall|i: int, l: int, m: int|
            0 <= i < prev.len() && #[trigger] covers(prev[i], l, m) implies !covers(b, l, m) by {
            let j = choose|j: int| 0 <= j < bs2.len() && #[trigger] covers(bs2[j], l, m) && bs2[j].transition == prev[i].transition;
            assert(covers(bs[j], l, m));
        }
        if t >= 0 {
            let p = prev[t];
            let sp = stacked(p, b);
            assert(ms == prev.update(t, sp));
            assert(b.range.base_array_layer + b.range.array_layer_length <= layer_count);
            assert forall|l: int, m: int| #[trigger] covers(sp, l, m) <==> (covers(p, l, m) || covers(b, l, m)) by {}
            assert forall|i: int| 0 <= i < ms.len() implies #[trigger] ms[i] == if i == t {
                sp
            } else {
                prev[i]
            } by {}
            assert forall|i: int, l: int, m: int|
                0 <= i < ms.len() && #[trigger] covers(ms[i], l, m) implies exists|j: int|
                    0 <= j < bs.len() && #[trigger] covers(bs[j], l, m) && bs[j].transition == ms[i].transition by {
                if i == t && covers(b, l, m) {
                    assert(covers(bs[last], l, m));
                } else {
                    assert(covers(prev[i], l, m));
                    let j = choose|j: int| 0 <= j < bs2.len() && #[trigger] covers(bs2[j], l, m) && bs2[j].transition == prev[i].transition;
                    assert(covers(bs[j], l, m));
                }
            }
            assert forall|j: int, l: int, m: int|
                0 <= j < bs.len() && #[trigger] covers(bs[j], l, m) implies exists|i: int| 0 <= i < ms.len() && #[trigger] covers(ms[i], l, m) by {
                if j == last {
                    assert(covers(ms[t], l, m));
                } else {
                    assert(covers(bs2[j], l, m));
                    let i = choose|i: int| 0 <= i < prev.len() && #[trigger] covers(prev[i], l, m);
                    assert(covers(ms[i], l, m));
                }
            }
            assert forall|x: int, y: int, l: int, m: int|
                0 <= x < ms.len() && 0 <= y < ms.len() && x != y && #[trigger] covers(ms[x], l, m) implies !#[trigger] covers(ms[y], l, m) by {
                if covers(ms[y], l, m) {
                    if x != t && y != t {
                        assert(covers(prev[x], l, m) && covers(prev[y], l, m));
                    } else if x == t {
                        assert(covers(prev[y], l, m));
                        if !covers(b, l, m) {
                            assert(covers(prev[t], l, m));
                        }
                    } else {
                        assert(covers(prev[x], l, m));
                        if !covers(b, l, m) {
                            assert(covers(prev[t], l, m));
                        }
                    }
                }
            }
            assert forall|i: int| 0 <= i < ms.len() implies (#[trigger] ms[i]).range.mip_level_length >= 1
                && ms[i].range.array_layer_length >= 1 && ms[i].texture == texture by {
                assert(prev[i].range.mip_level_length >= 1);
            }
        } else {
            assert(ms == prev.push(b));
            assert forall|i: int| 0 <= i < prev.len() implies #[trigger] ms[i] == prev[i] by {}
            assert(ms[prev.len() as int] == b);
            assert forall|i: int, l: int, m: int|
                0 <= i < ms.len() && #[trigger] covers(ms[i], l, m) implies exists|j: int|
                    0 <= j < bs.len() && #[trigger] covers(bs[j], l, m) && bs[j].transition == ms[i].transition by {
                if i == prev.len() {
                    assert(covers(bs[last], l, m));
                } else {
                    assert(covers(prev[i], l, m));
                    let j = choose|j: int| 0 <= j < bs2.len() && #[trigger] covers(bs2[j], l, m) && bs2[j].transition == prev[i].transition;
                    assert(covers(bs[j], l, m));
                }
            }
            assert forall|j: int, l: int, m: int|
                0 <= j < bs.len() && #[trigger] covers(bs[j], l, m) implies exists|i: int| 0 <= i < ms.len() && #[trigger] covers(ms[i], l, m) by {
                if j == last {
                    assert(covers(ms[prev.len() as int], l, m));
                } else {
                    assert(covers(bs2[j], l, m));
                    let i = choose|i: int| 0 <= i < prev.len() && #[trigger] covers(prev[i], l, m);
                    assert(covers(ms[i], l, m));
                }
            }
            assert forall|x: int, y: int, l: int, m: int|
                0 <= x < ms.len() && 0 <= y < ms.len() && x != y && #[trigger] covers(ms[x], l, m) implies !#[trigger] covers(ms[y], l, m) by {
                if covers(ms[y], l, m) {
                    if x < prev.len() && y < prev.len() {
                        assert(covers(prev[x], l, m) && covers(prev[y], l, m));
                    } else if x < prev.len() {
                        assert(covers(prev[x], l, m));
                    } else {
                        assert(covers(prev[y], l, m));
                    }
                }
            }
            assert forall|i: int| 0 <= i < ms.len() implies (#[trigger] ms[i]).range.mip_level_length >= 1
                && ms[i].range.array_layer_length >= 1 && ms[i].texture == texture by {
                if i < prev.len() {
                    assert(prev[i].range.mip_level_length >= 1);
                }
            }
        }
    }
}

/// The barriers an access emits cover exactly the subresources of its
/// range that need one, each with the transition it needs, and none twice.
pub proof fn lemma_access_barriers_exact(
    texture: InstanceHandle,
    states: Seq<SubresourceState>,
    mip_count: int,
    layer_count: int,
    range: BarrierTextureRange,
    req: SubresourceState,
    discard: bool,
)
    requires
        range_fits(range, mip_count, layer_count),
        mip_count <= u32::MAX,
        layer_count <= u32::MAX,
    ensures
        exact_cover(
            merge_layers(texture_barriers(texture, states, mip_count, range, req, discard, range.array_layer_length as int)),
            states,
            mip_count,
            req,
            discard,
            range.base_array_layer as int,
            range.base_array_layer + range.array_layer_length,
            range.base_mip_level as int,
            range.base_mip_level + range.mip_level_length,
        ),
        none_mergeable(
            merge_layers(texture_barriers(texture, states, mip_count, range, req, discard, range.array_layer_length as int)),
        ),
{
    let n = range.array_layer_length as int;
    let tb = texture_barriers(texture, states, mip_count, range, req, discard, n);
    lemma_texture_barriers_sorted(texture, states, mip_count, layer_count, range, req, discard, n);
    lemma_texture_barriers_maximal(texture, states, mip_count, layer_count, range, req, discard, n);
    lemma_texture_barriers_cover(texture, states, mip_count, layer_count, range, req, discard, n);
    lemma_texture_barriers_layers(texture, states, mip_count, layer_count, range, req, discard, n);
    assert(layers_within(tb, layer_count));
    lemma_merge_cover(tb, texture, layer_count);
    let ms = merge_layers(tb);
    let lo = range.base_array_layer as int;
    let hi = range.base_array_layer + range.array_layer_length;
    let mlo = range.base_mip_level as int;
    let mhi = range.base_mip_level + range.mip_level_length;
    assert forall|i: int, l: int, m: int|
        0 <= i < ms.len() && #[trigger] covers(ms[i], l, m) implies lo <= l < hi && mlo <= m < mhi && pending(
        states,
        mip_count,
        l,
        m,
        req,
        discard,
    ) == Some(ms[i].transition) by {
        let j = choose|j: int| 0 <= j < tb.len() && #[trigger] covers(tb[j], l, m) && tb[j].transition == ms[i].transition;
    }
    assert forall|l: int, m: int|
        lo <= l < hi && mlo <= m < mhi && (#[trigger] pending(states, mip_count, l, m, req, discard)) is Some
            implies exists|i: int| 0 <= i < ms.len() && #[trigger] covers(ms[i], l, m) by {
        let j = choose|j: int| 0 <= j < tb.len() && #[trigger] covers(tb[j], l, m);
    }
    lemma_merge_unstacked(tb, texture, layer_count);
    lemma_merge_maximal(tb, states, mip_count, req, discard, mlo, mhi, layer_count);
    assert forall|i: int, j: int| 0 <= i < ms.len() && 0 <= j < ms.len() implies !side_by_side(#[trigger] ms[i], #[trigger] ms[j]) by {
        if side_by_side(ms[i], ms[j]) {
            let l = ms[i].range.base_array_layer as int;
            let e = ms[i].range.base_mip_level + ms[i].range.mip_level_length;
            assert(max_run(states, mip_count, req, discard, mlo, mhi, l,
                ms[i].range.base_mip_level as int, e, ms[i].transition));
            assert(covers(ms[j], l, e));
        }
    }
}

/// The barriers come layer by layer: none starts at a layer before the
/// one of a barrier ahead of it.
pub open spec fn layers_sorted(bs: Seq<TextureBarrier>) -> bool {
    forall|i: int, j: int| 0 <= i <= j < bs.len() ==> (#[trigger] bs[i]).range.base_array_layer <= (#[trigger] bs[j]).range.base_array_layer
}

/// No barrier covers the same mip levels with the same transition in the
/// layers right after another: no two of them can be merged into one taller
/// range.
pub open spec fn none_stacked(bs: Seq<TextureBarrier>) -> bool {
    forall|i: int, j: int| 0 <= i < bs.len() && 0 <= j < bs.len() && i != j ==> !stacks_on(#[trigger] bs[i], #[trigger] bs[j])
}

proof fn lemma_texture_barriers_sorted(
    texture: InstanceHandle,
    states: Seq<SubresourceState>,
    mip_count: int,
    layer_count: int,
    range: BarrierTextureRange,
    req: SubresourceState,
    discard: bool,
    n: int,
)
    requires
        range_fits(range, mip_count, layer_count),
        mip_count <= u32::MAX,
        layer_count <= u32::MAX,
        0 <= n <= range.array_layer_length,
    ensures
        layers_sorted(texture_barriers(texture, states, mip_count, range, req, discard, n)),
        forall|i: int|
            0 <= i < texture_barriers(texture, states, mip_count, range, req, discard, n).len() ==> (#[trigger] texture_barriers(
                texture,
                states,
                mip_count,
                range,
                req,
                discard,
                n,
            )[i]).range.base_array_layer < range.base_array_layer + n,
    decreases n,
{
    if n > 0 {
        lemma_texture_barriers_sorted(texture, states, mip_count, layer_count, range, req, discard, n - 1);
        let layer = range.base_array_layer + n - 1;
        let row = layer_row(states, mip_count, layer, range, req, discard);
        lemma_row_runs_layers(texture, layer, range.base_mip_level as int, row);
        let a = texture_barriers(texture, states, mip_count, range, req, discard, n - 1);
        let b = row_runs(texture, layer, range.base_mip_level as int, row);
        let c = a + b;
        assert(texture_barriers(texture, states, mip_count, range, req, discard, n) == c);
        assert forall|i: int| 0 <= i < c.len() implies #[trigger] c[i] == if i < a.len() {
            a[i]
        } else {
            b[i - a.len()]
        } by {}
        assert forall|i: int| 0 <= i < c.len() implies (#[trigger] c[i]).range.base_array_layer < range.base_array_layer + n by {
            if i >= a.len() {
                assert(b[i - a.len()].range.base_array_layer == layer);
            }
        }
        assert forall|i: int, j: int| 0 <= i <= j < c.len() implies (#[trigger] c[i]).range.base_array_layer <= (#[trigger] c[j]).range.base_array_layer by {
            if j < a.len() {
                assert(a[i].range.base_array_layer <= a[j].range.base_array_layer);
            } else if i >= a.len() {
                assert(b[i - a.len()].range.base_array_layer == layer);
                assert(b[j - a.len()].range.base_array_layer == layer);
            } else {
                assert(a[i].range.base_array_layer < layer);
                assert(b[j - a.len()].range.base_array_layer == layer);
            }
        }
    }
}

proof fn lemma_merge_unstacked(bs: Seq<TextureBarrier>, texture: InstanceHandle, layer_count: int)
    requires
        layers_sorted(bs),
        nonempty_ranges(bs, texture),
        layers_within(bs, layer_count),
        layer_count <= u32::MAX,
    ensures
        none_stacked(merge_layers(bs)),
        bs.len() > 0 ==> forall|i: int|
            0 <= i < merge_layers(bs).len() ==> (#[trigger] merge_layers(bs)[i]).range.base_array_layer
                <= bs.last().range.base_array_layer,
    decreases bs.len(),
{
    let ms = merge_layers(bs);
    if bs.len() > 0 {
        let bs2 = bs.drop_last();
        let b = bs.last();
        let last = bs.len() - 1;
        assert(b == bs[last]);
        assert forall|i: int| 0 <= i < bs2.len() implies #[trigger] bs2[i] == bs[i] by {}
        assert(layers_sorted(bs2)) by {
            assert forall|i: int, j: int| 0 <= i <= j < bs2.len() implies (#[trigger] bs2[i]).range.base_array_layer <= (#[trigger] bs2[j]).range.base_array_layer by {
                assert(bs[i].range.base_array_layer <= bs[j].range.base_array_layer);
            }
        }
        assert(nonempty_ranges(bs2, texture)) by {
            assert forall|i: int| 0 <= i < bs2.len() implies (#[trigger] bs2[i]).range.mip_level_length >= 1
                && bs2[i].range.array_layer_length >= 1 && bs2[i].texture == texture by {
                assert(bs2[i] == bs[i]);
            }
        }
        assert(layers_within(bs2, layer_count)) by {
            assert forall|i: int| 0 <= i < bs2.len() implies (#[trigger] bs2[i]).range.base_array_layer
                + bs2[i].range.array_layer_length <= layer_count by {
                assert(bs2[i] == bs[i]);
            }
        }
        lemma_merge_unstacked(bs2, texture, layer_count);
        let prev = merge_layers(bs2);
        lemma_stack_target(prev, b);
        let t = stack_target(prev, b);
        assert(b.range.array_layer_length >= 1);
        // Every barrier kept so far starts at or before the layer of `b`.
        assert forall|i: int| 0 <= i < prev.len() implies (#[trigger] prev[i]).range.base_array_layer <= b.range.base_array_layer by {
            assert(bs[last - 1].range.base_array_layer <= bs[last].range.base_array_layer);
        }
        if t >= 0 {
            let p = prev[t];
            let sp = stacked(p, b);
            assert(b.range.base_array_layer + b.range.array_layer_length <= layer_count);
            assert(ms == prev.update(t, sp));
            assert forall|i: int| 0 <= i < ms.len() implies #[trigger] ms[i] == if i == t {
                sp
            } else {
                prev[i]
            } by {}
            assert forall|i: int, j: int| 0 <= i < ms.len() && 0 <= j < ms.len() && i != j implies !stacks_on(#[trigger] ms[i], #[trigger] ms[j]) by {
                if i == t {
                    // `ms[j]` would have to start after the layer of `b`.
                } else if j == t {
                    if stacks_on(ms[i], ms[j]) {
                        assert(stacks_on(prev[i], prev[t]));
                    }
                } else {
                    assert(!stacks_on(prev[i], prev[j]));
                }
            }
        } else {
            assert(ms == prev.push(b));
            assert forall|i: int| 0 <= i < prev.len() implies #[trigger] ms[i] == prev[i] by {}
            assert(ms[prev.len() as int] == b);
            assert forall|i: int, j: int| 0 <= i < ms.len() && 0 <= j < ms.len() && i != j implies !stacks_on(#[trigger] ms[i], #[trigger] ms[j]) by {
                if i < prev.len() && j < prev.len() {
                    assert(!stacks_on(prev[i], prev[j]));
                } else if i < prev.len() {
                    assert(!stacks_on(prev[i], b));
                }
            }
        }
    }
}

/// Mips `a..b` of layer `l` form a maximal run of transition `t` within
/// mips `mlo..mhi`: the mips just outside, where there are any, need
/// another transition or none.
pub open spec fn max_run(
    states: Seq<SubresourceState>,
    mip_count: int,
    req: SubresourceState,
    discard: bool,
    mlo: int,
    mhi: int,
    l: int,
    a: int,
    b: int,
    t: Transition,
) -> bool {
    &&& (a == mlo || pending(states, mip_count, l, a - 1, req, discard) != Some(t))
    &&& (b == mhi || pending(states, mip_count, l, b, req, discard) != Some(t))
}

/// Each layer of each barrier holds a maximal run of its transition.
pub open spec fn runs_maximal(
    bs: Seq<TextureBarrier>,
    states: Seq<SubresourceState>,
    mip_count: int,
    req: SubresourceState,
    discard: bool,
    mlo: int,
    mhi: int,
) -> bool {
    forall|i: int, l: int|
        0 <= i < bs.len() && bs[i].range.base_array_layer <= l < bs[i].range.base_array_layer
            + bs[i].range.array_layer_length ==> #[trigger] max_run(
            states,
            mip_count,
            req,
            discard,
            mlo,
            mhi,
            l,
            bs[i].range.base_mip_level as int,
            bs[i].range.base_mip_level + bs[i].range.mip_level_length,
            bs[i].transition,
        )
}

proof fn lemma_row_runs_maximal(
    texture: InstanceHandle,
    states: Seq<SubresourceState>,
    mip_count: int,
    req: SubresourceState,
    discard: bool,
    layer: int,
    base_mip: int,
    row: Seq<Option<Transition>>,
)
    requires
        0 <= layer <= u32::MAX,
        0 <= base_mip,
        base_mip + row.len() <= u32::MAX,
        forall|i: int| 0 <= i < row.len() ==> #[trigger] row[i] == pending(states, mip_count, layer, base_mip + i, req, discard),
    ensures
        runs_maximal(row_runs(texture, layer, base_mip, row), states, mip_count, req, discard, base_mip, base_mip + row.len()),
        row.len() > 0 && row.last() is Some ==> {
            let rr = row_runs(texture, layer, base_mip, row);
            &&& rr.len() > 0
            &&& rr.last().range.base_mip_level + rr.last().range.mip_level_length == base_mip + row.len()
            &&& Some(rr.last().transition) == row.last()
        },
    decreases row.len(),
{
    lemma_row_runs_cover(texture, states, mip_count, req, discard, layer, base_mip, row);
    lemma_row_runs_layers(texture, layer, base_mip, row);
    let rr = row_runs(texture, layer, base_mip, row);
    if row.len() > 0 {
        let short = row.drop_last();
        assert forall|i: int| 0 <= i < short.len() implies #[trigger] short[i] == pending(
            states,
            mip_count,
            layer,
            base_mip + i,
            req,
            discard,
        ) by {
            assert(short[i] == row[i]);
        }
        lemma_row_runs_maximal(texture, states, mip_count, req, discard, layer, base_mip, short);
        lemma_row_runs_cover(texture, states, mip_count, req, discard, layer, base_mip, short);
        lemma_row_runs_layers(texture, layer, base_mip, short);
        let prev = row_runs(texture, layer, base_mip, short);
        let mip = base_mip + row.len() - 1;
        let hi = base_mip + row.len();
        assert(row.last() == row[row.len() - 1]);
        assert(row[row.len() - 1] == pending(states, mip_count, layer, mip, req, discard));
        if short.len() > 0 {
            assert(short.last() == short[short.len() - 1]);
            assert(short[short.len() - 1] == pending(states, mip_count, layer, mip - 1, req, discard));
        }
        // Only the last run of `prev` can end at `mip`.
        assert forall|i: int| 0 <= i < prev.len() - 1 implies (#[trigger] prev[i]).range.base_mip_level
            + prev[i].range.mip_level_length != mip by {
            if prev[i].range.base_mip_level + prev[i].range.mip_level_length == mip {
                assert(covers(prev[i], layer, mip - 1));
                assert(pending(states, mip_count, layer, mip - 1, req, discard) is Some);
                let k = prev.len() - 1;
                assert(prev.last() == prev[k]);
                assert(covers(prev[k], layer, mip - 1));
            }
        }
        match row.last() {
            None => {
                assert(rr == prev);
                assert forall|i: int, l: int|
                    0 <= i < rr.len() && rr[i].range.base_array_layer <= l < rr[i].range.base_array_layer
                        + rr[i].range.array_layer_length implies #[trigger] max_run(
                        states,
                        mip_count,
                        req,
                        discard,
                        base_mip,
                        hi,
                        l,
                        rr[i].range.base_mip_level as int,
                        rr[i].range.base_mip_level + rr[i].range.mip_level_length,
                        rr[i].transition,
                    ) by {
                    assert(max_run(states, mip_count, req, discard, base_mip, mip, l,
                        prev[i].range.base_mip_level as int, prev[i].range.base_mip_level + prev[i].range.mip_level_length,
                        prev[i].transition));
                }
            },
            Some(t) => {
                if prev.len() > 0 && prev.last().transition == t && prev.last().range.base_mip_level
                    + prev.last().range.mip_level_length == mip {
                    let k = prev.len() - 1;
                    assert(prev.last() == prev[k]);
                    let ext = stacked_mip(prev[k]);
                    assert(rr == prev.drop_last().push(ext));
                    assert(rr[k] == ext);
                    assert forall|i: int, l: int|
                        0 <= i < rr.len() && rr[i].range.base_array_layer <= l < rr[i].range.base_array_layer
                            + rr[i].range.array_layer_length implies #[trigger] max_run(
                            states,
                            mip_count,
                            req,
                            discard,
                            base_mip,
                            hi,
                            l,
                            rr[i].range.base_mip_level as int,
                            rr[i].range.base_mip_level + rr[i].range.mip_level_length,
                            rr[i].transition,
                        ) by {
                        assert(max_run(states, mip_count, req, discard, base_mip, mip, l,
                            prev[i].range.base_mip_level as int, prev[i].range.base_mip_level + prev[i].range.mip_level_length,
                            prev[i].transition));
                        if i < k {
                            assert(rr[i] == prev[i]);
                        }
                    }
                } else {
                    let nb = TextureBarrier {
                        texture,
                        transition: t,
                        range: BarrierTextureRange {
                            base_mip_level: mip as u32,
                            mip_level_length: 1,
                            base_array_layer: layer as u32,
                            array_layer_length: 1,
                        },
                    };
                    let k = prev.len() as int;
                    assert(rr == prev.push(nb));
                    assert(rr[k] == nb);
                    if mip > base_mip && pending(states, mip_count, layer, mip - 1, req, discard) == Some(t) {
                        assert(short.len() > 0 && short.last() is Some);
                        assert(prev.last() == prev[prev.len() - 1]);
                    }
                    assert forall|i: int, l: int|
                        0 <= i < rr.len() && rr[i].range.base_array_layer <= l < rr[i].range.base_array_layer
                            + rr[i].range.array_layer_length implies #[trigger] max_run(
                            states,
                            mip_count,
                            req,
                            discard,
                            base_mip,
                            hi,
                            l,
                            rr[i].range.base_mip_level as int,
                            rr[i].range.base_mip_level + rr[i].range.mip_level_length,
                            rr[i].transition,
                        ) by {
                        if i < k {
                            assert(rr[i] == prev[i]);
                            assert(max_run(states, mip_count, req, discard, base_mip, mip, l,
                                prev[i].range.base_mip_level as int, prev[i].range.base_mip_level + prev[i].range.mip_level_length,
                                prev[i].transition));
                            if i == k - 1 {
                                assert(prev.last() == prev[i]);
                            }
                        }
                    }
                }
            },
        }
    }
}

proof fn lemma_texture_barriers_maximal(
    texture: InstanceHandle,
    states: Seq<SubresourceState>,
    mip_count: int,
    layer_count: int,
    range: BarrierTextureRange,
    req: SubresourceState,
    discard: bool,
    n: int,
)
    requires
        range_fits(range, mip_count, layer_count),
        mip_count <= u32::MAX,
        layer_count <= u32::MAX,
        0 <= n <= range.array_layer_length,
    ensures
        runs_maximal(
            texture_barriers(texture, states, mip_count, range, req, discard, n),
            states,
            mip_count,
            req,
            discard,
            range.base_mip_level as int,
            range.base_mip_level + range.mip_level_length,
        ),
    decreases n,
{
    if n > 0 {
        lemma_texture_barriers_maximal(texture, states, mip_count, layer_count, range, req, discard, n - 1);
        let layer = range.base_array_layer + n - 1;
        let row = layer_row(states, mip_count, layer, range, req, discard);
        assert forall|i: int| 0 <= i < row.len() implies #[trigger] row[i] == pending(
            states,
            mip_count,
            layer,
            range.base_mip_level + i,
            req,
            discard,
        ) by {}
        lemma_row_runs_maximal(texture, states, mip_count, req, discard, layer, range.base_mip_level as int, row);
        let a = texture_barriers(texture, states, mip_count, range, req, discard, n - 1);
        let b = row_runs(texture, layer, range.base_mip_level as int, row);
        let c = a + b;
        let mlo = range.base_mip_level as int;
        let mhi = range.base_mip_level + range.mip_level_length;
        assert(texture_barriers(texture, states, mip_count, range, req, discard, n) == c);
        assert forall|i: int, l: int|
            0 <= i < c.len() && c[i].range.base_array_layer <= l < c[i].range.base_array_layer
                + c[i].range.array_layer_length implies #[trigger] max_run(
                states,
                mip_count,
                req,
                discard,
                mlo,
                mhi,
                l,
                c[i].range.base_mip_level as int,
                c[i].range.base_mip_level + c[i].range.mip_level_length,
                c[i].transition,
            ) by {
            if i < a.len() {
                assert(c[i] == a[i]);
            } else {
                assert(c[i] == b[i - a.len()]);
            }
        }
    }
}

proof fn lemma_merge_maximal(
    bs: Seq<TextureBarrier>,
    states: Seq<SubresourceState>,
    mip_count: int,
    req: SubresourceState,
    discard: bool,
    mlo: int,
    mhi: int,
    layer_count: int,
)
    requires
        runs_maximal(bs, states, mip_count, req, discard, mlo, mhi),
        layers_within(bs, layer_count),
        layer_count <= u32::MAX,
    ensures
        runs_maximal(merge_layers(bs), states, mip_count, req, discard, mlo, mhi),
    decreases bs.len(),
{
    let ms = merge_layers(bs);
    if bs.len() > 0 {
        let bs2 = bs.drop_last();
        let b = bs.last();
        let last = bs.len() - 1;
        assert(b == bs[last]);
        assert forall|i: int| 0 <= i < bs2.len() implies #[trigger] bs2[i] == bs[i] by {}
        assert(runs_maximal(bs2, states, mip_count, req, discard, mlo, mhi)) by {
            assert forall|i: int, l: int|
                0 <= i < bs2.len() && bs2[i].range.base_array_layer <= l < bs2[i].range.base_array_layer
                    + bs2[i].range.array_layer_length implies #[trigger] max_run(
                    states,
                    mip_count,
                    req,
                    discard,
                    mlo,
                    mhi,
                    l,
                    bs2[i].range.base_mip_level as int,
                    bs2[i].range.base_mip_level + bs2[i].range.mip_level_length,
                    bs2[i].transition,
                ) by {
                assert(bs2[i] == bs[i]);
            }
        }
        assert(layers_within(bs2, layer_count)) by {
            assert forall|i: int| 0 <= i < bs2.len() implies (#[trigger] bs2[i]).range.base_array_layer
                + bs2[i].range.array_layer_length <= layer_count by {
                assert(bs2[i] == bs[i]);
            }
        }
        lemma_merge_maximal(bs2, states, mip_count, req, discard, mlo, mhi, layer_count);
        let prev = merge_layers(bs2);
        lemma_stack_target(prev, b);
        let t = stack_target(prev, b);
        assert(b.range.base_array_layer + b.range.array_layer_length <= layer_count);
        if t >= 0 {
            let p = prev[t];
            let sp = stacked(p, b);
            assert(ms == prev.update(t, sp));
            assert forall|i: int, l: int|
                0 <= i < ms.len() && ms[i].range.base_array_layer <= l < ms[i].range.base_array_layer
                    + ms[i].range.array_layer_length implies #[trigger] max_run(
                    states,
                    mip_count,
                    req,
                    discard,
                    mlo,
                    mhi,
                    l,
                    ms[i].range.base_mip_level as int,
                    ms[i].range.base_mip_level + ms[i].range.mip_level_length,
                    ms[i].transition,
                ) by {
                if i == t {
                    assert(ms[i] == sp);
                    if l < p.range.base_array_layer + p.range.array_layer_length {
                        assert(max_run(states, mip_count, req, discard, mlo, mhi, l,
                            p.range.base_mip_level as int, p.range.base_mip_level + p.range.mip_level_length, p.transition));
                    } else {
                        assert(max_run(states, mip_count, req, discard, mlo, mhi, l,
                            b.range.base_mip_level as int, b.range.base_mip_level + b.range.mip_level_length, b.transition));
                    }
                } else {
                    assert(ms[i] == prev[i]);
                }
            }
        } else {
            assert(ms == prev.push(b));
            assert forall|i: int, l: int|
                0 <= i < ms.len() && ms[i].range.base_array_layer <= l < ms[i].range.base_array_layer
                    + ms[i].range.array_layer_length implies #[trigger] max_run(
                    states,
                    mip_count,
                    req,
                    discard,
                    mlo,
                    mhi,
                    l,
                    ms[i].range.base_mip_level as int,
                    ms[i].range.base_mip_level + ms[i].range.mip_level_length,
                    ms[i].transition,
                ) by {
                if i < prev.len() {
                    assert(ms[i] == prev[i]);
                } else {
                    assert(ms[i] == bs[last]);
                }
            }
        }
    }
}

/// Barrier `y` continues `x` over the same layers with the same transition,
/// from the mip level where `x` ends: the two form one wider range.
pub open spec fn side_by_side(x: TextureBarrier, y: TextureBarrier) -> bool {
    &&& x.texture == y.texture
    &&& x.transition == y.transition
    &&& x.range.base_array_layer == y.range.base_array_layer
    &&& x.range.array_layer_length == y.range.array_layer_length
    &&& x.range.base_mip_level + x.range.mip_level_length == y.range.base_mip_level
}

/// No two barriers could be merged into one range: none continues another
/// in the layers after it, nor in the mip levels after it.
pub open spec fn none_mergeable(bs: Seq<TextureBarrier>) -> bool {
    &&& none_stacked(bs)
    &&& forall|i: int, j: int| 0 <= i < bs.len() && 0 <= j < bs.len() ==> !side_by_side(#[trigger] bs[i], #[trigger] bs[j])
}

} // verus!
