//! The resource registry: every tracked image and buffer, by name, with the
//! synchronization state of each of its physical instances.
use vstd::prelude::*;

use crate::format::{Format, SampleCount};
use crate::sync::{
    bits_contain, BarrierAccess, BarrierSync, TextureLayout, ACCESS_ACCELERATION_STRUCTURE_READ,
    ACCESS_ACCELERATION_STRUCTURE_WRITE, ACCESS_CONSTANT_READ, ACCESS_COPY_READ, ACCESS_COPY_WRITE,
    ACCESS_DEPTH_STENCIL_READ, ACCESS_DEPTH_STENCIL_WRITE, ACCESS_HOST_READ, ACCESS_HOST_WRITE,
    ACCESS_INDEX_READ, ACCESS_INDIRECT_READ, ACCESS_MEMORY_READ, ACCESS_MEMORY_WRITE,
    ACCESS_RENDER_TARGET_READ, ACCESS_RENDER_TARGET_WRITE, ACCESS_SAMPLING_READ, ACCESS_SHADER_READ,
    ACCESS_SHADER_WRITE, ACCESS_STORAGE_READ, ACCESS_STORAGE_WRITE, ACCESS_VERTEX_INPUT_READ,
    SYNC_ACCELERATION_STRUCTURE_BUILD, SYNC_COMPUTE_SHADER, SYNC_COPY, SYNC_EARLY_DEPTH,
    SYNC_FRAGMENT_SHADER, SYNC_INDEX_INPUT, SYNC_INDIRECT, SYNC_LATE_DEPTH, SYNC_RAY_TRACING,
    SYNC_RENDER_TARGET, SYNC_VERTEX_INPUT, SYNC_VERTEX_SHADER,
};
use crate::tracking::{
    covers, exact_cover, none_mergeable, pending, in_range, lemma_access_barriers_exact, lemma_barrier_needed, lemma_merge_nonempty, lemma_no_barrier_needed, lemma_texture_barriers_layers,
    merge_layer_runs, merge_layers, lemma_reads_coalesce,
    lemma_repeated_read_needs_no_barrier, lemma_write_replaces, sub_index, needs_barrier, range_fits, record_buffer_access, record_texture_access, state_after,
    states_after_access, texture_barriers, transition_for, BarrierTextureRange, BufferBarrier,
    InstanceHandle, InstanceSlot, SubresourceState, TextureBarrier,
};

verus! {

/// Which of the two instances of a history resource an access targets.
#[derive(Clone, Copy, Debug, PartialEq, Eq, Structural, Hash)]
pub enum HistoryResourceEntry {
    Current,
    Past,
}

#[derive(Clone, Copy, Debug, PartialEq, Eq, Structural, Hash)]
pub struct TextureInfo {
    pub format: Format,
    pub width: u32,
    pub height: u32,
    pub depth: u32,
    pub mip_levels: u32,
    pub array_length: u32,
    pub samples: SampleCount,
}

#[derive(Clone, Copy, Debug, PartialEq, Eq, Structural, Hash)]
pub enum MemoryUsage {
    GpuOnly,
    CpuToGpu,
    GpuToCpu,
    CpuOnly,
}

#[derive(Clone, Copy, Debug, PartialEq, Eq, Structural, Hash)]
pub struct BufferInfo {
    pub size: u64,
    pub usage: u32,
}

/// Which part of an image a view shows, and in which format.
#[derive(Clone, Copy, Debug, PartialEq, Eq, Structural, Hash)]
pub struct TextureViewInfo {
    pub base_mip_level: u32,
    pub mip_level_length: u32,
    pub base_array_layer: u32,
    pub array_layer_length: u32,
    pub format: Option<Format>,
}

#[derive(Clone, Copy, Debug, PartialEq, Eq, Structural, Hash)]
pub enum ViewKind {
    Sampling,
    Storage,
    RenderTarget,
    DepthStencil,
}

/// A view that the registry keeps for an image instance.
#[derive(Clone, Copy, Debug, PartialEq, Eq, Structural, Hash)]
pub struct CachedView {
    pub kind: ViewKind,
    pub info: TextureViewInfo,
}

/// A view of an image instance: its place in the instance's view cache.
#[derive(Clone, Copy, Debug, PartialEq, Eq, Structural, Hash)]
pub struct ViewHandle {
    pub texture: InstanceHandle,
    pub kind: ViewKind,
    pub index: usize,
}

/// One physical instance of an image.
pub struct TrackedTexture {
    pub subresources: Vec<SubresourceState>,
    pub views: Vec<CachedView>,
}

/// A named image: one instance, or two for a history resource (slot A
/// first, then slot B).
pub struct TrackedTextureEntry {
    pub name: String,
    pub info: TextureInfo,
    pub instances: Vec<TrackedTexture>,
}

/// A named buffer: the tracked state of its one or two instances.
pub struct TrackedBufferEntry {
    pub name: String,
    pub info: BufferInfo,
    pub memory_usage: MemoryUsage,
    pub instances: Vec<SubresourceState>,
}

/// The registry is the only writer of tracked state: its tables are read
/// through `textures`, `buffers` and `current_pass`, and change only through
/// its methods.
pub struct RendererResources {
    textures: Vec<TrackedTextureEntry>,
    buffers: Vec<TrackedBufferEntry>,
    /// The slot that holds the current instance of every history resource.
    current_pass: InstanceSlot,
}

pub open spec fn slot_index(slot: InstanceSlot) -> int {
    match slot {
        InstanceSlot::A => 0,
        InstanceSlot::B => 1,
    }
}

pub open spec fn other_slot(slot: InstanceSlot) -> InstanceSlot {
    match slot {
        InstanceSlot::A => InstanceSlot::B,
        InstanceSlot::B => InstanceSlot::A,
    }
}

/// The instance an access resolves to. While slot A is current, the past
/// instance is in slot B, and the other way round; a resource without
/// history has only slot A.
pub open spec fn resolve_slot(
    current: InstanceSlot,
    history: HistoryResourceEntry,
    has_history: bool,
) -> InstanceSlot {
    if ((history == HistoryResourceEntry::Past) == (current == InstanceSlot::A)) && has_history {
        InstanceSlot::B
    } else {
        InstanceSlot::A
    }
}

pub open spec fn subresource_count(info: TextureInfo) -> int {
    info.mip_levels as int * info.array_length as int
}

pub open spec fn view_range(info: TextureViewInfo) -> BarrierTextureRange {
    BarrierTextureRange {
        base_mip_level: info.base_mip_level,
        mip_level_length: info.mip_level_length,
        base_array_layer: info.base_array_layer,
        array_layer_length: info.array_layer_length,
    }
}

pub open spec fn request(stages: BarrierSync, access: BarrierAccess, layout: TextureLayout) -> SubresourceState {
    SubresourceState { stages, access, layout }
}

/// The stages a shader reads or writes images in.
pub open spec fn shader_stages() -> u32 {
    SYNC_COMPUTE_SHADER | SYNC_FRAGMENT_SHADER | SYNC_VERTEX_SHADER | SYNC_RAY_TRACING
}

/// A sampling view is read by shaders, in the sampled layout.
pub open spec fn sampling_domain(stages: BarrierSync, access: BarrierAccess, layout: TextureLayout) -> bool {
    &&& layout == TextureLayout::Sampled
    &&& bits_contain(ACCESS_SAMPLING_READ | ACCESS_SHADER_READ, access.bits)
    &&& bits_contain(shader_stages(), stages.bits)
}

/// A storage view is read and written by shaders, in the storage or general
/// layout.
pub open spec fn storage_domain(stages: BarrierSync, access: BarrierAccess, layout: TextureLayout) -> bool {
    &&& (layout == TextureLayout::Storage || layout == TextureLayout::General)
    &&& bits_contain(
        ACCESS_SHADER_READ | ACCESS_SHADER_WRITE | ACCESS_STORAGE_READ | ACCESS_STORAGE_WRITE,
        access.bits,
    )
    &&& bits_contain(shader_stages(), stages.bits)
}

/// A render target view is used by the render target stage only.
pub open spec fn render_target_domain(stages: BarrierSync, access: BarrierAccess, layout: TextureLayout) -> bool {
    &&& layout == TextureLayout::RenderTarget
    &&& bits_contain(ACCESS_RENDER_TARGET_READ | ACCESS_RENDER_TARGET_WRITE, access.bits)
    &&& bits_contain(SYNC_RENDER_TARGET, stages.bits)
}

/// A depth stencil view is used by the depth test stages only.
pub open spec fn depth_stencil_domain(stages: BarrierSync, access: BarrierAccess, layout: TextureLayout) -> bool {
    &&& (layout == TextureLayout::DepthStencilRead || layout == TextureLayout::DepthStencilReadWrite)
    &&& bits_contain(ACCESS_DEPTH_STENCIL_READ | ACCESS_DEPTH_STENCIL_WRITE, access.bits)
    &&& bits_contain(SYNC_EARLY_DEPTH | SYNC_LATE_DEPTH, stages.bits)
}

/// The stages and access kinds that buffers may be used with.
pub open spec fn buffer_domain(stages: BarrierSync, access: BarrierAccess) -> bool {
    &&& bits_contain(
        ACCESS_VERTEX_INPUT_READ | ACCESS_INDEX_READ | ACCESS_INDIRECT_READ | ACCESS_CONSTANT_READ
            | ACCESS_COPY_READ | ACCESS_COPY_WRITE | ACCESS_STORAGE_READ | ACCESS_STORAGE_WRITE
            | ACCESS_ACCELERATION_STRUCTURE_READ | ACCESS_ACCELERATION_STRUCTURE_WRITE
            | ACCESS_SHADER_READ | ACCESS_SHADER_WRITE | ACCESS_MEMORY_READ | ACCESS_MEMORY_WRITE
            | ACCESS_HOST_READ | ACCESS_HOST_WRITE,
        access.bits,
    )
    &&& bits_contain(
        SYNC_COPY | SYNC_VERTEX_INPUT | SYNC_VERTEX_SHADER | SYNC_FRAGMENT_SHADER
            | SYNC_COMPUTE_SHADER | SYNC_INDEX_INPUT | SYNC_INDIRECT
            | SYNC_ACCELERATION_STRUCTURE_BUILD | SYNC_RAY_TRACING,
        stages.bits,
    )
}

/// A view cache after asking it for `view`: as it was if it held the view,
/// else with the view added. The handle names the view's first place in it.
pub open spec fn view_cache_lookup(
    views: Seq<CachedView>,
    after: Seq<CachedView>,
    h: InstanceHandle,
    view: CachedView,
    r: ViewHandle,
) -> bool {
    &&& r.texture == h
    &&& r.kind == view.kind
    &&& if views.contains(view) {
        &&& after == views
        &&& r.index < views.len()
        &&& views[r.index as int] == view
        &&& forall|k: int| 0 <= k < r.index ==> views[k] != view
    } else {
        &&& after == views.push(view)
        &&& r.index == views.len()
    }
}

impl TrackedTextureEntry {
    pub open spec fn has_history(&self) -> bool {
        self.instances@.len() == 2
    }

    pub open spec fn instance(&self, slot: InstanceSlot) -> &TrackedTexture {
        &self.instances@[slot_index(slot)]
    }

    pub open spec fn wf(&self) -> bool {
        &&& (self.instances@.len() == 1 || self.instances@.len() == 2)
        &&& forall|k: int|
            0 <= k < self.instances@.len() ==> #[trigger] self.instances@[k].subresources@.len()
                == subresource_count(self.info)
    }
}

impl TrackedBufferEntry {
    pub open spec fn has_history(&self) -> bool {
        self.instances@.len() == 2
    }

    pub open spec fn wf(&self) -> bool {
        &&& (self.instances@.len() == 1 || self.instances@.len() == 2)
        &&& forall|k: int|
            0 <= k < self.instances@.len() ==> (#[trigger] self.instances@[k]).layout
                == TextureLayout::Undefined
    }
}

impl RendererResources {
    /// The tracked images, in the order they were created.
    pub closed spec fn textures_view(&self) -> Seq<TrackedTextureEntry> {
        self.textures@
    }

    /// The tracked buffers, in the order they were created.
    pub closed spec fn buffers_view(&self) -> Seq<TrackedBufferEntry> {
        self.buffers@
    }

    /// The slot that holds the current instance of every history resource.
    pub closed spec fn current_slot(&self) -> InstanceSlot {
        self.current_pass
    }

    pub fn textures(&self) -> (r: &Vec<TrackedTextureEntry>)
        ensures
            r@ == self.textures_view(),
    {
        &self.textures
    }

    pub fn buffers(&self) -> (r: &Vec<TrackedBufferEntry>)
        ensures
            r@ == self.buffers_view(),
    {
        &self.buffers
    }

    pub fn current_pass(&self) -> (r: InstanceSlot)
        ensures
            r == self.current_slot(),
    {
        self.current_pass
    }

    /// The tables fit in memory.
    pub proof fn lemma_view_lengths(&self)
        ensures
            self.textures_view().len() <= usize::MAX,
            self.buffers_view().len() <= usize::MAX,
    {
        assert(self.textures.len() == self.textures@.len());
        assert(self.buffers.len() == self.buffers@.len());
    }
}

impl RendererResources {
    /// Names are unique within each table, and every entry is well formed.
    pub open spec fn wf(&self) -> bool {
        &&& forall|i: int, j: int|
            0 <= i < j < self.textures_view().len() ==> self.textures_view()[i].name@ != self.textures_view()[j].name@
        &&& forall|i: int, j: int|
            0 <= i < j < self.buffers_view().len() ==> self.buffers_view()[i].name@ != self.buffers_view()[j].name@
        &&& forall|i: int| 0 <= i < self.textures_view().len() ==> (#[trigger] self.textures_view()[i]).wf()
        &&& forall|i: int| 0 <= i < self.buffers_view().len() ==> (#[trigger] self.buffers_view()[i]).wf()
    }

    pub open spec fn has_texture(&self, name: Seq<char>) -> bool {
        exists|i: int| 0 <= i < self.textures_view().len() && #[trigger] self.textures_view()[i].name@ == name
    }

    pub open spec fn has_buffer(&self, name: Seq<char>) -> bool {
        exists|i: int| 0 <= i < self.buffers_view().len() && #[trigger] self.buffers_view()[i].name@ == name
    }

    /// The position of the image with this name.
    pub open spec fn texture_index(&self, name: Seq<char>) -> int {
        choose|i: int| 0 <= i < self.textures_view().len() && #[trigger] self.textures_view()[i].name@ == name
    }

    pub open spec fn buffer_index(&self, name: Seq<char>) -> int {
        choose|i: int| 0 <= i < self.buffers_view().len() && #[trigger] self.buffers_view()[i].name@ == name
    }

    /// The instance of the named image that an access with `history`
    /// resolves to.
    pub open spec fn texture_handle(&self, name: Seq<char>, history: HistoryResourceEntry) -> InstanceHandle {
        let i = self.texture_index(name);
        InstanceHandle {
            resource: i as usize,
            slot: resolve_slot(self.current_slot(), history, self.textures_view()[i].has_history()),
        }
    }

    pub open spec fn buffer_handle(&self, name: Seq<char>, history: HistoryResourceEntry) -> InstanceHandle {
        let i = self.buffer_index(name);
        InstanceHandle {
            resource: i as usize,
            slot: resolve_slot(self.current_slot(), history, self.buffers_view()[i].has_history()),
        }
    }

    /// The access may target the named image with `history`: it exists, and
    /// it has a past instance if the past one is asked for.
    pub open spec fn texture_access_ok(&self, name: Seq<char>, history: HistoryResourceEntry) -> bool {
        &&& self.has_texture(name)
        &&& (history == HistoryResourceEntry::Past ==> self.textures_view()[self.texture_index(
            name,
        )].has_history())
    }

    pub open spec fn buffer_access_ok(&self, name: Seq<char>, history: HistoryResourceEntry) -> bool {
        &&& self.has_buffer(name)
        &&& (history == HistoryResourceEntry::Past ==> self.buffers_view()[self.buffer_index(
            name,
        )].has_history())
    }

    /// The tracked state of the instance `h` of an image.
    pub open spec fn texture_states(&self, h: InstanceHandle) -> Seq<SubresourceState> {
        self.textures_view()[h.resource as int].instance(h.slot).subresources@
    }

    pub open spec fn texture_views(&self, h: InstanceHandle) -> Seq<CachedView> {
        self.textures_view()[h.resource as int].instance(h.slot).views@
    }

    pub open spec fn buffer_state(&self, h: InstanceHandle) -> SubresourceState {
        self.buffers_view()[h.resource as int].instances@[slot_index(h.slot)]
    }

    /// Only image instance `h` may differ between the two registries:
    /// names, descriptors, other instances, buffers and the current slot are
    /// the same.
    pub open spec fn same_but_instance(&self, other: &RendererResources, h: InstanceHandle) -> bool {
        &&& other.current_slot() == self.current_slot()
        &&& other.buffers_view() == self.buffers_view()
        &&& other.textures_view().len() == self.textures_view().len()
        &&& forall|i: int|
            0 <= i < self.textures_view().len() && i != h.resource ==> #[trigger] other.textures_view()[i]
                == self.textures_view()[i]
        &&& other.textures_view()[h.resource as int].name == self.textures_view()[h.resource as int].name
        &&& other.textures_view()[h.resource as int].info == self.textures_view()[h.resource as int].info
        &&& other.textures_view()[h.resource as int].instances@.len() == self.textures_view()[h.resource as int].instances@.len()
        &&& forall|k: int|
            0 <= k < self.textures_view()[h.resource as int].instances@.len() && k != slot_index(h.slot)
                ==> #[trigger] other.textures_view()[h.resource as int].instances@[k] == self.textures_view()[h.resource as int].instances@[k]
    }

    /// Only the tracked state of image instance `h` differs.
    pub open spec fn same_but_states(&self, other: &RendererResources, h: InstanceHandle) -> bool {
        &&& self.same_but_instance(other, h)
        &&& other.texture_views(h) == self.texture_views(h)
    }

    /// Only the view cache of image instance `h` differs.
    pub open spec fn same_but_views(&self, other: &RendererResources, h: InstanceHandle) -> bool {
        &&& self.same_but_instance(other, h)
        &&& other.texture_states(h) == self.texture_states(h)
    }

    /// What an access to image instance `h` leaves behind: its tracked state
    /// took the access over `range`, nothing else changed.
    pub open spec fn texture_access_result(
        &self,
        after: &RendererResources,
        h: InstanceHandle,
        range: BarrierTextureRange,
        req: SubresourceState,
    ) -> bool {
        let info = self.textures_view()[h.resource as int].info;
        &&& self.same_but_states(after, h)
        &&& states_after_access(
            self.texture_states(h),
            after.texture_states(h),
            info.mip_levels as int,
            info.array_length as int,
            range,
            req,
        )
    }

    /// The barriers for an access to image instance `h`: within each layer,
    /// one per run of neighbouring mip levels that need the same
    /// transition; a run is merged into the barrier that covers the same
    /// mip levels with the same transition up to the layer before it.
    pub open spec fn texture_access_barriers(
        &self,
        h: InstanceHandle,
        range: BarrierTextureRange,
        req: SubresourceState,
        discard: bool,
    ) -> Seq<TextureBarrier> {
        merge_layers(texture_barriers(
            h,
            self.texture_states(h),
            self.textures_view()[h.resource as int].info.mip_levels as int,
            range,
            req,
            discard,
            range.array_layer_length as int,
        ))
    }

    /// The view cache of instance `h` after asking it for `view`, and
    /// nothing else changed.
    pub open spec fn view_lookup_result(
        &self,
        after: &RendererResources,
        h: InstanceHandle,
        view: CachedView,
        r: ViewHandle,
    ) -> bool {
        &&& self.same_but_views(after, h)
        &&& view_cache_lookup(self.texture_views(h), after.texture_views(h), h, view, r)
    }

    /// What an access through a view leaves behind: the tracked state of
    /// instance `h` took the access over the view's range, and its view cache
    /// was asked for the view.
    pub open spec fn view_access_result(
        &self,
        after: &RendererResources,
        h: InstanceHandle,
        req: SubresourceState,
        view: CachedView,
        r: ViewHandle,
    ) -> bool {
        let info = self.textures_view()[h.resource as int].info;
        &&& self.same_but_instance(after, h)
        &&& states_after_access(
            self.texture_states(h),
            after.texture_states(h),
            info.mip_levels as int,
            info.array_length as int,
            view_range(view.info),
            req,
        )
        &&& view_cache_lookup(self.texture_views(h), after.texture_views(h), h, view, r)
    }

    /// What an access to buffer instance `h` leaves behind: its tracked
    /// state took the access, nothing else changed.
    pub open spec fn buffer_access_result(&self, after: &RendererResources, h: InstanceHandle, req: SubresourceState) -> bool {
        let i = h.resource as int;
        &&& after.textures_view() == self.textures_view()
        &&& after.current_slot() == self.current_slot()
        &&& after.buffers_view().len() == self.buffers_view().len()
        &&& forall|j: int| 0 <= j < self.buffers_view().len() && j != i ==> #[trigger] after.buffers_view()[j] == self.buffers_view()[j]
        &&& after.buffers_view()[i].name == self.buffers_view()[i].name
        &&& after.buffers_view()[i].info == self.buffers_view()[i].info
        &&& after.buffers_view()[i].memory_usage == self.buffers_view()[i].memory_usage
        &&& after.buffers_view()[i].instances@ == self.buffers_view()[i].instances@.update(
            slot_index(h.slot),
            state_after(self.buffer_state(h), req),
        )
    }

    /// The barrier an access to buffer instance `h` needs, if any.
    pub open spec fn buffer_access_barrier(&self, h: InstanceHandle, req: SubresourceState) -> Option<BufferBarrier> {
        let before = self.buffer_state(h);
        if needs_barrier(before, req) {
            Some(BufferBarrier { buffer: h, transition: transition_for(before, req, false) })
        } else {
            None
        }
    }

    pub fn new() -> (r: RendererResources)
        ensures
            r.wf(),
            r.textures_view().len() == 0,
            r.buffers_view().len() == 0,
            r.current_slot() == InstanceSlot::A,
    {
        RendererResources { textures: Vec::new(), buffers: Vec::new(), current_pass: InstanceSlot::A }
    }

    /// Makes the past instance of every history resource the current one,
    /// and the other way round. Called once per frame, after its recording.
    pub fn swap_history_resources(&mut self)
        ensures
            final(self).current_slot() == other_slot(old(self).current_slot()),
            final(self).textures_view() == old(self).textures_view(),
            final(self).buffers_view() == old(self).buffers_view(),
    {
        self.current_pass =
        match self.current_pass {
            InstanceSlot::A => InstanceSlot::B,
            InstanceSlot::B => InstanceSlot::A,
        };
    }

    fn find_texture(&self, name: &String) -> (r: Option<usize>)
        ensures
            match r {
                Some(i) => i < self.textures_view().len() && self.textures_view()[i as int].name@ == name@,
                None => !self.has_texture(name@),
            },
    {
        let mut i: usize = 0;
        while i < self.textures.len()
            invariant
                i <= self.textures_view().len(),
                forall|k: int| 0 <= k < i ==> self.textures_view()[k].name@ != name@,
            decreases self.textures_view().len() - i,
        {
            if self.textures[i].name == *name {
                return Some(i);
            }
            i = i + 1;
        }
        None
    }

    fn find_buffer(&self, name: &String) -> (r: Option<usize>)
        ensures
            match r {
                Some(i) => i < self.buffers_view().len() && self.buffers_view()[i as int].name@ == name@,
                None => !self.has_buffer(name@),
            },
    {
        let mut i: usize = 0;
        while i < self.buffers.len()
            invariant
                i <= self.buffers_view().len(),
                forall|k: int| 0 <= k < i ==> self.buffers_view()[k].name@ != name@,
            decreases self.buffers_view().len() - i,
        {
            if self.buffers[i].name == *name {
                return Some(i);
            }
            i = i + 1;
        }
        None
    }

    /// With names unique, the image named `name` is the one at `i`.
    pub proof fn lemma_texture_index(&self, name: Seq<char>, i: int)
        requires
            self.wf(),
            0 <= i < self.textures_view().len(),
            self.textures_view()[i].name@ == name,
        ensures
            self.texture_index(name) == i,
    {
        let j = self.texture_index(name);
        assert(0 <= j < self.textures_view().len() && self.textures_view()[j].name@ == name);
        if j < i {
            assert(self.textures_view()[j].name@ != self.textures_view()[i].name@);
        } else if i < j {
            assert(self.textures_view()[i].name@ != self.textures_view()[j].name@);
        }
    }

    /// With names unique, the buffer named `name` is the one at `i`.
    pub proof fn lemma_buffer_index(&self, name: Seq<char>, i: int)
        requires
            self.wf(),
            0 <= i < self.buffers_view().len(),
            self.buffers_view()[i].name@ == name,
        ensures
            self.buffer_index(name) == i,
    {
        let j = self.buffer_index(name);
        assert(0 <= j < self.buffers_view().len() && self.buffers_view()[j].name@ == name);
        if j < i {
            assert(self.buffers_view()[j].name@ != self.buffers_view()[i].name@);
        } else if i < j {
            assert(self.buffers_view()[i].name@ != self.buffers_view()[j].name@);
        }
    }

    /// Whether an image by this name is tracked.
    pub fn contains_texture(&self, name: &str) -> (r: bool)
        ensures
            r == self.has_texture(name@),
    {
        let key = name.to_owned();
        self.find_texture(&key).is_some()
    }

    /// Whether a buffer by this name is tracked.
    pub fn contains_buffer(&self, name: &str) -> (r: bool)
        ensures
            r == self.has_buffer(name@),
    {
        let key = name.to_owned();
        self.find_buffer(&key).is_some()
    }

    /// Whether the named image has a past instance.
    pub fn texture_has_history(&self, name: &str) -> (r: bool)
        requires
            self.wf(),
            self.has_texture(name@),
        ensures
            r == self.textures_view()[self.texture_index(name@)].has_history(),
    {
        let key = name.to_owned();
        let i = self.find_texture(&key).unwrap();
        proof {
            self.lemma_texture_index(name@, i as int);
        }
        self.textures[i].instances.len() == 2
    }

    /// Whether the named buffer has a past instance.
    pub fn buffer_has_history(&self, name: &str) -> (r: bool)
        requires
            self.wf(),
            self.has_buffer(name@),
        ensures
            r == self.buffers_view()[self.buffer_index(name@)].has_history(),
    {
        let key = name.to_owned();
        let i = self.find_buffer(&key).unwrap();
        proof {
            self.lemma_buffer_index(name@, i as int);
        }
        self.buffers[i].instances.len() == 2
    }

    /// The instance of the named image that an access with `history`
    /// resolves to, without accessing it.
    pub fn texture_handle_of(&self, name: &str, history: HistoryResourceEntry) -> (r: InstanceHandle)
        requires
            self.wf(),
            self.has_texture(name@),
        ensures
            r == self.texture_handle(name@, history),
    {
        let key = name.to_owned();
        let i = self.find_texture(&key).unwrap();
        proof {
            self.lemma_texture_index(name@, i as int);
        }
        let use_b = (history == HistoryResourceEntry::Past) == (self.current_pass == InstanceSlot::A)
            && self.textures[i].instances.len() == 2;
        InstanceHandle { resource: i, slot: if use_b { InstanceSlot::B } else { InstanceSlot::A } }
    }

    /// The instance of the named buffer that an access with `history`
    /// resolves to, without accessing it.
    pub fn buffer_handle_of(&self, name: &str, history: HistoryResourceEntry) -> (r: InstanceHandle)
        requires
            self.wf(),
            self.has_buffer(name@),
        ensures
            r == self.buffer_handle(name@, history),
    {
        let key = name.to_owned();
        let i = self.find_buffer(&key).unwrap();
        proof {
            self.lemma_buffer_index(name@, i as int);
        }
        let use_b = (history == HistoryResourceEntry::Past) == (self.current_pass == InstanceSlot::A)
            && self.buffers[i].instances.len() == 2;
        InstanceHandle { resource: i, slot: if use_b { InstanceSlot::B } else { InstanceSlot::A } }
    }

    /// Starts tracking an image, with a second instance if it keeps history.
    /// Every subresource of each instance starts out untouched.
    pub fn create_texture(&mut self, name: &str, info: &TextureInfo, has_history: bool)
        requires
            old(self).wf(),
            !old(self).has_texture(name@),
            subresource_count(*info) <= usize::MAX,
        ensures
            final(self).wf(),
            final(self).buffers_view() == old(self).buffers_view(),
            final(self).current_slot() == old(self).current_slot(),
            final(self).textures_view().len() == old(self).textures_view().len() + 1,
            forall|i: int|
                0 <= i < old(self).textures_view().len() ==> #[trigger] final(self).textures_view()[i]
                    == old(self).textures_view()[i],
            ({
                let e = final(self).textures_view().last();
                &&& e.name@ == name@
                &&& e.info == *info
                &&& e.has_history() == has_history
                &&& forall|k: int, s: int|
                    0 <= k < e.instances@.len() && 0 <= s < subresource_count(*info)
                        ==> #[trigger] e.instances@[k].subresources@[s] == SubresourceState::spec_initial()
                &&& forall|k: int|
                    0 <= k < e.instances@.len() ==> (#[trigger] e.instances@[k]).views@.len() == 0
            }),
    {
        let count: usize = (info.mip_levels as usize) * (info.array_length as usize);
        let mut instances: Vec<TrackedTexture> = Vec::new();
        let n: usize = if has_history { 2 } else { 1 };
        let mut k: usize = 0;
        while k < n
            invariant
                k <= n,
                n == (if has_history { 2usize } else { 1usize }),
                count == subresource_count(*info),
                instances@.len() == k,
                forall|j: int| 0 <= j < k ==> (#[trigger] instances@[j]).subresources@.len() == count,
                forall|j: int, s: int|
                    0 <= j < k && 0 <= s < count ==> #[trigger] instances@[j].subresources@[s]
                        == SubresourceState::spec_initial(),
                forall|j: int| 0 <= j < k ==> (#[trigger] instances@[j]).views@.len() == 0,
            decreases n - k,
        {
            let mut subresources: Vec<SubresourceState> = Vec::new();
            let mut s: usize = 0;
            while s < count
                invariant
                    s <= count,
                    subresources@.len() == s,
                    forall|t: int| 0 <= t < s ==> #[trigger] subresources@[t] == SubresourceState::spec_initial(),
                decreases count - s,
            {
                subresources.push(SubresourceState::initial());
                s = s + 1;
            }
            instances.push(TrackedTexture { subresources, views: Vec::new() });
            k = k + 1;
        }
        let entry = TrackedTextureEntry { name: name.to_owned(), info: *info, instances };
        self.textures.push(entry);
        proof {
            let e = self.textures_view().last();
            assert(e.wf());
            assert forall|i: int, j: int|
                0 <= i < j < self.textures_view().len() implies self.textures_view()[i].name@
                != self.textures_view()[j].name@ by {
                if j == self.textures_view().len() - 1 {
                    assert(old(self).textures_view()[i].name@ == self.textures_view()[i].name@);
                }
            }
        }
    }

    /// Starts tracking a buffer, with a second instance if it keeps history.
    pub fn create_buffer(&mut self, name: &str, info: &BufferInfo, memory_usage: MemoryUsage, has_history: bool)
        requires
            old(self).wf(),
            !old(self).has_buffer(name@),
        ensures
            final(self).wf(),
            final(self).textures_view() == old(self).textures_view(),
            final(self).current_slot() == old(self).current_slot(),
            final(self).buffers_view().len() == old(self).buffers_view().len() + 1,
            forall|i: int|
                0 <= i < old(self).buffers_view().len() ==> #[trigger] final(self).buffers_view()[i]
                    == old(self).buffers_view()[i],
            ({
                let e = final(self).buffers_view().last();
                &&& e.name@ == name@
                &&& e.info == *info
                &&& e.memory_usage == memory_usage
                &&& e.has_history() == has_history
                &&& forall|k: int|
                    0 <= k < e.instances@.len() ==> #[trigger] e.instances@[k]
                        == SubresourceState::spec_initial()
            }),
    {
        let mut instances: Vec<SubresourceState> = Vec::new();
        instances.push(SubresourceState::initial());
        if has_history {
            instances.push(SubresourceState::initial());
        }
        let entry = TrackedBufferEntry { name: name.to_owned(), info: *info, memory_usage, instances };
        self.buffers.push(entry);
        proof {
            assert(self.buffers_view().last().wf());
            assert forall|i: int, j: int|
                0 <= i < j < self.buffers_view().len() implies self.buffers_view()[i].name@
                != self.buffers_view()[j].name@ by {
                if j == self.buffers_view().len() - 1 {
                    assert(old(self).buffers_view()[i].name@ == self.buffers_view()[i].name@);
                }
            }
        }
    }

    /// The descriptor of the named image; no barrier is involved.
    pub fn texture_info(&self, name: &str) -> (r: TextureInfo)
        requires
            self.wf(),
            self.has_texture(name@),
        ensures
            r == self.textures_view()[self.texture_index(name@)].info,
    {
        let key = name.to_owned();
        let i = self.find_texture(&key).unwrap();
        proof {
            self.lemma_texture_index(name@, i as int);
        }
        self.textures[i].info
    }

    /// The descriptor of the named buffer; no barrier is involved.
    pub fn buffer_info(&self, name: &str) -> (r: BufferInfo)
        requires
            self.wf(),
            self.has_buffer(name@),
        ensures
            r == self.buffers_view()[self.buffer_index(name@)].info,
    {
        let key = name.to_owned();
        let i = self.find_buffer(&key).unwrap();
        proof {
            self.lemma_buffer_index(name@, i as int);
        }
        self.buffers[i].info
    }

    /// Resolves the instance an access targets.
    fn resolve_texture(&self, key: &String, history: HistoryResourceEntry) -> (r: InstanceHandle)
        requires
            self.wf(),
            self.texture_access_ok(key@, history),
        ensures
            r == self.texture_handle(key@, history),
            r.resource as int == self.texture_index(key@),
            self.textures_view()[r.resource as int].name@ == key@,
            r.resource < self.textures_view().len(),
            slot_index(r.slot) < self.textures_view()[r.resource as int].instances@.len(),
    {
        let i = self.find_texture(key).unwrap();
        proof {
            self.lemma_texture_index(key@, i as int);
        }
        let use_b = (history == HistoryResourceEntry::Past) == (self.current_pass == InstanceSlot::A)
            && self.textures[i].instances.len() == 2;
        InstanceHandle { resource: i, slot: if use_b { InstanceSlot::B } else { InstanceSlot::A } }
    }

    fn access_texture_internal(
        &mut self,
        key: &String,
        stages: BarrierSync,
        range: &BarrierTextureRange,
        access: BarrierAccess,
        layout: TextureLayout,
        discard: bool,
        history: HistoryResourceEntry,
    ) -> (r: (InstanceHandle, Vec<TextureBarrier>))
        requires
            old(self).wf(),
            old(self).texture_access_ok(key@, history),
            range_fits(
                *range,
                old(self).textures_view()[old(self).texture_index(key@)].info.mip_levels as int,
                old(self).textures_view()[old(self).texture_index(key@)].info.array_length as int,
            ),
        ensures
            final(self).wf(),
            r.0 == old(self).texture_handle(key@, history),
            old(self).texture_access_result(final(self), r.0, *range, request(stages, access, layout)),
            r.1@ == old(self).texture_access_barriers(r.0, *range, request(stages, access, layout), discard),
            exact_cover(
                r.1@,
                old(self).texture_states(r.0),
                old(self).textures_view()[r.0.resource as int].info.mip_levels as int,
                request(stages, access, layout),
                discard,
                range.base_array_layer as int,
                range.base_array_layer + range.array_layer_length,
                range.base_mip_level as int,
                range.base_mip_level + range.mip_level_length,
            ),
            none_mergeable(r.1@),
    {
        let h = self.resolve_texture(key, history);
        let i = h.resource;
        let k: usize = if h.slot == InstanceSlot::B { 1 } else { 0 };
        let mip_count = self.textures[i].info.mip_levels;
        let layer_count = self.textures[i].info.array_length;
        let req = SubresourceState { stages, access, layout };
        let ghost old_self = *old(self);
        proof {
            assert(self.textures_view()[i as int].wf());
            assert(self.textures_view()[i as int].instances@[k as int].subresources@.len() == subresource_count(
                self.textures_view()[i as int].info,
            ));
        }
        let barriers = record_texture_access(
            &mut self.textures[i].instances[k].subresources,
            mip_count,
            layer_count,
            h,
            *range,
            req,
            discard,
        );
        proof {
            assert(self.textures_view()[i as int].wf());
            assert(old_self.same_but_states(self, h));
            lemma_texture_barriers_layers(
                h,
                old_self.texture_states(h),
                mip_count as int,
                layer_count as int,
                *range,
                req,
                discard,
                range.array_layer_length as int,
            );
        }
        let merged = merge_layer_runs(barriers, layer_count);
        proof {
            lemma_access_barriers_exact(
                h,
                old_self.texture_states(h),
                mip_count as int,
                layer_count as int,
                *range,
                req,
                discard,
            );
        }
        (h, merged)
    }

    /// Records an access to a range of the named image: returns the instance
    /// it resolved to and the barriers to record before the access. The
    /// barriers cover exactly the subresources of the range that need one,
    /// each once and with the transition it needs, and no two of them could
    /// be merged into one range.
    pub fn access_texture(
        &mut self,
        name: &str,
        range: &BarrierTextureRange,
        stages: BarrierSync,
        access: BarrierAccess,
        layout: TextureLayout,
        discard: bool,
        history: HistoryResourceEntry,
    ) -> (r: (InstanceHandle, Vec<TextureBarrier>))
        requires
            old(self).wf(),
            old(self).texture_access_ok(name@, history),
            range_fits(
                *range,
                old(self).textures_view()[old(self).texture_index(name@)].info.mip_levels as int,
                old(self).textures_view()[old(self).texture_index(name@)].info.array_length as int,
            ),
        ensures
            final(self).wf(),
            r.0 == old(self).texture_handle(name@, history),
            old(self).texture_access_result(final(self), r.0, *range, request(stages, access, layout)),
            r.1@ == old(self).texture_access_barriers(r.0, *range, request(stages, access, layout), discard),
            exact_cover(
                r.1@,
                old(self).texture_states(r.0),
                old(self).textures_view()[r.0.resource as int].info.mip_levels as int,
                request(stages, access, layout),
                discard,
                range.base_array_layer as int,
                range.base_array_layer + range.array_layer_length,
                range.base_mip_level as int,
                range.base_mip_level + range.mip_level_length,
            ),
            none_mergeable(r.1@),
    {
        let key = name.to_owned();
        self.access_texture_internal(&key, stages, range, access, layout, discard, history)
    }

    fn get_view(&mut self, key: &String, kind: ViewKind, info: &TextureViewInfo, history: HistoryResourceEntry) -> (r: ViewHandle)
        requires
            old(self).wf(),
            old(self).texture_access_ok(key@, history),
        ensures
            final(self).wf(),
            old(self).view_lookup_result(
                final(self),
                old(self).texture_handle(key@, history),
                CachedView { kind, info: *info },
                r,
            ),
    {
        let h = self.resolve_texture(key, history);
        let i = h.resource;
        let k: usize = if h.slot == InstanceSlot::B { 1 } else { 0 };
        let view = CachedView { kind, info: *info };
        let ghost views = self.texture_views(h);
        let n = self.textures[i].instances[k].views.len();
        let mut j: usize = 0;
        while j < n
            invariant
                j <= n,
                n == views.len(),
                views == self.texture_views(h),
                i == h.resource,
                k == slot_index(h.slot),
                i < self.textures_view().len(),
                k < self.textures_view()[i as int].instances@.len(),
                self == old(self),
                self.wf(),
                h == old(self).texture_handle(key@, history),
                view == (CachedView { kind, info: *info }),
                forall|t: int| 0 <= t < j ==> views[t] != view,
            decreases n - j,
        {
            if self.textures[i].instances[k].views[j] == view {
                proof {
                    assert(views.contains(view));
                    assert(old(self).same_but_views(self, h));
                    assert(self.wf());
                }
                return ViewHandle { texture: h, kind, index: j };
            }
            j = j + 1;
        }
        proof {
            assert(!views.contains(view));
        }
        self.textures[i].instances[k].views.push(view);
        proof {
            assert(old(self).textures_view()[i as int].wf());
            assert forall|t: int| 0 <= t < self.textures_view()[i as int].instances@.len() implies
                #[trigger] self.textures_view()[i as int].instances@[t].subresources@.len()
                == subresource_count(self.textures_view()[i as int].info) by {
                assert(old(self).textures_view()[i as int].instances@[t].subresources@.len()
                    == subresource_count(old(self).textures_view()[i as int].info));
            }
            assert(self.textures_view()[i as int].wf());
            assert forall|t: int| 0 <= t < self.textures_view().len() implies (#[trigger] self.textures_view()[t]).wf() by {
                if t != i {
                    assert(old(self).textures_view()[t].wf());
                }
            }
            assert(self.texture_views(h) =~= views.push(view));
            assert(old(self).same_but_views(self, h));
        }
        ViewHandle { texture: h, kind, index: n }
    }

    /// The sampling view of the named image for `info`, created on first use.
    pub fn get_sampling_view(&mut self, name: &str, info: &TextureViewInfo, history: HistoryResourceEntry) -> (r: ViewHandle)
        requires
            old(self).wf(),
            old(self).texture_access_ok(name@, history),
        ensures
            final(self).wf(),
            old(self).view_lookup_result(
                final(self),
                old(self).texture_handle(name@, history),
                CachedView { kind: ViewKind::Sampling, info: *info },
                r,
            ),
    {
        let key = name.to_owned();
        self.get_view(&key, ViewKind::Sampling, info, history)
    }

    /// The storage view of the named image for `info`, created on first use.
    pub fn get_storage_view(&mut self, name: &str, info: &TextureViewInfo, history: HistoryResourceEntry) -> (r: ViewHandle)
        requires
            old(self).wf(),
            old(self).texture_access_ok(name@, history),
        ensures
            final(self).wf(),
            old(self).view_lookup_result(
                final(self),
                old(self).texture_handle(name@, history),
                CachedView { kind: ViewKind::Storage, info: *info },
                r,
            ),
    {
        let key = name.to_owned();
        self.get_view(&key, ViewKind::Storage, info, history)
    }

    fn access_view(
        &mut self,
        key: &String,
        kind: ViewKind,
        stages: BarrierSync,
        access: BarrierAccess,
        layout: TextureLayout,
        discard: bool,
        info: &TextureViewInfo,
        history: HistoryResourceEntry,
    ) -> (r: (ViewHandle, Vec<TextureBarrier>))
        requires
            old(self).wf(),
            old(self).texture_access_ok(key@, history),
            old(self).view_fits(key@, *info),
        ensures
            final(self).wf(),
            old(self).view_access_result(
                final(self),
                old(self).texture_handle(key@, history),
                request(stages, access, layout),
                CachedView { kind, info: *info },
                r.0,
            ),
            r.1@ == old(self).texture_access_barriers(
                old(self).texture_handle(key@, history),
                view_range(*info),
                request(stages, access, layout),
                discard,
            ),
            exact_cover(
                r.1@,
                old(self).texture_states(old(self).texture_handle(key@, history)),
                old(self).textures_view()[old(self).texture_index(key@)].info.mip_levels as int,
                request(stages, access, layout),
                discard,
                info.base_array_layer as int,
                info.base_array_layer + info.array_layer_length,
                info.base_mip_level as int,
                info.base_mip_level + info.mip_level_length,
            ),
            none_mergeable(r.1@),
    {
        let range = BarrierTextureRange {
            base_mip_level: info.base_mip_level,
            mip_level_length: info.mip_level_length,
            base_array_layer: info.base_array_layer,
            array_layer_length: info.array_layer_length,
        };
        let ghost before = *old(self);
        let (h, barriers) = self.access_texture_internal(key, stages, &range, access, layout, discard, history);
        let ghost mid = *self;
        proof {
            let ti = before.texture_index(key@);
            assert(0 <= ti < before.textures_view().len() && before.textures_view()[ti].name@ == key@);
            assert(before.textures.len() == before.textures_view().len());
            assert(h.resource as int == ti);
            assert(mid.textures_view()[ti].name == before.textures_view()[ti].name);
            mid.lemma_texture_index(key@, ti);
        }
        let view = self.get_view(key, kind, info, history);
        proof {
            assert(mid.texture_handle(key@, history) == h);
            let hr = h.resource as int;
            assert forall|k: int|
                0 <= k < before.textures_view()[hr].instances@.len() && k != slot_index(h.slot)
                    implies #[trigger] self.textures_view()[hr].instances@[k] == before.textures_view()[hr].instances@[k] by {
                assert(mid.textures_view()[hr].instances@[k] == before.textures_view()[hr].instances@[k]);
            }
            assert forall|i: int|
                0 <= i < before.textures_view().len() && i != h.resource implies #[trigger] self.textures_view()[i]
                    == before.textures_view()[i] by {
                assert(mid.textures_view()[i] == before.textures_view()[i]);
            }
        }
        (view, barriers)
    }

    /// The view's range lies within the named image.
    pub open spec fn view_fits(&self, name: Seq<char>, info: TextureViewInfo) -> bool {
        let t = self.textures_view()[self.texture_index(name)].info;
        range_fits(view_range(info), t.mip_levels as int, t.array_length as int)
    }

    /// Records a shader read through a sampling view of the named image and
    /// returns the view, created on first use, with the barriers to record
    /// before the read.
    pub fn access_sampling_view(
        &mut self,
        name: &str,
        stages: BarrierSync,
        access: BarrierAccess,
        layout: TextureLayout,
        discard: bool,
        info: &TextureViewInfo,
        history: HistoryResourceEntry,
    ) -> (r: (ViewHandle, Vec<TextureBarrier>))
        requires
            old(self).wf(),
            old(self).texture_access_ok(name@, history),
            old(self).view_fits(name@, *info),
            sampling_domain(stages, access, layout),
        ensures
            final(self).wf(),
            old(self).view_access_result(
                final(self),
                old(self).texture_handle(name@, history),
                request(stages, access, layout),
                CachedView { kind: ViewKind::Sampling, info: *info },
                r.0,
            ),
            r.1@ == old(self).texture_access_barriers(
                old(self).texture_handle(name@, history),
                view_range(*info),
                request(stages, access, layout),
                discard,
            ),
            exact_cover(
                r.1@,
                old(self).texture_states(old(self).texture_handle(name@, history)),
                old(self).textures_view()[old(self).texture_index(name@)].info.mip_levels as int,
                request(stages, access, layout),
                discard,
                info.base_array_layer as int,
                info.base_array_layer + info.array_layer_length,
                info.base_mip_level as int,
                info.base_mip_level + info.mip_level_length,
            ),
            none_mergeable(r.1@),
    {
        let key = name.to_owned();
        self.access_view(&key, ViewKind::Sampling, stages, access, layout, discard, info, history)
    }

    /// Records a shader access through a storage view of the named image.
    pub fn access_storage_view(
        &mut self,
        name: &str,
        stages: BarrierSync,
        access: BarrierAccess,
        layout: TextureLayout,
        discard: bool,
        info: &TextureViewInfo,
        history: HistoryResourceEntry,
    ) -> (r: (ViewHandle, Vec<TextureBarrier>))
        requires
            old(self).wf(),
            old(self).texture_access_ok(name@, history),
            old(self).view_fits(name@, *info),
            storage_domain(stages, access, layout),
        ensures
            final(self).wf(),
            old(self).view_access_result(
                final(self),
                old(self).texture_handle(name@, history),
                request(stages, access, layout),
                CachedView { kind: ViewKind::Storage, info: *info },
                r.0,
            ),
            r.1@ == old(self).texture_access_barriers(
                old(self).texture_handle(name@, history),
                view_range(*info),
                request(stages, access, layout),
                discard,
            ),
            exact_cover(
                r.1@,
                old(self).texture_states(old(self).texture_handle(name@, history)),
                old(self).textures_view()[old(self).texture_index(name@)].info.mip_levels as int,
                request(stages, access, layout),
                discard,
                info.base_array_layer as int,
                info.base_array_layer + info.array_layer_length,
                info.base_mip_level as int,
                info.base_mip_level + info.mip_level_length,
            ),
            none_mergeable(r.1@),
    {
        let key = name.to_owned();
        self.access_view(&key, ViewKind::Storage, stages, access, layout, discard, info, history)
    }

    /// Records a render target access through a view of the named image.
    pub fn access_render_target_view(
        &mut self,
        name: &str,
        stages: BarrierSync,
        access: BarrierAccess,
        layout: TextureLayout,
        discard: bool,
        info: &TextureViewInfo,
        history: HistoryResourceEntry,
    ) -> (r: (ViewHandle, Vec<TextureBarrier>))
        requires
            old(self).wf(),
            old(self).texture_access_ok(name@, history),
            old(self).view_fits(name@, *info),
            render_target_domain(stages, access, layout),
        ensures
            final(self).wf(),
            old(self).view_access_result(
                final(self),
                old(self).texture_handle(name@, history),
                request(stages, access, layout),
                CachedView { kind: ViewKind::RenderTarget, info: *info },
                r.0,
            ),
            r.1@ == old(self).texture_access_barriers(
                old(self).texture_handle(name@, history),
                view_range(*info),
                request(stages, access, layout),
                discard,
            ),
            exact_cover(
                r.1@,
                old(self).texture_states(old(self).texture_handle(name@, history)),
                old(self).textures_view()[old(self).texture_index(name@)].info.mip_levels as int,
                request(stages, access, layout),
                discard,
                info.base_array_layer as int,
                info.base_array_layer + info.array_layer_length,
                info.base_mip_level as int,
                info.base_mip_level + info.mip_level_length,
            ),
            none_mergeable(r.1@),
    {
        let key = name.to_owned();
        self.access_view(&key, ViewKind::RenderTarget, stages, access, layout, discard, info, history)
    }

    /// Records a depth test access through a view of the named image.
    pub fn access_depth_stencil_view(
        &mut self,
        name: &str,
        stages: BarrierSync,
        access: BarrierAccess,
        layout: TextureLayout,
        discard: bool,
        info: &TextureViewInfo,
        history: HistoryResourceEntry,
    ) -> (r: (ViewHandle, Vec<TextureBarrier>))
        requires
            old(self).wf(),
            old(self).texture_access_ok(name@, history),
            old(self).view_fits(name@, *info),
            depth_stencil_domain(stages, access, layout),
        ensures
            final(self).wf(),
            old(self).view_access_result(
                final(self),
                old(self).texture_handle(name@, history),
                request(stages, access, layout),
                CachedView { kind: ViewKind::DepthStencil, info: *info },
                r.0,
            ),
            r.1@ == old(self).texture_access_barriers(
                old(self).texture_handle(name@, history),
                view_range(*info),
                request(stages, access, layout),
                discard,
            ),
            exact_cover(
                r.1@,
                old(self).texture_states(old(self).texture_handle(name@, history)),
                old(self).textures_view()[old(self).texture_index(name@)].info.mip_levels as int,
                request(stages, access, layout),
                discard,
                info.base_array_layer as int,
                info.base_array_layer + info.array_layer_length,
                info.base_mip_level as int,
                info.base_mip_level + info.mip_level_length,
            ),
            none_mergeable(r.1@),
    {
        let key = name.to_owned();
        self.access_view(&key, ViewKind::DepthStencil, stages, access, layout, discard, info, history)
    }

    /// Records an access to the named buffer: returns the instance it
    /// resolved to and the barrier to record before the access, if one is
    /// needed. Only the state of that instance changes.
    pub fn access_buffer(
        &mut self,
        name: &str,
        stages: BarrierSync,
        access: BarrierAccess,
        history: HistoryResourceEntry,
    ) -> (r: (InstanceHandle, Option<BufferBarrier>))
        requires
            old(self).wf(),
            old(self).buffer_access_ok(name@, history),
            buffer_domain(stages, access),
        ensures
            final(self).wf(),
            r.0 == old(self).buffer_handle(name@, history),
            old(self).buffer_access_result(final(self), r.0, request(stages, access, TextureLayout::Undefined)),
            r.1 == old(self).buffer_access_barrier(r.0, request(stages, access, TextureLayout::Undefined)),
    {
        let key = name.to_owned();
        let i = self.find_buffer(&key).unwrap();
        proof {
            self.lemma_buffer_index(name@, i as int);
            assert(self.buffers_view()[i as int].wf());
        }
        let use_b = (history == HistoryResourceEntry::Past) == (self.current_pass == InstanceSlot::A)
            && self.buffers[i].instances.len() == 2;
        let h = InstanceHandle { resource: i, slot: if use_b { InstanceSlot::B } else { InstanceSlot::A } };
        let k: usize = if use_b { 1 } else { 0 };
        let req = SubresourceState { stages, access, layout: TextureLayout::Undefined };
        let barrier = record_buffer_access(&mut self.buffers[i].instances[k], h, req);
        proof {
            let e = self.buffers_view()[i as int];
            assert forall|t: int| 0 <= t < e.instances@.len() implies (#[trigger] e.instances@[t]).layout
                == TextureLayout::Undefined by {
                assert(old(self).buffers_view()[i as int].wf());
                if t != k {
                    assert(e.instances@[t] == old(self).buffers_view()[i as int].instances@[t]);
                }
            }
            assert(e.wf());
            assert forall|t: int| 0 <= t < self.buffers_view().len() implies (#[trigger] self.buffers_view()[t]).wf() by {
                if t != i {
                    assert(old(self).buffers_view()[t].wf());
                }
            }
            assert forall|a: int, b: int|
                0 <= a < b < self.buffers_view().len() implies self.buffers_view()[a].name@ != self.buffers_view()[b].name@ by {
                assert(old(self).buffers_view()[a].name@ != old(self).buffers_view()[b].name@);
            }
            assert(self.buffers_view()[i as int].instances@ =~= old(self).buffers_view()[i as int].instances@.update(
                k as int,
                state_after(old(self).buffers_view()[i as int].instances@[k as int], req),
            ));
        }
        (h, barrier)
    }
}

/// Swapping history twice gives every history resource its first
/// current and past instances back: `r2` is `r0` after two calls of
/// `swap_history_resources`.
pub proof fn lemma_swap_history_twice(r0: RendererResources, r1: RendererResources, r2: RendererResources)
    requires
        r1.current_slot() == other_slot(r0.current_slot()),
        r1.textures_view() == r0.textures_view(),
        r1.buffers_view() == r0.buffers_view(),
        r2.current_slot() == other_slot(r1.current_slot()),
        r2.textures_view() == r1.textures_view(),
        r2.buffers_view() == r1.buffers_view(),
    ensures
        r2.current_slot() == r0.current_slot(),
        forall|name: Seq<char>, history: HistoryResourceEntry|
            #[trigger] r2.texture_handle(name, history) == r0.texture_handle(name, history)
                && r2.buffer_handle(name, history) == r0.buffer_handle(name, history),
{
}

/// One swap exchanges the roles of the two instances of a history resource:
/// what was current is now past, and the other way round.
pub proof fn lemma_swap_history_exchanges(current: InstanceSlot, history: HistoryResourceEntry)
    ensures
        resolve_slot(other_slot(current), history, true) == resolve_slot(
            current,
            if history == HistoryResourceEntry::Past {
                HistoryResourceEntry::Current
            } else {
                HistoryResourceEntry::Past
            },
            true,
        ),
{
}

/// The access may target instance `h` of an image over `range`.
pub open spec fn access_fits(r: &RendererResources, h: InstanceHandle, range: BarrierTextureRange) -> bool {
    &&& h.resource < r.textures_view().len()
    &&& slot_index(h.slot) < r.textures_view()[h.resource as int].instances@.len()
    &&& range_fits(
        range,
        r.textures_view()[h.resource as int].info.mip_levels as int,
        r.textures_view()[h.resource as int].info.array_length as int,
    )
}

proof fn lemma_states_in_range(r0: &RendererResources, r1: &RendererResources, h: InstanceHandle, range: BarrierTextureRange, req: SubresourceState)
    requires
        r0.wf(),
        access_fits(r0, h, range),
        r0.texture_access_result(r1, h, range, req),
    ensures
        access_fits(r1, h, range),
        r1.textures_view()[h.resource as int].info == r0.textures_view()[h.resource as int].info,
        forall|layer: int, mip: int|
            #[trigger] in_range(range, layer, mip) ==> {
                let m = r0.textures_view()[h.resource as int].info.mip_levels as int;
                r1.texture_states(h)[sub_index(mip, m, layer)] == state_after(
                    r0.texture_states(h)[sub_index(mip, m, layer)],
                    req,
                )
            },
{
    let info = r0.textures_view()[h.resource as int].info;
    assert forall|layer: int, mip: int| #[trigger] in_range(range, layer, mip) implies {
        let m = info.mip_levels as int;
        r1.texture_states(h)[sub_index(mip, m, layer)] == state_after(r0.texture_states(h)[sub_index(mip, m, layer)], req)
    } by {
        assert(0 <= layer < info.array_length && 0 <= mip < info.mip_levels);
        assert(r1.texture_states(h)[sub_index(mip, info.mip_levels as int, layer)] == state_after(
            r0.texture_states(h)[sub_index(mip, info.mip_levels as int, layer)],
            req,
        ));
    }
}

/// Repeating a read-only access on the range an access just covered, of
/// the same instance, emits no barrier: `r1` is `r0` after the first access.
pub proof fn lemma_repeated_read_emits_nothing(
    r0: &RendererResources,
    r1: &RendererResources,
    h: InstanceHandle,
    range: BarrierTextureRange,
    req: SubresourceState,
    discard: bool,
)
    requires
        r0.wf(),
        access_fits(r0, h, range),
        r0.texture_access_result(r1, h, range, req),
        !req.access.spec_is_write(),
    ensures
        r1.texture_access_barriers(h, range, req, discard) == Seq::<TextureBarrier>::empty(),
{
    lemma_states_in_range(r0, r1, h, range, req);
    let info = r0.textures_view()[h.resource as int].info;
    let m = info.mip_levels as int;
    assert forall|layer: int, mip: int| in_range(range, layer, mip) implies !needs_barrier(
        #[trigger] r1.texture_states(h)[sub_index(mip, m, layer)],
        req,
    ) by {
        assert(in_range(range, layer, mip));
        lemma_repeated_read_needs_no_barrier(r0.texture_states(h)[sub_index(mip, m, layer)], req);
    }
    lemma_no_barrier_needed(
        h,
        r1.texture_states(h),
        m,
        info.array_length as int,
        range,
        req,
        discard,
        range.array_layer_length as int,
    );
    assert(merge_layers(Seq::<TextureBarrier>::empty()) == Seq::<TextureBarrier>::empty());
}

/// Two reads in one layout, `first` and then `second`, on the same range of
/// the same instance: after them, any read in that layout whose stages and
/// access kinds lie within the union of the two emits no barrier. `r1` is
/// `r0` after the first read, `r2` is `r1` after the second.
pub proof fn lemma_reads_coalesce_in_registry(
    r0: &RendererResources,
    r1: &RendererResources,
    r2: &RendererResources,
    h: InstanceHandle,
    range: BarrierTextureRange,
    first: SubresourceState,
    second: SubresourceState,
    later: SubresourceState,
    discard: bool,
)
    requires
        r0.wf(),
        r1.wf(),
        access_fits(r0, h, range),
        r0.texture_access_result(r1, h, range, first),
        r1.texture_access_result(r2, h, range, second),
        !first.access.spec_is_write(),
        !second.access.spec_is_write(),
        !later.access.spec_is_write(),
        first.layout == second.layout,
        later.layout == first.layout,
        bits_contain(first.stages.bits | second.stages.bits, later.stages.bits),
        bits_contain(first.access.bits | second.access.bits, later.access.bits),
    ensures
        r2.texture_access_barriers(h, range, later, discard) == Seq::<TextureBarrier>::empty(),
{
    lemma_states_in_range(r0, r1, h, range, first);
    lemma_states_in_range(r1, r2, h, range, second);
    let info = r0.textures_view()[h.resource as int].info;
    let m = info.mip_levels as int;
    assert forall|layer: int, mip: int| in_range(range, layer, mip) implies !needs_barrier(
        #[trigger] r2.texture_states(h)[sub_index(mip, m, layer)],
        later,
    ) by {
        assert(in_range(range, layer, mip));
        lemma_reads_coalesce(r0.texture_states(h)[sub_index(mip, m, layer)], first, second, later);
    }
    lemma_no_barrier_needed(
        h,
        r2.texture_states(h),
        m,
        info.array_length as int,
        range,
        later,
        discard,
        range.array_layer_length as int,
    );
    assert(merge_layers(Seq::<TextureBarrier>::empty()) == Seq::<TextureBarrier>::empty());
}

/// A write to a nonempty range always emits a barrier, and leaves every
/// subresource of the range tracking exactly the write's access kinds, with
/// no earlier ones kept: `r1` is `r0` after the write.
pub proof fn lemma_write_forces_barrier(
    r0: &RendererResources,
    r1: &RendererResources,
    h: InstanceHandle,
    range: BarrierTextureRange,
    req: SubresourceState,
    discard: bool,
)
    requires
        r0.wf(),
        access_fits(r0, h, range),
        r0.texture_access_result(r1, h, range, req),
        req.access.spec_is_write(),
        range.mip_level_length > 0,
        range.array_layer_length > 0,
    ensures
        r0.texture_access_barriers(h, range, req, discard).len() > 0,
        forall|layer: int, mip: int|
            #[trigger] in_range(range, layer, mip) ==> r1.texture_states(h)[sub_index(
                mip,
                r0.textures_view()[h.resource as int].info.mip_levels as int,
                layer,
            )].access == req.access,
        forall|layer: int, mip: int|
            #[trigger] in_range(range, layer, mip) ==> exists|i: int|
                0 <= i < r0.texture_access_barriers(h, range, req, discard).len() && #[trigger] covers(
                    r0.texture_access_barriers(h, range, req, discard)[i],
                    layer,
                    mip,
                ) && r0.texture_access_barriers(h, range, req, discard)[i].transition.new_sync == req.stages
                    && r0.texture_access_barriers(h, range, req, discard)[i].transition.new_access == req.access
                    && r0.texture_access_barriers(h, range, req, discard)[i].transition.new_layout == req.layout,
{
    lemma_states_in_range(r0, r1, h, range, req);
    let info = r0.textures_view()[h.resource as int].info;
    let m = info.mip_levels as int;
    let bs = r0.texture_access_barriers(h, range, req, discard);
    lemma_access_barriers_exact(h, r0.texture_states(h), m, info.array_length as int, range, req, discard);
    assert forall|layer: int, mip: int| #[trigger] in_range(range, layer, mip) implies exists|i: int|
        0 <= i < bs.len() && #[trigger] covers(bs[i], layer, mip) && bs[i].transition.new_sync == req.stages
            && bs[i].transition.new_access == req.access && bs[i].transition.new_layout == req.layout by {
        lemma_write_replaces(r0.texture_states(h)[sub_index(mip, m, layer)], req);
        assert(pending(r0.texture_states(h), m, layer, mip, req, discard) is Some);
        let i = choose|i: int| 0 <= i < bs.len() && #[trigger] covers(bs[i], layer, mip);
        assert(pending(r0.texture_states(h), m, layer, mip, req, discard) == Some(bs[i].transition));
    }
    assert forall|layer: int, mip: int| in_range(range, layer, mip) implies needs_barrier(
        #[trigger] r0.texture_states(h)[sub_index(mip, m, layer)],
        req,
    ) by {
        lemma_write_replaces(r0.texture_states(h)[sub_index(mip, m, layer)], req);
    }
    assert forall|layer: int, mip: int| #[trigger] in_range(range, layer, mip) implies r1.texture_states(h)[sub_index(
        mip,
        m,
        layer,
    )].access == req.access by {
        lemma_write_replaces(r0.texture_states(h)[sub_index(mip, m, layer)], req);
    }
    lemma_barrier_needed(
        h,
        r0.texture_states(h),
        m,
        info.array_length as int,
        range,
        req,
        discard,
        range.array_layer_length as int,
    );
    lemma_merge_nonempty(texture_barriers(
        h,
        r0.texture_states(h),
        m,
        range,
        req,
        discard,
        range.array_layer_length as int,
    ));
}

/// The buffer instance `h` exists in the registry.
pub open spec fn buffer_fits(r: &RendererResources, h: InstanceHandle) -> bool {
    &&& h.resource < r.buffers_view().len()
    &&& slot_index(h.slot) < r.buffers_view()[h.resource as int].instances@.len()
}

/// Repeating a read-only access to a buffer needs no barrier and leaves its
/// state as it is: `r1` is `r0` after the first access.
pub proof fn lemma_buffer_repeated_read(r0: &RendererResources, r1: &RendererResources, h: InstanceHandle, req: SubresourceState)
    requires
        r0.wf(),
        buffer_fits(r0, h),
        r0.buffer_access_result(r1, h, req),
        !req.access.spec_is_write(),
    ensures
        r1.buffer_access_barrier(h, req).is_none(),
        state_after(r1.buffer_state(h), req) == r1.buffer_state(h),
{
    assert(r1.buffer_state(h) == state_after(r0.buffer_state(h), req));
    lemma_repeated_read_needs_no_barrier(r0.buffer_state(h), req);
}

/// After two reads of a buffer, a read whose stages and access kinds lie
/// within their union needs no barrier: `r1` is `r0` after the first read,
/// `r2` is `r1` after the second.
pub proof fn lemma_buffer_reads_coalesce(
    r0: &RendererResources,
    r1: &RendererResources,
    r2: &RendererResources,
    h: InstanceHandle,
    first: SubresourceState,
    second: SubresourceState,
    later: SubresourceState,
)
    requires
        r0.wf(),
        buffer_fits(r0, h),
        r0.buffer_access_result(r1, h, first),
        r1.buffer_access_result(r2, h, second),
        !first.access.spec_is_write(),
        !second.access.spec_is_write(),
        !later.access.spec_is_write(),
        first.layout == second.layout,
        later.layout == first.layout,
        bits_contain(first.stages.bits | second.stages.bits, later.stages.bits),
        bits_contain(first.access.bits | second.access.bits, later.access.bits),
    ensures
        r2.buffer_access_barrier(h, later).is_none(),
        state_after(r2.buffer_state(h), later) == r2.buffer_state(h),
{
    assert(r1.buffer_state(h) == state_after(r0.buffer_state(h), first));
    assert(r2.buffer_state(h) == state_after(r1.buffer_state(h), second));
    lemma_reads_coalesce(r0.buffer_state(h), first, second, later);
}

/// A write to a buffer always needs a barrier, whose new scope is the
/// write's, and the tracked access kinds become exactly the write's: `r1`
/// is `r0` after the write.
pub proof fn lemma_buffer_write_replaces(r0: &RendererResources, r1: &RendererResources, h: InstanceHandle, req: SubresourceState)
    requires
        r0.wf(),
        buffer_fits(r0, h),
        r0.buffer_access_result(r1, h, req),
        req.access.spec_is_write(),
    ensures
        r0.buffer_access_barrier(h, req) is Some,
        r0.buffer_access_barrier(h, req)->Some_0.transition.new_access == req.access,
        r0.buffer_access_barrier(h, req)->Some_0.transition.new_sync == req.stages,
        r1.buffer_state(h) == req,
{
    lemma_write_replaces(r0.buffer_state(h), req);
    assert(r1.buffer_state(h) == state_after(r0.buffer_state(h), req));
}

/// Two frames give every resource its first current and past instances
/// back: `r1` is `r0` after one `execute_frame`, `r2` is `r1` after another.
pub proof fn lemma_two_frames_restore(
    r0: &RendererResources,
    r1: &RendererResources,
    r2: &RendererResources,
    name: Seq<char>,
    history: HistoryResourceEntry,
)
    requires
        r0.wf(),
        r1.wf(),
        r2.wf(),
        r0.textures_view().len() == r1.textures_view().len(),
        r1.textures_view().len() == r2.textures_view().len(),
        r0.buffers_view().len() == r1.buffers_view().len(),
        r1.buffers_view().len() == r2.buffers_view().len(),
        forall|i: int|
            0 <= i < r0.textures_view().len() ==> (#[trigger] r0.textures_view()[i]).name == r1.textures_view()[i].name
                && r0.textures_view()[i].instances@.len() == r1.textures_view()[i].instances@.len()
                && r1.textures_view()[i].name == r2.textures_view()[i].name
                && r1.textures_view()[i].instances@.len() == r2.textures_view()[i].instances@.len(),
        forall|i: int|
            0 <= i < r0.buffers_view().len() ==> (#[trigger] r0.buffers_view()[i]).name == r1.buffers_view()[i].name
                && r0.buffers_view()[i].instances@.len() == r1.buffers_view()[i].instances@.len()
                && r1.buffers_view()[i].name == r2.buffers_view()[i].name
                && r1.buffers_view()[i].instances@.len() == r2.buffers_view()[i].instances@.len(),
        r1.current_slot() == other_slot(r0.current_slot()),
        r2.current_slot() == other_slot(r1.current_slot()),
    ensures
        r0.has_texture(name) ==> r2.texture_handle(name, history) == r0.texture_handle(name, history),
        r0.has_buffer(name) ==> r2.buffer_handle(name, history) == r0.buffer_handle(name, history),
{
    if r0.has_texture(name) {
        let i = r0.texture_index(name);
        assert(r0.textures_view()[i].name == r2.textures_view()[i].name);
        r2.lemma_texture_index(name, i);
    }
    if r0.has_buffer(name) {
        let i = r0.buffer_index(name);
        assert(r0.buffers_view()[i].name == r2.buffers_view()[i].name);
        r2.lemma_buffer_index(name, i);
    }
}

} // verus!
