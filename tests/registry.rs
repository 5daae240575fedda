use frame_graph::format::{Format, SampleCount};
use frame_graph::registry::{
    BufferInfo, HistoryResourceEntry, MemoryUsage, RendererResources, TextureInfo, TextureViewInfo,
    ViewKind,
};
use frame_graph::sync::{
    BarrierAccess, BarrierSync, TextureLayout, ACCESS_COPY_WRITE, ACCESS_RENDER_TARGET_WRITE,
    ACCESS_SAMPLING_READ, ACCESS_SHADER_READ, ACCESS_STORAGE_READ, ACCESS_STORAGE_WRITE,
    SYNC_COMPUTE_SHADER, SYNC_COPY, SYNC_FRAGMENT_SHADER, SYNC_RENDER_TARGET, SYNC_VERTEX_SHADER,
};
use frame_graph::tracking::{BarrierTextureRange, InstanceHandle, InstanceSlot};

fn image(mips: u32, layers: u32) -> TextureInfo {
    TextureInfo {
        format: Format::RGBA8UNorm,
        width: 64,
        height: 64,
        depth: 1,
        mip_levels: mips,
        array_length: layers,
        samples: SampleCount::Samples1,
    }
}

fn full(mips: u32, layers: u32) -> BarrierTextureRange {
    BarrierTextureRange { base_mip_level: 0, mip_level_length: mips, base_array_layer: 0, array_layer_length: layers }
}

fn sync(bits: u32) -> BarrierSync {
    BarrierSync::from_bits(bits)
}

fn access(bits: u32) -> BarrierAccess {
    BarrierAccess::from_bits(bits)
}

fn registry_with(name: &str, mips: u32, layers: u32, history: bool) -> RendererResources {
    let mut r = RendererResources::new();
    r.create_texture(name, &image(mips, layers), history);
    r
}

#[test]
fn repeated_read_needs_no_second_barrier() {
    let mut r = registry_with("color", 1, 1, false);
    let range = full(1, 1);
    let (_, first) = r.access_texture("color", &range, sync(SYNC_FRAGMENT_SHADER), access(ACCESS_SAMPLING_READ), TextureLayout::Sampled, false, HistoryResourceEntry::Current);
    assert_eq!(first.len(), 1);
    let (_, second) = r.access_texture("color", &range, sync(SYNC_FRAGMENT_SHADER), access(ACCESS_SAMPLING_READ), TextureLayout::Sampled, false, HistoryResourceEntry::Current);
    assert_eq!(second.len(), 0);
}

#[test]
fn disjoint_reads_coalesce() {
    let mut r = registry_with("color", 1, 1, false);
    let range = full(1, 1);
    let (_, a) = r.access_texture("color", &range, sync(SYNC_FRAGMENT_SHADER), access(ACCESS_SAMPLING_READ), TextureLayout::Sampled, false, HistoryResourceEntry::Current);
    assert_eq!(a.len(), 1);
    let (_, b) = r.access_texture("color", &range, sync(SYNC_COMPUTE_SHADER), access(ACCESS_SHADER_READ), TextureLayout::Sampled, false, HistoryResourceEntry::Current);
    assert_eq!(b.len(), 1);
    // The tracked state is now the union of both reads.
    let state = r.textures()[0].instances[0].subresources[0];
    assert_eq!(state.stages.bits, SYNC_FRAGMENT_SHADER | SYNC_COMPUTE_SHADER);
    assert_eq!(state.access.bits, ACCESS_SAMPLING_READ | ACCESS_SHADER_READ);
    // Any read within that union needs nothing more.
    let (_, c) = r.access_texture("color", &range, sync(SYNC_COMPUTE_SHADER), access(ACCESS_SAMPLING_READ), TextureLayout::Sampled, false, HistoryResourceEntry::Current);
    assert_eq!(c.len(), 0);
    let (_, d) = r.access_texture("color", &range, sync(SYNC_FRAGMENT_SHADER | SYNC_COMPUTE_SHADER), access(ACCESS_SAMPLING_READ | ACCESS_SHADER_READ), TextureLayout::Sampled, false, HistoryResourceEntry::Current);
    assert_eq!(d.len(), 0);
    // A stage outside the union needs a barrier again.
    let (_, e) = r.access_texture("color", &range, sync(SYNC_VERTEX_SHADER), access(ACCESS_SAMPLING_READ), TextureLayout::Sampled, false, HistoryResourceEntry::Current);
    assert_eq!(e.len(), 1);
}

#[test]
fn write_always_needs_barrier_and_replaces_access() {
    let mut r = registry_with("target", 1, 1, false);
    let range = full(1, 1);
    r.access_texture("target", &range, sync(SYNC_COMPUTE_SHADER), access(ACCESS_STORAGE_READ), TextureLayout::Storage, false, HistoryResourceEntry::Current);
    for _ in 0..3 {
        let (_, b) = r.access_texture("target", &range, sync(SYNC_COMPUTE_SHADER), access(ACCESS_STORAGE_WRITE), TextureLayout::Storage, false, HistoryResourceEntry::Current);
        assert_eq!(b.len(), 1);
        let state = r.textures()[0].instances[0].subresources[0];
        assert_eq!(state.access.bits, ACCESS_STORAGE_WRITE);
    }
    // A read after the write makes the write available and replaces the mask too.
    let (_, b) = r.access_texture("target", &range, sync(SYNC_COMPUTE_SHADER), access(ACCESS_STORAGE_READ), TextureLayout::Storage, false, HistoryResourceEntry::Current);
    assert_eq!(b.len(), 1);
    assert_eq!(b[0].transition.old_access.bits, ACCESS_STORAGE_WRITE);
    assert_eq!(r.textures()[0].instances[0].subresources[0].access.bits, ACCESS_STORAGE_READ);
}

#[test]
fn transition_records_old_and_new_state() {
    let mut r = registry_with("target", 1, 1, false);
    let range = full(1, 1);
    let (h, first) = r.access_texture("target", &range, sync(SYNC_RENDER_TARGET), access(ACCESS_RENDER_TARGET_WRITE), TextureLayout::RenderTarget, false, HistoryResourceEntry::Current);
    assert_eq!(h, InstanceHandle { resource: 0, slot: InstanceSlot::A });
    assert_eq!(first[0].transition.old_layout, TextureLayout::Undefined);
    assert_eq!(first[0].transition.new_layout, TextureLayout::RenderTarget);
    let (_, second) = r.access_texture("target", &range, sync(SYNC_FRAGMENT_SHADER), access(ACCESS_SAMPLING_READ), TextureLayout::Sampled, false, HistoryResourceEntry::Current);
    let t = second[0].transition;
    assert_eq!(t.old_sync.bits, SYNC_RENDER_TARGET);
    assert_eq!(t.new_sync.bits, SYNC_FRAGMENT_SHADER);
    assert_eq!(t.old_access.bits, ACCESS_RENDER_TARGET_WRITE);
    assert_eq!(t.new_access.bits, ACCESS_SAMPLING_READ);
    assert_eq!(t.old_layout, TextureLayout::RenderTarget);
    assert_eq!(t.new_layout, TextureLayout::Sampled);
}

#[test]
fn discard_drops_old_layout_and_writes() {
    let mut r = registry_with("scratch", 1, 1, false);
    let range = full(1, 1);
    r.access_texture("scratch", &range, sync(SYNC_COPY), access(ACCESS_COPY_WRITE), TextureLayout::CopyDst, false, HistoryResourceEntry::Current);
    let (_, b) = r.access_texture("scratch", &range, sync(SYNC_RENDER_TARGET), access(ACCESS_RENDER_TARGET_WRITE), TextureLayout::RenderTarget, true, HistoryResourceEntry::Current);
    assert_eq!(b.len(), 1);
    assert_eq!(b[0].transition.old_layout, TextureLayout::Undefined);
    assert_eq!(b[0].transition.old_access.bits, 0);
    assert_eq!(b[0].transition.old_sync.bits, SYNC_COPY);
}

#[test]
fn identical_transitions_merge_into_one_range() {
    let mut r = registry_with("chain", 4, 2, false);
    let (_, b) = r.access_texture("chain", &full(4, 2), sync(SYNC_FRAGMENT_SHADER), access(ACCESS_SAMPLING_READ), TextureLayout::Sampled, false, HistoryResourceEntry::Current);
    // Every subresource makes the same transition: one barrier over all of them.
    assert_eq!(b.len(), 1);
    assert_eq!(b[0].range, full(4, 2));
}

#[test]
fn layers_with_different_transitions_stay_apart() {
    let mut r = registry_with("cube", 2, 3, false);
    let layer1 = BarrierTextureRange { base_mip_level: 0, mip_level_length: 2, base_array_layer: 1, array_layer_length: 1 };
    r.access_texture("cube", &layer1, sync(SYNC_COMPUTE_SHADER), access(ACCESS_STORAGE_WRITE), TextureLayout::Storage, false, HistoryResourceEntry::Current);
    let (_, b) = r.access_texture("cube", &full(2, 3), sync(SYNC_FRAGMENT_SHADER), access(ACCESS_SAMPLING_READ), TextureLayout::Sampled, false, HistoryResourceEntry::Current);
    assert_eq!(b.len(), 3);
    assert_eq!(b[0].range, BarrierTextureRange { base_mip_level: 0, mip_level_length: 2, base_array_layer: 0, array_layer_length: 1 });
    assert_eq!(b[1].range, layer1);
    assert_eq!(b[1].transition.old_layout, TextureLayout::Storage);
    assert_eq!(b[2].range.base_array_layer, 2);
    // Once all layers agree again, one barrier covers the image.
    let (_, c) = r.access_texture("cube", &full(2, 3), sync(SYNC_COMPUTE_SHADER), access(ACCESS_STORAGE_WRITE), TextureLayout::Storage, false, HistoryResourceEntry::Current);
    assert_eq!(c.len(), 1);
    assert_eq!(c[0].range, full(2, 3));
}

#[test]
fn mip_ranges_are_tracked_independently() {
    let mut r = registry_with("chain", 4, 1, false);
    let all = full(4, 1);
    r.access_texture("chain", &all, sync(SYNC_FRAGMENT_SHADER), access(ACCESS_SAMPLING_READ), TextureLayout::Sampled, false, HistoryResourceEntry::Current);
    // Write mip 0 and read mips 1..3 in the same dispatch: two disjoint decisions.
    let mip0 = BarrierTextureRange { base_mip_level: 0, mip_level_length: 1, base_array_layer: 0, array_layer_length: 1 };
    let rest = BarrierTextureRange { base_mip_level: 1, mip_level_length: 3, base_array_layer: 0, array_layer_length: 1 };
    let (_, w) = r.access_texture("chain", &mip0, sync(SYNC_COMPUTE_SHADER), access(ACCESS_STORAGE_WRITE), TextureLayout::Storage, false, HistoryResourceEntry::Current);
    assert_eq!(w.len(), 1);
    assert_eq!(w[0].range, mip0);
    let (_, s) = r.access_texture("chain", &rest, sync(SYNC_FRAGMENT_SHADER), access(ACCESS_SAMPLING_READ), TextureLayout::Sampled, false, HistoryResourceEntry::Current);
    assert_eq!(s.len(), 0);
    let subs = &r.textures()[0].instances[0].subresources;
    assert_eq!(subs[0].layout, TextureLayout::Storage);
    assert_eq!(subs[1].layout, TextureLayout::Sampled);
    assert_eq!(subs[3].layout, TextureLayout::Sampled);
}

#[test]
fn runs_split_where_transitions_differ() {
    let mut r = registry_with("chain", 4, 1, false);
    let mip1 = BarrierTextureRange { base_mip_level: 1, mip_level_length: 1, base_array_layer: 0, array_layer_length: 1 };
    r.access_texture("chain", &mip1, sync(SYNC_COMPUTE_SHADER), access(ACCESS_STORAGE_WRITE), TextureLayout::Storage, false, HistoryResourceEntry::Current);
    let (_, b) = r.access_texture("chain", &full(4, 1), sync(SYNC_FRAGMENT_SHADER), access(ACCESS_SAMPLING_READ), TextureLayout::Sampled, false, HistoryResourceEntry::Current);
    assert_eq!(b.len(), 3);
    assert_eq!((b[0].range.base_mip_level, b[0].range.mip_level_length), (0, 1));
    assert_eq!((b[1].range.base_mip_level, b[1].range.mip_level_length), (1, 1));
    assert_eq!((b[2].range.base_mip_level, b[2].range.mip_level_length), (2, 2));
    assert_eq!(b[1].transition.old_layout, TextureLayout::Storage);
}

#[test]
fn history_resolves_and_swaps() {
    let mut r = registry_with("accum", 1, 1, true);
    let range = full(1, 1);
    let (cur, _) = r.access_texture("accum", &range, sync(SYNC_COMPUTE_SHADER), access(ACCESS_STORAGE_WRITE), TextureLayout::Storage, false, HistoryResourceEntry::Current);
    let (past, _) = r.access_texture("accum", &range, sync(SYNC_COMPUTE_SHADER), access(ACCESS_STORAGE_READ), TextureLayout::Storage, false, HistoryResourceEntry::Past);
    assert_eq!(cur.slot, InstanceSlot::A);
    assert_eq!(past.slot, InstanceSlot::B);
    r.swap_history_resources();
    let (past2, _) = r.access_texture("accum", &range, sync(SYNC_COMPUTE_SHADER), access(ACCESS_STORAGE_READ), TextureLayout::Storage, false, HistoryResourceEntry::Past);
    assert_eq!(past2, cur);
}

#[test]
fn swapping_twice_restores_roles() {
    let mut r = registry_with("accum", 1, 1, true);
    r.create_texture("plain", &image(1, 1), false);
    let range = full(1, 1);
    let before = r.current_pass();
    let (a, _) = r.access_texture("accum", &range, sync(SYNC_FRAGMENT_SHADER), access(ACCESS_SAMPLING_READ), TextureLayout::Sampled, false, HistoryResourceEntry::Current);
    r.swap_history_resources();
    let (mid, _) = r.access_texture("accum", &range, sync(SYNC_FRAGMENT_SHADER), access(ACCESS_SAMPLING_READ), TextureLayout::Sampled, false, HistoryResourceEntry::Current);
    assert_ne!(mid, a);
    r.swap_history_resources();
    let (b, _) = r.access_texture("accum", &range, sync(SYNC_FRAGMENT_SHADER), access(ACCESS_SAMPLING_READ), TextureLayout::Sampled, false, HistoryResourceEntry::Current);
    assert_eq!(a, b);
    assert_eq!(r.current_pass(), before);
    // A resource without history always resolves to its one instance.
    let (p, _) = r.access_texture("plain", &range, sync(SYNC_FRAGMENT_SHADER), access(ACCESS_SAMPLING_READ), TextureLayout::Sampled, false, HistoryResourceEntry::Current);
    assert_eq!(p.slot, InstanceSlot::A);
}

#[test]
fn views_are_cached_per_descriptor() {
    let mut r = registry_with("color", 2, 1, false);
    let info = TextureViewInfo { base_mip_level: 0, mip_level_length: 1, base_array_layer: 0, array_layer_length: 1, format: None };
    let other = TextureViewInfo { base_mip_level: 1, ..info };
    let v1 = r.get_sampling_view("color", &info, HistoryResourceEntry::Current);
    let v2 = r.get_sampling_view("color", &info, HistoryResourceEntry::Current);
    let v3 = r.get_sampling_view("color", &other, HistoryResourceEntry::Current);
    let s1 = r.get_storage_view("color", &info, HistoryResourceEntry::Current);
    assert_eq!(v1, v2);
    assert_eq!(v1.index, 0);
    assert_eq!(v3.index, 1);
    assert_eq!(s1.kind, ViewKind::Storage);
    assert_eq!(s1.index, 2);
    assert_eq!(r.textures()[0].instances[0].views.len(), 3);
}

#[test]
fn typed_view_accessors_track_their_range() {
    let mut r = registry_with("color", 2, 1, false);
    let info = TextureViewInfo { base_mip_level: 1, mip_level_length: 1, base_array_layer: 0, array_layer_length: 1, format: None };
    let (view, b) = r.access_sampling_view("color", sync(SYNC_FRAGMENT_SHADER), access(ACCESS_SAMPLING_READ), TextureLayout::Sampled, false, &info, HistoryResourceEntry::Current);
    assert_eq!(view.kind, ViewKind::Sampling);
    assert_eq!(b.len(), 1);
    assert_eq!(b[0].range.base_mip_level, 1);
    assert_eq!(r.textures()[0].instances[0].subresources[0].layout, TextureLayout::Undefined);
    let (rt, b2) = r.access_render_target_view("color", sync(SYNC_RENDER_TARGET), access(ACCESS_RENDER_TARGET_WRITE), TextureLayout::RenderTarget, true, &info, HistoryResourceEntry::Current);
    assert_eq!(rt.kind, ViewKind::RenderTarget);
    assert_eq!(b2.len(), 1);
    let (st, _) = r.access_storage_view("color", sync(SYNC_COMPUTE_SHADER), access(ACCESS_STORAGE_WRITE), TextureLayout::Storage, false, &info, HistoryResourceEntry::Current);
    assert_eq!(st.kind, ViewKind::Storage);
}

#[test]
fn depth_stencil_view_access() {
    let mut r = RendererResources::new();
    let mut info = image(1, 1);
    info.format = Format::D32;
    r.create_texture("depth", &info, false);
    let view = TextureViewInfo { base_mip_level: 0, mip_level_length: 1, base_array_layer: 0, array_layer_length: 1, format: None };
    let (v, b) = r.access_depth_stencil_view(
        "depth",
        sync(frame_graph::sync::SYNC_EARLY_DEPTH | frame_graph::sync::SYNC_LATE_DEPTH),
        access(frame_graph::sync::ACCESS_DEPTH_STENCIL_WRITE),
        TextureLayout::DepthStencilReadWrite,
        true,
        &view,
        HistoryResourceEntry::Current,
    );
    assert_eq!(v.kind, ViewKind::DepthStencil);
    assert_eq!(b.len(), 1);
    assert_eq!(b[0].transition.new_layout, TextureLayout::DepthStencilReadWrite);
}

#[test]
fn buffer_access_follows_the_same_rules() {
    let mut r = RendererResources::new();
    r.create_buffer("lights", &BufferInfo { size: 256, usage: 0 }, MemoryUsage::GpuOnly, false);
    let (h, w) = r.access_buffer("lights", sync(SYNC_COMPUTE_SHADER), access(ACCESS_STORAGE_WRITE), HistoryResourceEntry::Current);
    assert_eq!(h, InstanceHandle { resource: 0, slot: InstanceSlot::A });
    assert!(w.is_some());
    let (_, r1) = r.access_buffer("lights", sync(SYNC_FRAGMENT_SHADER), access(ACCESS_STORAGE_READ), HistoryResourceEntry::Current);
    let b = r1.unwrap();
    assert_eq!(b.transition.old_access.bits, ACCESS_STORAGE_WRITE);
    let (_, r2) = r.access_buffer("lights", sync(SYNC_FRAGMENT_SHADER), access(ACCESS_STORAGE_READ), HistoryResourceEntry::Current);
    assert!(r2.is_none());
    assert_eq!(r.buffer_info("lights").size, 256);
}

#[test]
fn registry_queries() {
    let mut r = RendererResources::new();
    r.create_texture("a", &image(3, 2), true);
    r.create_buffer("b", &BufferInfo { size: 16, usage: 1 }, MemoryUsage::CpuToGpu, true);
    assert!(r.contains_texture("a"));
    assert!(!r.contains_texture("b"));
    assert!(r.contains_buffer("b"));
    assert!(r.texture_has_history("a"));
    assert_eq!(r.texture_info("a").mip_levels, 3);
    assert_eq!(r.textures()[0].instances.len(), 2);
    assert_eq!(r.textures()[0].instances[1].subresources.len(), 6);
    assert_eq!(r.buffers()[0].instances.len(), 2);
}

#[test]
fn runs_around_an_accessed_mip_merge_across_layers() {
    let mut r = registry_with("chain", 5, 2, false);
    let mip2 = BarrierTextureRange { base_mip_level: 2, mip_level_length: 1, base_array_layer: 0, array_layer_length: 2 };
    r.access_texture("chain", &mip2, sync(SYNC_FRAGMENT_SHADER), access(ACCESS_SAMPLING_READ), TextureLayout::Sampled, false, HistoryResourceEntry::Current);
    let (_, b) = r.access_texture("chain", &full(5, 2), sync(SYNC_FRAGMENT_SHADER), access(ACCESS_SAMPLING_READ), TextureLayout::Sampled, false, HistoryResourceEntry::Current);
    assert_eq!(b.len(), 2);
    assert_eq!(b[0].range, BarrierTextureRange { base_mip_level: 0, mip_level_length: 2, base_array_layer: 0, array_layer_length: 2 });
    assert_eq!(b[1].range, BarrierTextureRange { base_mip_level: 3, mip_level_length: 2, base_array_layer: 0, array_layer_length: 2 });
}
