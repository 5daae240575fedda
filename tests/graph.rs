use frame_graph::executor::{
    execute_frame, register_outputs, ExternalKind, ExternalResource, RenderGraphResourceError,
    ResolvedResource, VkRenderGraphResources,
};
use frame_graph::format::{Format, SampleCount};
use frame_graph::registry::{BufferInfo, RendererResources, TextureInfo};
use frame_graph::schedule::{
    reorder_passes, InputUsage, LoadAction, OutputResource, PassInfo, PassInput, PassOutput,
    PassType, ScheduleError, StoreAction, BACK_BUFFER_ATTACHMENT_NAME,
};
use frame_graph::sync::{
    TextureLayout, ACCESS_RENDER_TARGET_WRITE, ACCESS_SHADER_READ, ACCESS_STORAGE_WRITE,
    SYNC_COMPUTE_SHADER, SYNC_FRAGMENT_SHADER, SYNC_RENDER_TARGET,
};
use frame_graph::template::{AttachmentProducerPassType, can_fuse, group_passes, DependencySource, RenderGraphTemplate, RenderPassGroup};
use frame_graph::tracking::InstanceSlot;

fn tex(format: Format) -> OutputResource {
    OutputResource::Texture(TextureInfo {
        format,
        width: 128,
        height: 72,
        depth: 1,
        mip_levels: 1,
        array_length: 1,
        samples: SampleCount::Samples1,
    })
}

fn input(name: &str, usage: InputUsage, is_history: bool) -> PassInput {
    PassInput { name: name.to_string(), usage, is_history }
}

fn output(name: &str, resource: OutputResource, has_history: bool) -> PassOutput {
    PassOutput {
        name: name.to_string(),
        resource,
        has_history,
        load_action: LoadAction::Clear,
        store_action: StoreAction::Store,
    }
}

fn pass(name: &str, pass_type: PassType, inputs: Vec<PassInput>, outputs: Vec<PassOutput>) -> PassInfo {
    PassInfo { name: name.to_string(), pass_type, inputs, outputs }
}

fn names(passes: &[PassInfo], order: &[usize]) -> Vec<String> {
    order.iter().map(|&i| passes[i].name.clone()).collect()
}

/// Depth writes "Z"; Geometry reads "Z" and writes "Color"; Temporal reads
/// "Color" and last frame's "Accum" and writes "Accum", which keeps history.
/// Declared in reverse so that the order has to be found.
fn temporal_passes() -> Vec<PassInfo> {
    vec![
        pass(
            "Temporal",
            PassType::Compute,
            vec![input("Color", InputUsage::Sampled, false), input("Accum", InputUsage::Sampled, true)],
            vec![output("Accum", tex(Format::RGBA16Float), true)],
        ),
        pass(
            "Geometry",
            PassType::Graphics,
            vec![input("Z", InputUsage::Sampled, false)],
            vec![output("Color", tex(Format::RGBA8UNorm), false)],
        ),
        pass("Depth", PassType::Graphics, vec![], vec![output("Z", tex(Format::D32), false)]),
    ]
}

fn respects_producers(passes: &[PassInfo], order: &[usize]) -> bool {
    for (pos, &p) in order.iter().enumerate() {
        for inp in &passes[p].inputs {
            if inp.is_history {
                continue;
            }
            for (qpos, &q) in order.iter().enumerate() {
                if q != p && passes[q].outputs.iter().any(|o| o.name == inp.name) && qpos >= pos {
                    return false;
                }
            }
        }
    }
    true
}

#[test]
fn end_to_end_temporal_scenario() {
    let passes = temporal_passes();
    let template = RenderGraphTemplate::new(&passes).unwrap();
    assert_eq!(names(&passes, &template.order), vec!["Depth", "Geometry", "Temporal"]);

    let mut resources = RendererResources::new();
    register_outputs(&mut resources, &passes);
    assert!(resources.texture_has_history("Accum"));
    let accum = resources.textures().iter().position(|t| t.name == "Accum").unwrap();

    // Frame 1: Temporal writes the current instance of Accum.
    let frame1 = execute_frame(&mut resources, &template);
    assert_eq!(frame1.len(), 3);
    let temporal1 = &frame1[2];
    assert_eq!(temporal1.pass, 0);
    let written1 = temporal1
        .texture_barriers
        .iter()
        .find(|b| b.texture.resource == accum && b.transition.new_access.bits == ACCESS_STORAGE_WRITE)
        .unwrap()
        .texture;

    // Frame 2: the history read of Accum targets what frame 1 wrote.
    let frame2 = execute_frame(&mut resources, &template);
    let temporal2 = &frame2[2];
    let read2 = temporal2
        .texture_barriers
        .iter()
        .find(|b| b.texture.resource == accum && b.transition.new_access.bits == ACCESS_SHADER_READ)
        .unwrap()
        .texture;
    assert_eq!(read2, written1);
    let written2 = temporal2
        .texture_barriers
        .iter()
        .find(|b| b.texture.resource == accum && b.transition.new_access.bits == ACCESS_STORAGE_WRITE)
        .unwrap()
        .texture;
    assert_ne!(written2, written1);

    // Frame 3: the history read now targets frame 2's write, not frame 1's.
    let frame3 = execute_frame(&mut resources, &template);
    let read3 = frame3[2]
        .texture_barriers
        .iter()
        .find(|b| b.texture.resource == accum && b.transition.new_access.bits == ACCESS_SHADER_READ)
        .unwrap()
        .texture;
    assert_eq!(read3, written2);
    assert_ne!(read3, written1);
}

#[test]
fn schedule_puts_producers_first() {
    let passes = vec![
        pass("Lighting", PassType::Compute, vec![input("GBuffer", InputUsage::Sampled, false), input("Shadow", InputUsage::Sampled, false)], vec![output("Lit", tex(Format::RGBA16Float), false)]),
        pass("Post", PassType::Compute, vec![input("Lit", InputUsage::Storage, false)], vec![output("Final", tex(Format::RGBA8UNorm), false)]),
        pass("Shadow", PassType::Graphics, vec![], vec![output("Shadow", tex(Format::D32), false)]),
        pass("GBuffer", PassType::Graphics, vec![input("Noise", InputUsage::Sampled, false)], vec![output("GBuffer", tex(Format::RGBA8UNorm), false)]),
    ];
    let order = reorder_passes(&passes).unwrap();
    assert_eq!(order.len(), 4);
    assert!(respects_producers(&passes, &order));
    // "Noise" comes from outside the graph, so GBuffer is ready at once.
    assert_eq!(names(&passes, &order), vec!["Shadow", "GBuffer", "Lighting", "Post"]);
}

#[test]
fn schedule_prefers_older_producers() {
    // After A and B, both X (reads A's output) and Y (reads B's) are ready.
    // X's input was produced further back, so X goes first although Y was
    // declared first.
    let passes = vec![
        pass("Y", PassType::Compute, vec![input("b", InputUsage::Sampled, false)], vec![output("y", tex(Format::R32Float), false)]),
        pass("X", PassType::Compute, vec![input("a", InputUsage::Sampled, false)], vec![output("x", tex(Format::R32Float), false)]),
        pass("A", PassType::Compute, vec![], vec![output("a", tex(Format::R32Float), false)]),
        pass("B", PassType::Compute, vec![], vec![output("b", tex(Format::R32Float), false)]),
    ];
    let order = reorder_passes(&passes).unwrap();
    assert_eq!(names(&passes, &order), vec!["A", "B", "X", "Y"]);
}

#[test]
fn schedule_ties_go_to_the_earlier_declaration() {
    let passes = vec![
        pass("D", PassType::Compute, vec![input("b", InputUsage::Sampled, false)], vec![output("d", tex(Format::R32Float), false)]),
        pass("C", PassType::Compute, vec![input("a", InputUsage::Sampled, false)], vec![output("c", tex(Format::R32Float), false)]),
        pass("A", PassType::Compute, vec![], vec![output("a", tex(Format::R32Float), false)]),
        pass("B", PassType::Compute, vec![input("a", InputUsage::Sampled, false)], vec![output("b", tex(Format::R32Float), false)]),
    ];
    let order = reorder_passes(&passes).unwrap();
    assert_eq!(names(&passes, &order), vec!["A", "C", "B", "D"]);
}

#[test]
fn mutual_dependency_is_rejected() {
    let passes = vec![
        pass("One", PassType::Compute, vec![input("B", InputUsage::Sampled, false)], vec![output("A", tex(Format::R32Float), false)]),
        pass("Two", PassType::Compute, vec![input("A", InputUsage::Sampled, false)], vec![output("B", tex(Format::R32Float), false)]),
    ];
    let first = reorder_passes(&passes);
    let second = reorder_passes(&passes);
    assert_eq!(first, Err(ScheduleError::Cycle { remaining: vec![0, 1] }));
    assert_eq!(first, second);
    assert!(RenderGraphTemplate::new(&passes).is_err());
}

#[test]
fn cycle_reports_only_stuck_passes() {
    let passes = vec![
        pass("Source", PassType::Compute, vec![], vec![output("S", tex(Format::R32Float), false)]),
        pass("One", PassType::Compute, vec![input("S", InputUsage::Sampled, false), input("B", InputUsage::Sampled, false)], vec![output("A", tex(Format::R32Float), false)]),
        pass("Two", PassType::Compute, vec![input("A", InputUsage::Sampled, false)], vec![output("B", tex(Format::R32Float), false)]),
    ];
    assert_eq!(reorder_passes(&passes), Err(ScheduleError::Cycle { remaining: vec![1, 2] }));
}

#[test]
fn history_inputs_do_not_order() {
    let passes = vec![
        pass("Reader", PassType::Compute, vec![input("H", InputUsage::Sampled, true)], vec![output("R", tex(Format::R32Float), false)]),
        pass("Writer", PassType::Compute, vec![input("R", InputUsage::Sampled, true)], vec![output("H", tex(Format::R32Float), true)]),
    ];
    assert_eq!(reorder_passes(&passes).unwrap(), vec![0, 1]);
}

#[test]
fn empty_pass_set_schedules_to_nothing() {
    let passes: Vec<PassInfo> = vec![];
    assert_eq!(reorder_passes(&passes).unwrap(), Vec::<usize>::new());
    let t = RenderGraphTemplate::new(&passes).unwrap();
    assert!(t.groups.is_empty());
    assert!(t.passes.is_empty());
}

#[test]
fn graphics_passes_with_same_attachments_fuse() {
    let passes = vec![
        pass("Opaque", PassType::Graphics, vec![], vec![output("Color", tex(Format::RGBA8UNorm), false), output("Depth", tex(Format::D32), false)]),
        pass("Decals", PassType::Graphics, vec![input("Color", InputUsage::InputAttachment, false)], vec![output("Depth", tex(Format::D32), false), output("Color", tex(Format::RGBA8UNorm), false)]),
        pass("Bloom", PassType::Compute, vec![input("Color", InputUsage::Sampled, false)], vec![output("Bloom", tex(Format::RGBA16Float), false)]),
        pass("UI", PassType::Graphics, vec![input("Bloom", InputUsage::Sampled, false)], vec![output("Final", tex(Format::RGBA8UNorm), false)]),
    ];
    assert!(can_fuse(&passes[0], &passes[1]));
    assert!(!can_fuse(&passes[1], &passes[2]));
    assert!(!can_fuse(&passes[0], &passes[3]));
    let order = vec![0, 1, 2, 3];
    let groups = group_passes(&passes, &order);
    assert_eq!(groups, vec![
        RenderPassGroup { first: 0, len: 2 },
        RenderPassGroup { first: 2, len: 1 },
        RenderPassGroup { first: 3, len: 1 },
    ]);

    let t = RenderGraphTemplate::new(&passes).unwrap();
    assert_eq!(t.order, order);
    // Decals reads Color from the subpass before it: a tile-local dependency, no barrier,
    // and its attachments are already held by the render pass.
    let decals = &t.passes[1];
    assert_eq!((decals.group, decals.subpass), (0, 1));
    assert_eq!(decals.dependencies.len(), 1);
    assert_eq!(decals.dependencies[0].source, DependencySource::Subpass(0));
    assert!(decals.dependencies[0].by_region);
    assert_eq!(decals.dependencies[0].producer, Some(AttachmentProducerPassType::Graphics));
    assert!(decals.barriers.is_empty());
    // UI reads Bloom from outside its render pass.
    let ui = &t.passes[3];
    assert_eq!(ui.dependencies[0].source, DependencySource::External);
    assert!(!ui.dependencies[0].by_region);
    assert_eq!(ui.dependencies[0].producer, Some(AttachmentProducerPassType::Compute));
    assert_eq!(ui.barriers.len(), 2);
    assert_eq!(ui.barriers[0].name, "Bloom");
    assert_eq!(ui.barriers[0].stages.bits, SYNC_FRAGMENT_SHADER);
    assert_eq!(ui.barriers[0].layout, TextureLayout::Sampled);
    assert_eq!(ui.barriers[1].name, "Final");
    assert_eq!(ui.barriers[1].stages.bits, SYNC_RENDER_TARGET);
    assert_eq!(ui.barriers[1].access.bits, ACCESS_RENDER_TARGET_WRITE);
    assert!(ui.barriers[1].discard);
    // Opaque writes a depth attachment with the depth stages.
    let opaque = &t.passes[0];
    assert_eq!(opaque.barriers.len(), 2);
    assert_eq!(opaque.barriers[1].layout, TextureLayout::DepthStencilReadWrite);
}

#[test]
fn compute_templates_read_and_write_storage() {
    let passes = vec![
        pass("Blur", PassType::Compute, vec![input("In", InputUsage::Storage, false)], vec![output("Out", tex(Format::RGBA16Float), false)]),
    ];
    let t = RenderGraphTemplate::new(&passes).unwrap();
    let blur = &t.passes[0];
    assert!(blur.dependencies.is_empty());
    assert_eq!(blur.barriers.len(), 2);
    assert_eq!(blur.barriers[0].stages.bits, SYNC_COMPUTE_SHADER);
    assert_eq!(blur.barriers[0].layout, TextureLayout::Storage);
    assert_eq!(blur.barriers[1].access.bits, ACCESS_STORAGE_WRITE);
}

#[test]
fn frames_flip_history_and_keep_resources() {
    let passes = vec![
        pass("Sim", PassType::Compute, vec![input("State", InputUsage::Storage, true)], vec![output("State", OutputResource::Buffer(BufferInfo { size: 1024, usage: 0 }), true)]),
    ];
    let t = RenderGraphTemplate::new(&passes).unwrap();
    let mut resources = RendererResources::new();
    register_outputs(&mut resources, &passes);
    assert!(resources.contains_buffer("State"));
    let start = resources.current_pass();
    let f1 = execute_frame(&mut resources, &t);
    assert_ne!(resources.current_pass(), start);
    assert_eq!(f1[0].buffer_barriers.len(), 2);
    // The read of last frame's state and the write of this frame's go to different instances.
    assert_ne!(f1[0].buffer_barriers[0].buffer, f1[0].buffer_barriers[1].buffer);
    execute_frame(&mut resources, &t);
    assert_eq!(resources.current_pass(), start);
    assert_eq!(resources.buffers().len(), 1);
    assert_eq!(resources.current_pass(), InstanceSlot::A);
}

#[test]
fn passes_resolve_what_they_declared() {
    let passes = temporal_passes();
    let mut resources = RendererResources::new();
    register_outputs(&mut resources, &passes);
    resources.create_buffer("Exposure", &BufferInfo { size: 4, usage: 0 }, frame_graph::registry::MemoryUsage::GpuOnly, false);
    let external = vec![
        ExternalResource { name: "BlueNoise".to_string(), kind: ExternalKind::Texture },
        ExternalResource { name: "Camera".to_string(), kind: ExternalKind::Buffer },
    ];
    let accum = resources.textures().iter().position(|t| t.name == "Accum").unwrap();
    let view = VkRenderGraphResources { resources: &resources, external: &external, pass: &passes[0] };
    // Temporal reads Color and both instances of Accum.
    assert!(matches!(view.get_texture("Color", false), Ok(ResolvedResource::Owned(_))));
    let current = view.get_texture("Accum", false).unwrap();
    let past = view.get_texture("Accum", true).unwrap();
    assert_eq!(current, ResolvedResource::Owned(frame_graph::tracking::InstanceHandle { resource: accum, slot: InstanceSlot::A }));
    assert_eq!(past, ResolvedResource::Owned(frame_graph::tracking::InstanceHandle { resource: accum, slot: InstanceSlot::B }));
    // Z is tracked but Temporal did not declare it.
    assert_eq!(view.get_texture("Z", false), Err(RenderGraphResourceError::NotAllowed));
    // Color keeps no history.
    assert_eq!(view.get_texture("Color", true), Err(RenderGraphResourceError::NoHistory));
    // Outside resources by kind.
    assert_eq!(view.get_texture("BlueNoise", false), Ok(ResolvedResource::External(0)));
    assert_eq!(view.get_buffer("Camera", false), Ok(ResolvedResource::External(1)));
    assert_eq!(view.get_buffer("BlueNoise", false), Err(RenderGraphResourceError::WrongResourceType));
    assert_eq!(view.get_texture("Missing", false), Err(RenderGraphResourceError::NotFound));
    // A tracked texture asked for as a buffer.
    assert_eq!(view.get_buffer("Accum", false), Err(RenderGraphResourceError::WrongResourceType));
    // A tracked buffer the pass did not declare.
    assert_eq!(view.get_buffer("Exposure", false), Err(RenderGraphResourceError::NotAllowed));
}

#[test]
fn presenting_graphs_are_marked() {
    let passes = vec![
        pass("Scene", PassType::Graphics, vec![], vec![output("Color", tex(Format::RGBA8UNorm), false)]),
        pass("Blit", PassType::Graphics, vec![input("Color", InputUsage::Sampled, false)], vec![output(BACK_BUFFER_ATTACHMENT_NAME, tex(Format::BGRA8UNorm), false)]),
    ];
    let t = RenderGraphTemplate::new(&passes).unwrap();
    assert!(t.renders_to_swapchain);
    assert!(!t.passes[0].renders_to_swapchain);
    assert!(t.passes[1].renders_to_swapchain);
    let offscreen = vec![pass("Scene", PassType::Graphics, vec![], vec![output("Color", tex(Format::RGBA8UNorm), false)])];
    assert!(!RenderGraphTemplate::new(&offscreen).unwrap().renders_to_swapchain);
}

#[test]
fn presented_image_must_not_be_loaded_or_discarded() {
    let mut loaded = output(BACK_BUFFER_ATTACHMENT_NAME, tex(Format::BGRA8UNorm), false);
    loaded.load_action = LoadAction::Load;
    let passes = vec![
        pass("Scene", PassType::Graphics, vec![], vec![output("Color", tex(Format::RGBA8UNorm), false)]),
        pass("Blit", PassType::Graphics, vec![], vec![loaded]),
    ];
    assert_eq!(RenderGraphTemplate::new(&passes).err(), Some(ScheduleError::BackBufferLoaded { pass: 1 }));
    let mut discarded = output(BACK_BUFFER_ATTACHMENT_NAME, tex(Format::BGRA8UNorm), false);
    discarded.store_action = StoreAction::DontCare;
    let passes = vec![pass("Blit", PassType::Graphics, vec![], vec![discarded])];
    assert_eq!(RenderGraphTemplate::new(&passes).err(), Some(ScheduleError::BackBufferDiscarded { pass: 0 }));
}

#[test]
fn graphics_buffer_outputs_and_external_inputs_replay() {
    let passes = vec![
        pass(
            "Scatter",
            PassType::Graphics,
            vec![input("BlueNoise", InputUsage::Sampled, false)],
            vec![output("Counts", OutputResource::Buffer(BufferInfo { size: 64, usage: 0 }), false)],
        ),
    ];
    let t = RenderGraphTemplate::new(&passes).unwrap();
    let scatter = &t.passes[0];
    assert_eq!(scatter.barriers.len(), 2);
    assert_eq!(scatter.barriers[0].access.bits, ACCESS_SHADER_READ);
    assert_eq!(scatter.barriers[1].stages.bits, SYNC_FRAGMENT_SHADER);
    assert_eq!(scatter.barriers[1].access.bits, ACCESS_STORAGE_WRITE);
    let mut resources = RendererResources::new();
    register_outputs(&mut resources, &passes);
    assert!(frame_graph::executor::replayable(&resources, &scatter.barriers[0]));
    assert!(frame_graph::executor::replayable(&resources, &scatter.barriers[1]));
    let frame = execute_frame(&mut resources, &t);
    // The outside texture gets no barrier from the graph; the buffer write does.
    assert!(frame[0].texture_barriers.is_empty());
    assert_eq!(frame[0].buffer_barriers.len(), 1);
}
