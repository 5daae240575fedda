//! Per-frame replay of a render graph template against the registry.
use vstd::prelude::*;

use crate::registry::{
    buffer_domain, request, subresource_count, HistoryResourceEntry, RendererResources,
    TrackedBufferEntry, TrackedTextureEntry, other_slot,
};
use crate::schedule::{is_permutation, produces, InputUsage, OutputResource, PassInfo};
use crate::template::{
    from_input, input_template_matches, lemma_input_templates_member, lemma_position_in_group,
    lemma_template_accesses_buffer_legal, output_template_matches, pass_template_ok, produces_name,
};
use crate::sync::{
    BarrierAccess, BarrierSync, TextureLayout, ACCESS_ACCELERATION_STRUCTURE_READ,
    ACCESS_ACCELERATION_STRUCTURE_WRITE, ACCESS_CONSTANT_READ, ACCESS_COPY_READ, ACCESS_COPY_WRITE,
    ACCESS_HOST_READ, ACCESS_HOST_WRITE, ACCESS_INDEX_READ, ACCESS_INDIRECT_READ, ACCESS_MEMORY_READ,
    ACCESS_MEMORY_WRITE, ACCESS_SHADER_READ, ACCESS_SHADER_WRITE, ACCESS_STORAGE_READ,
    ACCESS_STORAGE_WRITE, ACCESS_VERTEX_INPUT_READ, SYNC_ACCELERATION_STRUCTURE_BUILD,
    SYNC_COMPUTE_SHADER, SYNC_COPY, SYNC_FRAGMENT_SHADER, SYNC_INDEX_INPUT, SYNC_INDIRECT,
    SYNC_RAY_TRACING, SYNC_VERTEX_INPUT, SYNC_VERTEX_SHADER,
};
use crate::template::{BarrierTemplate, PassTemplate, RenderGraphTemplate};
use crate::tracking::{BarrierTextureRange, BufferBarrier, InstanceHandle, TextureBarrier};

verus! {

/// The barriers recorded for one pass of a frame, in the order of its
/// barrier templates, before the pass's own commands.
pub struct PassRecording {
    pub pass: usize,
    pub group: usize,
    pub subpass: usize,
    pub texture_barriers: Vec<TextureBarrier>,
    pub buffer_barriers: Vec<BufferBarrier>,
}

pub open spec fn history_entry(is_history: bool) -> HistoryResourceEntry {
    if is_history {
        HistoryResourceEntry::Past
    } else {
        HistoryResourceEntry::Current
    }
}

/// The whole of an image: every mip level of every layer.
pub open spec fn full_range(info: crate::registry::TextureInfo) -> BarrierTextureRange {
    BarrierTextureRange {
        base_mip_level: 0,
        mip_level_length: info.mip_levels,
        base_array_layer: 0,
        array_layer_length: info.array_length,
    }
}

/// The two registries track the same resources, by the same names and
/// descriptors, with the same number of instances.
pub open spec fn same_resources(a: &RendererResources, b: &RendererResources) -> bool {
    &&& a.textures_view().len() == b.textures_view().len()
    &&& forall|i: int|
        0 <= i < a.textures_view().len() ==> same_texture(#[trigger] a.textures_view()[i], b.textures_view()[i])
    &&& a.buffers_view().len() == b.buffers_view().len()
    &&& forall|i: int|
        0 <= i < a.buffers_view().len() ==> same_buffer(#[trigger] a.buffers_view()[i], b.buffers_view()[i])
}

pub open spec fn same_texture(a: TrackedTextureEntry, b: TrackedTextureEntry) -> bool {
    &&& a.name == b.name
    &&& a.info == b.info
    &&& a.instances@.len() == b.instances@.len()
}

pub open spec fn same_buffer(a: TrackedBufferEntry, b: TrackedBufferEntry) -> bool {
    &&& a.name == b.name
    &&& a.info == b.info
    &&& a.memory_usage == b.memory_usage
    &&& a.instances@.len() == b.instances@.len()
}

/// The registry can replay the access: where it names a tracked image, or
/// else a tracked buffer used within the buffers' stages and access kinds,
/// that resource has a past instance if the access asks for one. A name the
/// registry does not track belongs to a resource from outside the graph,
/// whose owner synchronizes it.
pub open spec fn can_replay(r: &RendererResources, b: BarrierTemplate) -> bool {
    if r.has_texture(b.name@) {
        r.texture_access_ok(b.name@, history_entry(b.is_history))
    } else if r.has_buffer(b.name@) {
        &&& r.buffer_access_ok(b.name@, history_entry(b.is_history))
        &&& buffer_domain(b.stages, b.access)
    } else {
        true
    }
}

pub open spec fn can_replay_pass(r: &RendererResources, t: PassTemplate) -> bool {
    forall|j: int| 0 <= j < t.barriers@.len() ==> can_replay(r, #[trigger] t.barriers@[j])
}

pub open spec fn can_replay_template(r: &RendererResources, t: RenderGraphTemplate) -> bool {
    forall|k: int| 0 <= k < t.passes@.len() ==> can_replay_pass(r, #[trigger] t.passes@[k])
}

proof fn lemma_same_resources_trans(a: &RendererResources, b: &RendererResources, c: &RendererResources)
    requires
        same_resources(a, b),
        same_resources(b, c),
    ensures
        same_resources(a, c),
{
    assert forall|i: int| 0 <= i < a.textures_view().len() implies same_texture(#[trigger] a.textures_view()[i], c.textures_view()[i]) by {
        assert(same_texture(a.textures_view()[i], b.textures_view()[i]));
        assert(same_texture(b.textures_view()[i], c.textures_view()[i]));
    }
    assert forall|i: int| 0 <= i < a.buffers_view().len() implies same_buffer(#[trigger] a.buffers_view()[i], c.buffers_view()[i]) by {
        assert(same_buffer(a.buffers_view()[i], b.buffers_view()[i]));
        assert(same_buffer(b.buffers_view()[i], c.buffers_view()[i]));
    }
}

proof fn lemma_replay_kept(a: &RendererResources, b: &RendererResources, t: BarrierTemplate)
    requires
        a.wf(),
        b.wf(),
        same_resources(a, b),
        a.current_slot() == b.current_slot(),
        can_replay(a, t),
    ensures
        can_replay(b, t),
{
    if a.has_texture(t.name@) {
        let i = a.texture_index(t.name@);
        assert(same_texture(a.textures_view()[i], b.textures_view()[i]));
        assert(b.has_texture(t.name@));
        let j = b.texture_index(t.name@);
        assert(same_texture(a.textures_view()[j], b.textures_view()[j]));
        lemma_unique_texture(b, t.name@, i, j, a);
    } else {
        assert(!b.has_texture(t.name@)) by {
            if b.has_texture(t.name@) {
                let j = b.texture_index(t.name@);
                assert(same_texture(a.textures_view()[j], b.textures_view()[j]));
            }
        }
        if a.has_buffer(t.name@) {
            let i = a.buffer_index(t.name@);
            assert(same_buffer(a.buffers_view()[i], b.buffers_view()[i]));
            assert(b.has_buffer(t.name@));
            let j = b.buffer_index(t.name@);
            assert(same_buffer(a.buffers_view()[j], b.buffers_view()[j]));
            lemma_unique_buffer(b, t.name@, i, j, a);
        } else {
            assert(!b.has_buffer(t.name@)) by {
                if b.has_buffer(t.name@) {
                    let j = b.buffer_index(t.name@);
                    assert(same_buffer(a.buffers_view()[j], b.buffers_view()[j]));
                }
            }
        }
    }
}

proof fn lemma_unique_texture(b: &RendererResources, name: Seq<char>, i: int, j: int, a: &RendererResources)
    requires
        a.wf() || b.wf(),
        same_resources(a, b),
        0 <= i < b.textures_view().len(),
        0 <= j < b.textures_view().len(),
        b.textures_view()[i].name@ == name,
        b.textures_view()[j].name@ == name,
    ensures
        i == j,
{
    assert(same_texture(a.textures_view()[i], b.textures_view()[i]));
    assert(same_texture(a.textures_view()[j], b.textures_view()[j]));
    if i < j {
        assert(a.textures_view()[i].name@ != a.textures_view()[j].name@ || b.textures_view()[i].name@ != b.textures_view()[j].name@);
    } else if j < i {
        assert(a.textures_view()[j].name@ != a.textures_view()[i].name@ || b.textures_view()[j].name@ != b.textures_view()[i].name@);
    }
}

proof fn lemma_unique_buffer(b: &RendererResources, name: Seq<char>, i: int, j: int, a: &RendererResources)
    requires
        a.wf() || b.wf(),
        same_resources(a, b),
        0 <= i < b.buffers_view().len(),
        0 <= j < b.buffers_view().len(),
        b.buffers_view()[i].name@ == name,
        b.buffers_view()[j].name@ == name,
    ensures
        i == j,
{
    assert(same_buffer(a.buffers_view()[i], b.buffers_view()[i]));
    assert(same_buffer(a.buffers_view()[j], b.buffers_view()[j]));
    if i < j {
        assert(a.buffers_view()[i].name@ != a.buffers_view()[j].name@ || b.buffers_view()[i].name@ != b.buffers_view()[j].name@);
    } else if j < i {
        assert(a.buffers_view()[j].name@ != a.buffers_view()[i].name@ || b.buffers_view()[j].name@ != b.buffers_view()[i].name@);
    }
}

/// The instance a replayed access targets, and the access itself.
pub open spec fn step_texture(r: &RendererResources, b: BarrierTemplate) -> (InstanceHandle, BarrierTextureRange, crate::tracking::SubresourceState) {
    let h = r.texture_handle(b.name@, history_entry(b.is_history));
    (h, full_range(r.textures_view()[h.resource as int].info), request(b.stages, b.access, b.layout))
}

pub open spec fn step_buffer(r: &RendererResources, b: BarrierTemplate) -> (InstanceHandle, crate::tracking::SubresourceState) {
    (r.buffer_handle(b.name@, history_entry(b.is_history)), request(b.stages, b.access, TextureLayout::Undefined))
}

/// `after` is `before` after replaying the access `b`: an image is accessed
/// over its whole range, a buffer as a whole.
pub open spec fn step_result(before: &RendererResources, after: &RendererResources, b: BarrierTemplate) -> bool {
    if before.has_texture(b.name@) {
        let (h, range, req) = step_texture(before, b);
        before.texture_access_result(after, h, range, req)
    } else if before.has_buffer(b.name@) {
        let (h, req) = step_buffer(before, b);
        before.buffer_access_result(after, h, req)
    } else {
        &&& after.textures_view() == before.textures_view()
        &&& after.buffers_view() == before.buffers_view()
        &&& after.current_slot() == before.current_slot()
    }
}

/// The image barriers that replaying `b` on `r` needs.
pub open spec fn step_textures(r: &RendererResources, b: BarrierTemplate) -> Seq<TextureBarrier> {
    if r.has_texture(b.name@) {
        let (h, range, req) = step_texture(r, b);
        r.texture_access_barriers(h, range, req, b.discard)
    } else {
        seq![]
    }
}

/// The buffer barriers that replaying `b` on `r` needs.
pub open spec fn step_buffers(r: &RendererResources, b: BarrierTemplate) -> Seq<BufferBarrier> {
    if r.has_texture(b.name@) || !r.has_buffer(b.name@) {
        seq![]
    } else {
        let (h, req) = step_buffer(r, b);
        match r.buffer_access_barrier(h, req) {
            Some(x) => seq![x],
            None => seq![],
        }
    }
}

/// The image barriers of the first `k` accesses of a chain of states.
pub open spec fn chain_textures(states: Seq<RendererResources>, barriers: Seq<BarrierTemplate>, k: int) -> Seq<TextureBarrier>
    decreases k,
{
    if k <= 0 {
        seq![]
    } else {
        chain_textures(states, barriers, k - 1) + step_textures(&states[k - 1], barriers[k - 1])
    }
}

pub open spec fn chain_buffers(states: Seq<RendererResources>, barriers: Seq<BarrierTemplate>, k: int) -> Seq<BufferBarrier>
    decreases k,
{
    if k <= 0 {
        seq![]
    } else {
        chain_buffers(states, barriers, k - 1) + step_buffers(&states[k - 1], barriers[k - 1])
    }
}

/// `states` runs from `before` to `after`, one access of `barriers` per
/// step, and the pass recorded the barriers those steps need, in order.
pub open spec fn replay_chain(
    states: Seq<RendererResources>,
    barriers: Seq<BarrierTemplate>,
    textures: Seq<TextureBarrier>,
    buffers: Seq<BufferBarrier>,
) -> bool {
    &&& states.len() == barriers.len() + 1
    &&& forall|j: int| 0 <= j < barriers.len() ==> #[trigger] step_result(&states[j], &states[j + 1], barriers[j])
    &&& textures == chain_textures(states, barriers, barriers.len() as int)
    &&& buffers == chain_buffers(states, barriers, barriers.len() as int)
}

/// `after` is `before` after the pass's accesses, replayed in order, and
/// `rec` holds the barriers they need.
pub open spec fn pass_replay(before: &RendererResources, after: &RendererResources, t: PassTemplate, rec: PassRecording) -> bool {
    &&& rec.pass == t.pass
    &&& rec.group == t.group
    &&& rec.subpass == t.subpass
    &&& exists|states: Seq<RendererResources>|
        #![trigger replay_chain(states, t.barriers@, rec.texture_barriers@, rec.buffer_barriers@)]
        states.len() > 0 && states[0] == *before && states.last() == *after && replay_chain(
            states,
            t.barriers@,
            rec.texture_barriers@,
            rec.buffer_barriers@,
        )
}

/// Whether the registry can replay the access, as `can_replay` states it.
pub fn replayable(resources: &RendererResources, b: &BarrierTemplate) -> (r: bool)
    requires
        resources.wf(),
    ensures
        r == can_replay(resources, *b),
{
    let name = b.name.as_str();
    if resources.contains_texture(name) {
        !b.is_history || resources.texture_has_history(name)
    } else if resources.contains_buffer(name) {
        (!b.is_history || resources.buffer_has_history(name)) && buffer_access_legal(b.stages, b.access)
    } else {
        true
    }
}

/// Whether the stages and access kinds are ones buffers may be used with.
pub fn buffer_access_legal(stages: BarrierSync, access: BarrierAccess) -> (r: bool)
    ensures
        r == buffer_domain(stages, access),
{
    let accesses = BarrierAccess::from_bits(
        ACCESS_VERTEX_INPUT_READ | ACCESS_INDEX_READ | ACCESS_INDIRECT_READ | ACCESS_CONSTANT_READ
            | ACCESS_COPY_READ | ACCESS_COPY_WRITE | ACCESS_STORAGE_READ | ACCESS_STORAGE_WRITE
            | ACCESS_ACCELERATION_STRUCTURE_READ | ACCESS_ACCELERATION_STRUCTURE_WRITE
            | ACCESS_SHADER_READ | ACCESS_SHADER_WRITE | ACCESS_MEMORY_READ | ACCESS_MEMORY_WRITE
            | ACCESS_HOST_READ | ACCESS_HOST_WRITE,
    );
    let syncs = BarrierSync::from_bits(
        SYNC_COPY | SYNC_VERTEX_INPUT | SYNC_VERTEX_SHADER | SYNC_FRAGMENT_SHADER
            | SYNC_COMPUTE_SHADER | SYNC_INDEX_INPUT | SYNC_INDIRECT
            | SYNC_ACCELERATION_STRUCTURE_BUILD | SYNC_RAY_TRACING,
    );
    accesses.contains(access) && syncs.contains(stages)
}

/// Replays one access of a pass template: an image is accessed over its
/// whole range, a buffer as a whole. The barriers it needs are appended to
/// the pass's lists.
pub fn replay_access(
    resources: &mut RendererResources,
    b: &BarrierTemplate,
    textures: &mut Vec<TextureBarrier>,
    buffers: &mut Vec<BufferBarrier>,
)
    requires
        old(resources).wf(),
        can_replay(old(resources), *b),
    ensures
        final(resources).wf(),
        same_resources(old(resources), final(resources)),
        final(resources).current_slot() == old(resources).current_slot(),
        step_result(old(resources), final(resources), *b),
        final(textures)@ == old(textures)@ + step_textures(old(resources), *b),
        final(buffers)@ == old(buffers)@ + step_buffers(old(resources), *b),
{
    let history = if b.is_history { HistoryResourceEntry::Past } else { HistoryResourceEntry::Current };
    let ghost r0 = *old(resources);
    proof {
        r0.lemma_view_lengths();
    }
    if resources.contains_texture(b.name.as_str()) {
        proof {
            let idx = r0.texture_index(b.name@);
            assert(0 <= idx < r0.textures_view().len() && r0.textures_view()[idx].name@ == b.name@);
        }
        let info = resources.texture_info(b.name.as_str());
        let range = BarrierTextureRange {
            base_mip_level: 0,
            mip_level_length: info.mip_levels,
            base_array_layer: 0,
            array_layer_length: info.array_length,
        };
        let (_h, mut emitted) = resources.access_texture(
            b.name.as_str(),
            &range,
            b.stages,
            b.access,
            b.layout,
            b.discard,
            history,
        );
        textures.append(&mut emitted);
        proof {
            let h = r0.texture_handle(b.name@, history);
            assert forall|i: int| 0 <= i < r0.textures_view().len() implies same_texture(
                #[trigger] r0.textures_view()[i],
                resources.textures_view()[i],
            ) by {
                if i != h.resource {
                    assert(resources.textures_view()[i] == r0.textures_view()[i]);
                }
            }
            assert forall|i: int| 0 <= i < r0.buffers_view().len() implies same_buffer(
                #[trigger] r0.buffers_view()[i],
                resources.buffers_view()[i],
            ) by {}
        }
    } else if resources.contains_buffer(b.name.as_str()) {
        proof {
            let idx = r0.buffer_index(b.name@);
            assert(0 <= idx < r0.buffers_view().len() && r0.buffers_view()[idx].name@ == b.name@);
        }
        let (_h, barrier) = resources.access_buffer(b.name.as_str(), b.stages, b.access, history);
        match barrier {
            Some(x) => buffers.push(x),
            None => {},
        }
        proof {
            let h = r0.buffer_handle(b.name@, history);
            assert(resources.textures_view() == r0.textures_view());
            assert forall|i: int| 0 <= i < r0.textures_view().len() implies same_texture(
                #[trigger] r0.textures_view()[i],
                resources.textures_view()[i],
            ) by {}
            assert forall|i: int| 0 <= i < r0.buffers_view().len() implies same_buffer(
                #[trigger] r0.buffers_view()[i],
                resources.buffers_view()[i],
            ) by {
                if i != h.resource {
                    assert(resources.buffers_view()[i] == r0.buffers_view()[i]);
                }
            }
        }
    } else {
        proof {
            assert(same_resources(&r0, resources)) by {
                assert forall|i: int| 0 <= i < r0.textures_view().len() implies same_texture(
                    #[trigger] r0.textures_view()[i],
                    resources.textures_view()[i],
                ) by {}
                assert forall|i: int| 0 <= i < r0.buffers_view().len() implies same_buffer(
                    #[trigger] r0.buffers_view()[i],
                    resources.buffers_view()[i],
                ) by {}
            }
        }
    }
}

/// Replays the accesses of one pass, in order, and returns the barriers
/// to record before the pass's commands.
pub fn execute_pass(resources: &mut RendererResources, t: &PassTemplate) -> (r: PassRecording)
    requires
        old(resources).wf(),
        can_replay_pass(old(resources), *t),
    ensures
        final(resources).wf(),
        same_resources(old(resources), final(resources)),
        final(resources).current_slot() == old(resources).current_slot(),
        pass_replay(old(resources), final(resources), *t, r),
{
    let mut textures: Vec<TextureBarrier> = Vec::new();
    let mut buffers: Vec<BufferBarrier> = Vec::new();
    let ghost r0 = *old(resources);
    let ghost mut states: Seq<RendererResources> = seq![r0];
    let mut j: usize = 0;
    while j < t.barriers.len()
        invariant
            j <= t.barriers@.len(),
            r0 == *old(resources),
            r0.wf(),
            can_replay_pass(&r0, *t),
            resources.wf(),
            same_resources(&r0, resources),
            resources.current_slot() == r0.current_slot(),
            states.len() == j + 1,
            states[0] == r0,
            states.last() == *resources,
            forall|i: int| 0 <= i < j ==> #[trigger] step_result(&states[i], &states[i + 1], t.barriers@[i]),
            textures@ == chain_textures(states, t.barriers@, j as int),
            buffers@ == chain_buffers(states, t.barriers@, j as int),
        decreases t.barriers@.len() - j,
    {
        let ghost before = *resources;
        proof {
            assert(can_replay(&r0, t.barriers@[j as int]));
            lemma_replay_kept(&r0, resources, t.barriers@[j as int]);
        }
        replay_access(resources, &t.barriers[j], &mut textures, &mut buffers);
        proof {
            lemma_same_resources_trans(&r0, &before, resources);
            let prev = states;
            states = states.push(*resources);
            assert forall|i: int| 0 <= i < j + 1 implies #[trigger] step_result(&states[i], &states[i + 1], t.barriers@[i]) by {
                if i < j {
                    assert(states[i] == prev[i] && states[i + 1] == prev[i + 1]);
                }
            }
            lemma_chain_prefix(prev, states, t.barriers@, j as int);
        }
        j = j + 1;
    }
    let r = PassRecording {
        pass: t.pass,
        group: t.group,
        subpass: t.subpass,
        texture_barriers: textures,
        buffer_barriers: buffers,
    };
    proof {
        assert(states.len() > 0 && states[0] == *old(resources) && states.last() == *resources && replay_chain(
            states,
            t.barriers@,
            r.texture_barriers@,
            r.buffer_barriers@,
        ));
    }
    r
}

proof fn lemma_chain_agree(a: Seq<RendererResources>, b: Seq<RendererResources>, barriers: Seq<BarrierTemplate>, k: int)
    requires
        0 <= k <= a.len(),
        k <= b.len(),
        forall|i: int| 0 <= i < k ==> a[i] == b[i],
    ensures
        chain_textures(a, barriers, k) == chain_textures(b, barriers, k),
        chain_buffers(a, barriers, k) == chain_buffers(b, barriers, k),
    decreases k,
{
    if k > 0 {
        lemma_chain_agree(a, b, barriers, k - 1);
        assert(a[k - 1] == b[k - 1]);
    }
}

proof fn lemma_chain_prefix(prev: Seq<RendererResources>, states: Seq<RendererResources>, barriers: Seq<BarrierTemplate>, j: int)
    requires
        0 <= j < prev.len(),
        prev.len() <= states.len(),
        forall|i: int| 0 <= i < prev.len() ==> states[i] == prev[i],
    ensures
        chain_textures(states, barriers, j + 1) == chain_textures(prev, barriers, j) + step_textures(&prev[j], barriers[j]),
        chain_buffers(states, barriers, j + 1) == chain_buffers(prev, barriers, j) + step_buffers(&prev[j], barriers[j]),
{
    lemma_chain_agree(prev, states, barriers, j);
    assert(states[j] == prev[j]);
}

/// Runs the decisions of one frame: replays every pass's accesses in the
/// template's order, collecting the barriers each pass needs, then swaps the
/// current and past instance of every history resource for the next frame.
pub fn execute_frame(resources: &mut RendererResources, template: &RenderGraphTemplate) -> (r: Vec<PassRecording>)
    requires
        old(resources).wf(),
        can_replay_template(old(resources), *template),
    ensures
        final(resources).wf(),
        same_resources(old(resources), final(resources)),
        final(resources).current_slot() == other_slot(old(resources).current_slot()),
        r@.len() == template.passes@.len(),
        frame_replay(old(resources), final(resources), template.passes@, r@),
{
    let ghost r0 = *old(resources);
    let ghost mut states: Seq<RendererResources> = seq![r0];
    let mut recordings: Vec<PassRecording> = Vec::new();
    let mut k: usize = 0;
    while k < template.passes.len()
        invariant
            k <= template.passes@.len(),
            r0 == *old(resources),
            r0.wf(),
            can_replay_template(&r0, *template),
            resources.wf(),
            same_resources(&r0, resources),
            resources.current_slot() == r0.current_slot(),
            recordings@.len() == k,
            states.len() == k + 1,
            states[0] == r0,
            states.last() == *resources,
            forall|i: int|
                0 <= i < k ==> #[trigger] pass_replay(&states[i], &states[i + 1], template.passes@[i], recordings@[i]),
        decreases template.passes@.len() - k,
    {
        let ghost before = *resources;
        proof {
            let t = template.passes@[k as int];
            assert(can_replay_pass(&r0, t));
            assert forall|j: int| 0 <= j < t.barriers@.len() implies can_replay(resources, #[trigger] t.barriers@[j]) by {
                lemma_replay_kept(&r0, resources, t.barriers@[j]);
            }
        }
        let rec = execute_pass(resources, &template.passes[k]);
        recordings.push(rec);
        proof {
            lemma_same_resources_trans(&r0, &before, resources);
            let prev = states;
            states = states.push(*resources);
            assert forall|i: int|
                0 <= i < k + 1 implies #[trigger] pass_replay(&states[i], &states[i + 1], template.passes@[i], recordings@[i]) by {
                if i < k {
                    assert(states[i] == prev[i] && states[i + 1] == prev[i + 1]);
                }
            }
        }
        k = k + 1;
    }
    resources.swap_history_resources();
    proof {
        assert(states.len() > 0 && states[0] == *old(resources) && states.len() == template.passes@.len() + 1);
        assert(frame_swap(&states.last(), resources));
    }
    recordings
}

/// `after` is `before` with the current and past instance of every history
/// resource swapped.
pub open spec fn frame_swap(before: &RendererResources, after: &RendererResources) -> bool {
    &&& after.current_slot() == other_slot(before.current_slot())
    &&& after.textures_view() == before.textures_view()
    &&& after.buffers_view() == before.buffers_view()
}

/// `after` is `before` after a frame: each pass's accesses replayed in
/// order, pass by pass, with `recordings` holding what each pass needs,
/// then history swapped.
pub open spec fn frame_replay(
    before: &RendererResources,
    after: &RendererResources,
    passes: Seq<PassTemplate>,
    recordings: Seq<PassRecording>,
) -> bool {
    exists|states: Seq<RendererResources>|
        #![trigger states.len(), states[0]]
        states.len() == passes.len() + 1 && states[0] == *before && frame_swap(&states.last(), after)
            && forall|k: int|
            0 <= k < passes.len() ==> #[trigger] pass_replay(&states[k], &states[k + 1], passes[k], recordings[k])
}

/// Output `(p2, o2)` comes before output `(p, o)`: in an earlier pass, or
/// earlier in the same pass.
pub open spec fn output_before(p2: int, o2: int, p: int, o: int) -> bool {
    p2 < p || (p2 == p && o2 < o)
}

/// Output `(p, o)` is the first output of the passes that declares an
/// image, or a buffer (`texture` false), by its name.
pub open spec fn first_declaration(passes: Seq<PassInfo>, p: int, o: int, texture: bool) -> bool {
    let out = passes[p].outputs@[o];
    &&& (out.resource is Texture) == texture
    &&& forall|p2: int, o2: int|
        0 <= p2 < passes.len() && 0 <= o2 < passes[p2].outputs@.len() && output_before(p2, o2, p, o)
            && (#[trigger] passes[p2].outputs@[o2]).name@ == out.name@ ==> (passes[p2].outputs@[o2].resource is Texture)
            != texture
}

/// Image entry `e` is made as the first output of the passes that declares
/// an image by its name declares it.
pub open spec fn declared_texture(passes: Seq<PassInfo>, e: TrackedTextureEntry) -> bool {
    exists|p: int, o: int|
        0 <= p < passes.len() && 0 <= o < passes[p].outputs@.len() && #[trigger] passes[p].outputs@[o].name@
            == e.name@ && passes[p].outputs@[o].resource == OutputResource::Texture(e.info)
            && passes[p].outputs@[o].has_history == e.has_history() && first_declaration(passes, p, o, true)
}

/// Buffer entry `e` is made as the first output of the passes that declares
/// a buffer by its name declares it.
pub open spec fn declared_buffer(passes: Seq<PassInfo>, e: TrackedBufferEntry) -> bool {
    exists|p: int, o: int|
        0 <= p < passes.len() && 0 <= o < passes[p].outputs@.len() && #[trigger] passes[p].outputs@[o].name@
            == e.name@ && passes[p].outputs@[o].resource == OutputResource::Buffer(e.info)
            && passes[p].outputs@[o].has_history == e.has_history() && first_declaration(passes, p, o, false)
}

/// Starts tracking every resource that a pass writes and the registry does
/// not know yet, with a past instance where the output keeps history. A
/// resource written by several outputs is created once, as the first of
/// them declares it.
pub fn register_outputs(resources: &mut RendererResources, passes: &Vec<PassInfo>)
    requires
        old(resources).wf(),
        forall|p: int, o: int|
            0 <= p < passes@.len() && 0 <= o < passes@[p].outputs@.len() ==> match (
            #[trigger] passes@[p].outputs@[o]).resource {
                OutputResource::Texture(info) => subresource_count(info) <= usize::MAX,
                OutputResource::Buffer(_) => true,
            },
    ensures
        final(resources).wf(),
        final(resources).current_slot() == old(resources).current_slot(),
        forall|i: int| 0 <= i < old(resources).textures_view().len() ==> #[trigger] final(resources).textures_view()[i] == old(resources).textures_view()[i],
        forall|i: int| 0 <= i < old(resources).buffers_view().len() ==> #[trigger] final(resources).buffers_view()[i] == old(resources).buffers_view()[i],
        forall|i: int|
            old(resources).textures_view().len() <= i < final(resources).textures_view().len() ==> declared_texture(
                passes@,
                #[trigger] final(resources).textures_view()[i],
            ),
        forall|i: int|
            old(resources).buffers_view().len() <= i < final(resources).buffers_view().len() ==> declared_buffer(
                passes@,
                #[trigger] final(resources).buffers_view()[i],
            ),
        forall|p: int, o: int|
            0 <= p < passes@.len() && 0 <= o < passes@[p].outputs@.len() ==> match (
            #[trigger] passes@[p].outputs@[o]).resource {
                OutputResource::Texture(_) => final(resources).has_texture(passes@[p].outputs@[o].name@),
                OutputResource::Buffer(_) => final(resources).has_buffer(passes@[p].outputs@[o].name@),
            },
{
    let ghost r0 = *old(resources);
    let mut p: usize = 0;
    while p < passes.len()
        invariant
            p <= passes@.len(),
            r0 == *old(resources),
            resources.wf(),
            resources.current_slot() == r0.current_slot(),
            forall|p: int, o: int|
                0 <= p < passes@.len() && 0 <= o < passes@[p].outputs@.len() ==> match (
                #[trigger] passes@[p].outputs@[o]).resource {
                    OutputResource::Texture(info) => subresource_count(info) <= usize::MAX,
                    OutputResource::Buffer(_) => true,
                },
            resources.textures_view().len() >= r0.textures_view().len(),
            resources.buffers_view().len() >= r0.buffers_view().len(),
            forall|i: int| 0 <= i < r0.textures_view().len() ==> #[trigger] resources.textures_view()[i] == r0.textures_view()[i],
            forall|i: int| 0 <= i < r0.buffers_view().len() ==> #[trigger] resources.buffers_view()[i] == r0.buffers_view()[i],
            forall|i: int| r0.textures_view().len() <= i < resources.textures_view().len() ==> declared_texture(passes@, #[trigger] resources.textures_view()[i]),
            forall|i: int| r0.buffers_view().len() <= i < resources.buffers_view().len() ==> declared_buffer(passes@, #[trigger] resources.buffers_view()[i]),
            forall|q: int, o: int|
                0 <= q < p && 0 <= o < passes@[q].outputs@.len() ==> match (
                #[trigger] passes@[q].outputs@[o]).resource {
                    OutputResource::Texture(_) => resources.has_texture(passes@[q].outputs@[o].name@),
                    OutputResource::Buffer(_) => resources.has_buffer(passes@[q].outputs@[o].name@),
                },
        decreases passes@.len() - p,
    {
        let outputs = &passes[p].outputs;
        let mut o: usize = 0;
        while o < outputs.len()
            invariant
                p < passes@.len(),
                outputs@ == passes@[p as int].outputs@,
                o <= outputs@.len(),
                r0 == *old(resources),
                resources.wf(),
                resources.current_slot() == r0.current_slot(),
                forall|p: int, o: int|
                    0 <= p < passes@.len() && 0 <= o < passes@[p].outputs@.len() ==> match (
                    #[trigger] passes@[p].outputs@[o]).resource {
                        OutputResource::Texture(info) => subresource_count(info) <= usize::MAX,
                        OutputResource::Buffer(_) => true,
                    },
                resources.textures_view().len() >= r0.textures_view().len(),
                resources.buffers_view().len() >= r0.buffers_view().len(),
                forall|i: int| 0 <= i < r0.textures_view().len() ==> #[trigger] resources.textures_view()[i] == r0.textures_view()[i],
                forall|i: int| 0 <= i < r0.buffers_view().len() ==> #[trigger] resources.buffers_view()[i] == r0.buffers_view()[i],
                forall|i: int| r0.textures_view().len() <= i < resources.textures_view().len() ==> declared_texture(passes@, #[trigger] resources.textures_view()[i]),
                forall|i: int| r0.buffers_view().len() <= i < resources.buffers_view().len() ==> declared_buffer(passes@, #[trigger] resources.buffers_view()[i]),
                forall|q: int, t: int|
                    ((0 <= q < p && 0 <= t < passes@[q].outputs@.len()) || (q == p && 0 <= t < o)) ==> match (
                    #[trigger] passes@[q].outputs@[t]).resource {
                        OutputResource::Texture(_) => resources.has_texture(passes@[q].outputs@[t].name@),
                        OutputResource::Buffer(_) => resources.has_buffer(passes@[q].outputs@[t].name@),
                    },
            decreases outputs@.len() - o,
        {
            let output = &outputs[o];
            let ghost before = *resources;
            match output.resource {
                OutputResource::Texture(info) => {
                    if !resources.contains_texture(output.name.as_str()) {
                        proof {
                            assert(output == passes@[p as int].outputs@[o as int]);
                        }
                        resources.create_texture(output.name.as_str(), &info, output.has_history);
                    }
                },
                OutputResource::Buffer(info) => {
                    if !resources.contains_buffer(output.name.as_str()) {
                        resources.create_buffer(
                            output.name.as_str(),
                            &info,
                            crate::registry::MemoryUsage::GpuOnly,
                            output.has_history,
                        );
                    }
                },
            }
            proof {
                assert(*output == passes@[p as int].outputs@[o as int]);
                let out = passes@[p as int].outputs@[o as int];
                if !before.has_texture(out.name@) && out.resource is Texture {
                    assert forall|p2: int, o2: int|
                        0 <= p2 < passes@.len() && 0 <= o2 < passes@[p2].outputs@.len() && output_before(p2, o2, p as int, o as int)
                            && (#[trigger] passes@[p2].outputs@[o2]).name@ == out.name@ implies !(passes@[p2].outputs@[o2].resource is Texture) by {
                    }
                    assert(first_declaration(passes@, p as int, o as int, true));
                }
                if !before.has_buffer(out.name@) && out.resource is Buffer {
                    assert forall|p2: int, o2: int|
                        0 <= p2 < passes@.len() && 0 <= o2 < passes@[p2].outputs@.len() && output_before(p2, o2, p as int, o as int)
                            && (#[trigger] passes@[p2].outputs@[o2]).name@ == out.name@ implies (passes@[p2].outputs@[o2].resource is Texture) by {
                    }
                    assert(first_declaration(passes@, p as int, o as int, false));
                }
                assert forall|i: int| r0.textures_view().len() <= i < resources.textures_view().len() implies declared_texture(
                    passes@,
                    #[trigger] resources.textures_view()[i],
                ) by {
                    if i < before.textures_view().len() {
                        assert(resources.textures_view()[i] == before.textures_view()[i]);
                    } else {
                        assert(passes@[p as int].outputs@[o as int].name@ == resources.textures_view()[i].name@);
                    }
                }
                assert forall|i: int| r0.buffers_view().len() <= i < resources.buffers_view().len() implies declared_buffer(
                    passes@,
                    #[trigger] resources.buffers_view()[i],
                ) by {
                    if i < before.buffers_view().len() {
                        assert(resources.buffers_view()[i] == before.buffers_view()[i]);
                    } else {
                        assert(passes@[p as int].outputs@[o as int].name@ == resources.buffers_view()[i].name@);
                    }
                }
                assert forall|q: int, t: int|
                    ((0 <= q < p && 0 <= t < passes@[q].outputs@.len()) || (q == p && 0 <= t < o + 1)) implies match (
                    #[trigger] passes@[q].outputs@[t]).resource {
                        OutputResource::Texture(_) => resources.has_texture(passes@[q].outputs@[t].name@),
                        OutputResource::Buffer(_) => resources.has_buffer(passes@[q].outputs@[t].name@),
                    } by {
                    let name = passes@[q].outputs@[t].name@;
                    if before.has_texture(name) {
                        let i = choose|i: int| 0 <= i < before.textures_view().len() && #[trigger] before.textures_view()[i].name@ == name;
                        assert(resources.textures_view()[i] == before.textures_view()[i]);
                    }
                    if before.has_buffer(name) {
                        let i = choose|i: int| 0 <= i < before.buffers_view().len() && #[trigger] before.buffers_view()[i].name@ == name;
                        assert(resources.buffers_view()[i] == before.buffers_view()[i]);
                    }
                    if q == p && t == o {
                        match output.resource {
                            OutputResource::Texture(_) => {
                                if !before.has_texture(name) {
                                    assert(resources.textures_view().last().name@ == name);
                                    assert(resources.textures_view()[resources.textures_view().len() - 1].name@ == name);
                                }
                            },
                            OutputResource::Buffer(_) => {
                                if !before.has_buffer(name) {
                                    assert(resources.buffers_view()[resources.buffers_view().len() - 1].name@ == name);
                                }
                            },
                        }
                    }
                }
            }
            o = o + 1;
        }
        p = p + 1;
    }
}

/// Where a frame is: waiting to start, acquiring the image to present,
/// recording pass `pass`, submitting, presenting, swapping history, or
/// stopped because the surface has to be rebuilt.
#[derive(Clone, Copy, Debug, PartialEq, Eq, Structural, Hash)]
pub enum FrameState {
    Idle,
    Acquiring,
    Recording { pass: usize },
    Submitting,
    Presenting,
    Swapping,
    SurfaceInvalid,
}

/// What the outside reports back to the frame.
#[derive(Clone, Copy, Debug, PartialEq, Eq, Structural, Hash)]
pub enum FrameEvent {
    /// A new frame begins.
    Begin,
    /// The image to present was acquired.
    Acquired,
    /// The surface is stale or gone.
    SurfaceLost,
    /// The current pass's commands were recorded.
    PassRecorded,
    /// The recorded commands were submitted.
    Submitted,
    /// The image was handed to the surface.
    Presented,
    /// The history instances were swapped.
    Swapped,
}

/// What the outside does next.
#[derive(Clone, Copy, Debug, PartialEq, Eq, Structural, Hash)]
pub enum FrameAction {
    AcquireImage,
    RecordPass(usize),
    Submit,
    Present,
    SwapHistory,
    /// The frame is over.
    Finish,
    /// The graph has to be rebuilt against a new surface.
    Rebuild,
    /// The event does not fit the state; nothing changes.
    Ignore,
}

/// The first thing a frame does after acquiring, or at once when there is
/// nothing to acquire: record the first pass, or submit if there is none.
pub open spec fn start_recording(pass_count: nat) -> (FrameState, FrameAction) {
    if pass_count == 0 {
        (FrameState::Submitting, FrameAction::Submit)
    } else {
        (FrameState::Recording { pass: 0 }, FrameAction::RecordPass(0))
    }
}

/// The per-frame decisions of the executor. A frame that presents acquires
/// an image first; a lost surface stops the frame for a rebuild. The passes
/// are recorded in order, then submitted; a presenting frame presents; the
/// frame ends by swapping history. An event that does not fit the state
/// changes nothing.
pub fn frame_step(state: FrameState, event: FrameEvent, pass_count: usize, presents: bool) -> (r: (FrameState, FrameAction))
    ensures
        ({
            match (state, event) {
                (FrameState::Idle, FrameEvent::Begin) => if presents {
                    r == (FrameState::Acquiring, FrameAction::AcquireImage)
                } else {
                    r == start_recording(pass_count as nat)
                },
                (FrameState::Acquiring, FrameEvent::Acquired) => r == start_recording(pass_count as nat),
                (FrameState::Acquiring, FrameEvent::SurfaceLost) => r == (FrameState::SurfaceInvalid, FrameAction::Rebuild),
                (FrameState::Recording { pass }, FrameEvent::PassRecorded) => if pass + 1 < pass_count {
                    r == (FrameState::Recording { pass: (pass + 1) as usize }, FrameAction::RecordPass((pass + 1) as usize))
                } else {
                    r == (FrameState::Submitting, FrameAction::Submit)
                },
                (FrameState::Submitting, FrameEvent::Submitted) => if presents {
                    r == (FrameState::Presenting, FrameAction::Present)
                } else {
                    r == (FrameState::Swapping, FrameAction::SwapHistory)
                },
                (FrameState::Presenting, FrameEvent::Presented) => r == (FrameState::Swapping, FrameAction::SwapHistory),
                (FrameState::Swapping, FrameEvent::Swapped) => r == (FrameState::Idle, FrameAction::Finish),
                _ => r == (state, FrameAction::Ignore),
            }
        }),
{
    let start = if pass_count == 0 {
        (FrameState::Submitting, FrameAction::Submit)
    } else {
        (FrameState::Recording { pass: 0 }, FrameAction::RecordPass(0))
    };
    match (state, event) {
        (FrameState::Idle, FrameEvent::Begin) => {
            if presents {
                (FrameState::Acquiring, FrameAction::AcquireImage)
            } else {
                start
            }
        },
        (FrameState::Acquiring, FrameEvent::Acquired) => start,
        (FrameState::Acquiring, FrameEvent::SurfaceLost) => (FrameState::SurfaceInvalid, FrameAction::Rebuild),
        (FrameState::Recording { pass }, FrameEvent::PassRecorded) => {
            if pass < pass_count && pass_count - pass > 1 {
                (FrameState::Recording { pass: pass + 1 }, FrameAction::RecordPass(pass + 1))
            } else {
                (FrameState::Submitting, FrameAction::Submit)
            }
        },
        (FrameState::Submitting, FrameEvent::Submitted) => {
            if presents {
                (FrameState::Presenting, FrameAction::Present)
            } else {
                (FrameState::Swapping, FrameAction::SwapHistory)
            }
        },
        (FrameState::Presenting, FrameEvent::Presented) => (FrameState::Swapping, FrameAction::SwapHistory),
        (FrameState::Swapping, FrameEvent::Swapped) => (FrameState::Idle, FrameAction::Finish),
        _ => (state, FrameAction::Ignore),
    }
}

/// Why a pass could not have the resource it asked for.
#[derive(Clone, Copy, Debug, PartialEq, Eq, Structural, Hash)]
pub enum RenderGraphResourceError {
    /// Nothing by that name is tracked or supplied from outside.
    NotFound,
    /// The pass did not declare the resource.
    NotAllowed,
    /// The past instance was asked for, and the resource keeps no history.
    NoHistory,
    /// The resource is of the other kind.
    WrongResourceType,
}

#[derive(Clone, Copy, Debug, PartialEq, Eq, Structural, Hash)]
pub enum ExternalKind {
    Texture,
    Buffer,
}

/// A resource the graph does not own, supplied from outside by name.
pub struct ExternalResource {
    pub name: String,
    pub kind: ExternalKind,
}

/// What a pass gets: a tracked instance, or the external resource at an
/// index of the external list.
#[derive(Clone, Copy, Debug, PartialEq, Eq, Structural, Hash)]
pub enum ResolvedResource {
    Owned(InstanceHandle),
    External(usize),
}

/// The pass reads or writes a resource by this name.
pub open spec fn pass_uses(pass: PassInfo, name: Seq<char>) -> bool {
    (exists|i: int| 0 <= i < pass.inputs@.len() && #[trigger] pass.inputs@[i].name@ == name) || produces(pass, name)
}

/// The first external resource by this name, or -1.
pub open spec fn external_index(external: Seq<ExternalResource>, name: Seq<char>) -> int
    decreases external.len(),
{
    if external.len() == 0 {
        -1
    } else {
        let rest = external_index(external.drop_last(), name);
        if rest >= 0 {
            rest
        } else if external.last().name@ == name {
            external.len() - 1
        } else {
            -1
        }
    }
}

/// What a pass resolves when it asks for `name` as a resource of kind
/// `kind`, its past instance if `history`.
pub open spec fn resolution(
    resources: &RendererResources,
    external: Seq<ExternalResource>,
    pass: PassInfo,
    name: Seq<char>,
    kind: ExternalKind,
    history: bool,
) -> Result<ResolvedResource, RenderGraphResourceError> {
    let owned = resources.has_texture(name) || resources.has_buffer(name);
    let right_kind = if kind == ExternalKind::Texture {
        resources.has_texture(name)
    } else {
        !resources.has_texture(name)
    };
    let has_history = if kind == ExternalKind::Texture {
        resources.textures_view()[resources.texture_index(name)].has_history()
    } else {
        resources.buffers_view()[resources.buffer_index(name)].has_history()
    };
    let handle = if kind == ExternalKind::Texture {
        resources.texture_handle(name, history_entry(history))
    } else {
        resources.buffer_handle(name, history_entry(history))
    };
    if !owned {
        let j = external_index(external, name);
        if j < 0 {
            Err(RenderGraphResourceError::NotFound)
        } else if external[j].kind == kind {
            Ok(ResolvedResource::External(j as usize))
        } else {
            Err(RenderGraphResourceError::WrongResourceType)
        }
    } else if !pass_uses(pass, name) {
        Err(RenderGraphResourceError::NotAllowed)
    } else if !right_kind {
        Err(RenderGraphResourceError::WrongResourceType)
    } else if history && !has_history {
        Err(RenderGraphResourceError::NoHistory)
    } else {
        Ok(ResolvedResource::Owned(handle))
    }
}

fn find_external(external: &Vec<ExternalResource>, name: &String) -> (r: Option<usize>)
    ensures
        match r {
            Some(j) => j < external@.len() && j as int == external_index(external@, name@),
            None => external_index(external@, name@) == -1,
        },
{
    let mut j: usize = 0;
    while j < external.len()
        invariant
            j <= external@.len(),
            external_index(external@.take(j as int), name@) == -1,
        decreases external@.len() - j,
    {
        proof {
            assert(external@.take(j as int + 1).drop_last() =~= external@.take(j as int));
        }
        if external[j].name == *name {
            proof {
                lemma_external_index_prefix(external@, name@, j as int + 1);
            }
            return Some(j);
        }
        j = j + 1;
    }
    proof {
        assert(external@.take(j as int) =~= external@);
    }
    None
}

proof fn lemma_external_index_prefix(external: Seq<ExternalResource>, name: Seq<char>, k: int)
    requires
        0 < k <= external.len(),
        external_index(external.take(k), name) >= 0,
    ensures
        external_index(external, name) == external_index(external.take(k), name),
    decreases external.len() - k,
{
    if k < external.len() {
        assert(external.take(k + 1).drop_last() =~= external.take(k));
        lemma_external_index_prefix(external, name, k + 1);
    } else {
        assert(external.take(k) =~= external);
    }
}

fn uses_name(pass: &PassInfo, name: &String) -> (r: bool)
    ensures
        r == pass_uses(*pass, name@),
{
    let mut i: usize = 0;
    while i < pass.inputs.len()
        invariant
            i <= pass.inputs@.len(),
            forall|t: int| 0 <= t < i ==> (#[trigger] pass.inputs@[t]).name@ != name@,
        decreases pass.inputs@.len() - i,
    {
        if pass.inputs[i].name == *name {
            proof {
                assert(pass.inputs@[i as int].name@ == name@);
            }
            return true;
        }
        i = i + 1;
    }
    produces_name(pass, name)
}

/// The resources a pass may reach while it records: the tracked ones it
/// declared, and those supplied from outside.
pub struct VkRenderGraphResources<'a> {
    pub resources: &'a RendererResources,
    pub external: &'a Vec<ExternalResource>,
    pub pass: &'a PassInfo,
}

impl<'a> VkRenderGraphResources<'a> {
    fn get(&self, name: &str, kind: ExternalKind, history: bool) -> (r: Result<ResolvedResource, RenderGraphResourceError>)
        requires
            self.resources.wf(),
        ensures
            r == resolution(self.resources, self.external@, *self.pass, name@, kind, history),
    {
        let key = name.to_owned();
        let is_texture = self.resources.contains_texture(name);
        let is_buffer = self.resources.contains_buffer(name);
        if !is_texture && !is_buffer {
            return match find_external(self.external, &key) {
                None => Err(RenderGraphResourceError::NotFound),
                Some(j) => {
                    if self.external[j].kind == kind {
                        Ok(ResolvedResource::External(j))
                    } else {
                        Err(RenderGraphResourceError::WrongResourceType)
                    }
                },
            };
        }
        if !uses_name(self.pass, &key) {
            return Err(RenderGraphResourceError::NotAllowed);
        }
        let history_entry = if history { HistoryResourceEntry::Past } else { HistoryResourceEntry::Current };
        match kind {
            ExternalKind::Texture => {
                if !is_texture {
                    return Err(RenderGraphResourceError::WrongResourceType);
                }
                if history && !self.resources.texture_has_history(name) {
                    return Err(RenderGraphResourceError::NoHistory);
                }
                Ok(ResolvedResource::Owned(self.resources.texture_handle_of(name, history_entry)))
            },
            ExternalKind::Buffer => {
                if is_texture {
                    return Err(RenderGraphResourceError::WrongResourceType);
                }
                if history && !self.resources.buffer_has_history(name) {
                    return Err(RenderGraphResourceError::NoHistory);
                }
                Ok(ResolvedResource::Owned(self.resources.buffer_handle_of(name, history_entry)))
            },
        }
    }

    /// The texture a pass asked for by name: the current instance, or the
    /// past one if `history`.
    pub fn get_texture(&self, name: &str, history: bool) -> (r: Result<ResolvedResource, RenderGraphResourceError>)
        requires
            self.resources.wf(),
        ensures
            r == resolution(self.resources, self.external@, *self.pass, name@, ExternalKind::Texture, history),
    {
        self.get(name, ExternalKind::Texture, history)
    }

    /// The buffer a pass asked for by name: the current instance, or the
    /// past one if `history`.
    pub fn get_buffer(&self, name: &str, history: bool) -> (r: Result<ResolvedResource, RenderGraphResourceError>)
        requires
            self.resources.wf(),
        ensures
            r == resolution(self.resources, self.external@, *self.pass, name@, ExternalKind::Buffer, history),
    {
        self.get(name, ExternalKind::Buffer, history)
    }
}

/// After a frame, a history read of a resource targets the instance the
/// frame accessed as current, and a current access targets the one the
/// frame read as history: `r1` is `r0` after `execute_frame`.
pub proof fn lemma_history_follows_frame(r0: &RendererResources, r1: &RendererResources, name: Seq<char>)
    requires
        r0.wf(),
        r1.wf(),
        same_resources(r0, r1),
        r1.current_slot() == other_slot(r0.current_slot()),
    ensures
        r0.has_texture(name) ==> r1.has_texture(name),
        r0.has_texture(name) && r0.textures_view()[r0.texture_index(name)].has_history() ==> {
            &&& r1.texture_handle(name, HistoryResourceEntry::Past) == r0.texture_handle(name, HistoryResourceEntry::Current)
            &&& r1.texture_handle(name, HistoryResourceEntry::Current) == r0.texture_handle(name, HistoryResourceEntry::Past)
        },
        r0.has_buffer(name) ==> r1.has_buffer(name),
        r0.has_buffer(name) && r0.buffers_view()[r0.buffer_index(name)].has_history() ==> {
            &&& r1.buffer_handle(name, HistoryResourceEntry::Past) == r0.buffer_handle(name, HistoryResourceEntry::Current)
            &&& r1.buffer_handle(name, HistoryResourceEntry::Current) == r0.buffer_handle(name, HistoryResourceEntry::Past)
        },
{
    if r0.has_texture(name) {
        let i = r0.texture_index(name);
        assert(same_texture(r0.textures_view()[i], r1.textures_view()[i]));
        r1.lemma_texture_index(name, i);
    }
    if r0.has_buffer(name) {
        let i = r0.buffer_index(name);
        assert(same_buffer(r0.buffers_view()[i], r1.buffers_view()[i]));
        r1.lemma_buffer_index(name, i);
    }
}

/// Every output of a name that some pass reads as history keeps history.
pub open spec fn history_declared(passes: Seq<PassInfo>) -> bool {
    forall|p: int, x: int, q: int, o: int|
        0 <= p < passes.len() && 0 <= x < passes[p].inputs@.len() && passes[p].inputs@[x].is_history && 0 <= q
            < passes.len() && 0 <= o < passes[q].outputs@.len() && #[trigger] passes[q].outputs@[o].name@
            == #[trigger] passes[p].inputs@[x].name@ ==> passes[q].outputs@[o].has_history
}

/// The registry holds what `register_outputs` makes of the passes when it
/// starts from an empty registry.
pub open spec fn filled_from(r: &RendererResources, passes: Seq<PassInfo>) -> bool {
    &&& r.wf()
    &&& forall|p: int, o: int|
        0 <= p < passes.len() && 0 <= o < passes[p].outputs@.len() ==> match (
        #[trigger] passes[p].outputs@[o]).resource {
            OutputResource::Texture(_) => r.has_texture(passes[p].outputs@[o].name@),
            OutputResource::Buffer(_) => r.has_buffer(passes[p].outputs@[o].name@),
        }
    &&& forall|i: int| 0 <= i < r.textures_view().len() ==> declared_texture(passes, #[trigger] r.textures_view()[i])
    &&& forall|i: int| 0 <= i < r.buffers_view().len() ==> declared_buffer(passes, #[trigger] r.buffers_view()[i])
}

proof fn lemma_history_kept(r: &RendererResources, passes: Seq<PassInfo>, name: Seq<char>, is_history: bool)
    requires
        filled_from(r, passes),
        history_declared(passes),
        is_history ==> exists|p: int, x: int|
            0 <= p < passes.len() && 0 <= x < passes[p].inputs@.len() && passes[p].inputs@[x].is_history
                && #[trigger] passes[p].inputs@[x].name@ == name,
    ensures
        r.has_texture(name) ==> r.texture_access_ok(name, history_entry(is_history)),
        r.has_buffer(name) ==> r.buffer_access_ok(name, history_entry(is_history)),
{
    if is_history {
        let (p, x) = choose|p: int, x: int|
            0 <= p < passes.len() && 0 <= x < passes[p].inputs@.len() && passes[p].inputs@[x].is_history
                && #[trigger] passes[p].inputs@[x].name@ == name;
        if r.has_texture(name) {
            let i = r.texture_index(name);
            assert(declared_texture(passes, r.textures_view()[i]));
            let (q, o) = choose|q: int, o: int|
                0 <= q < passes.len() && 0 <= o < passes[q].outputs@.len() && #[trigger] passes[q].outputs@[o].name@
                    == r.textures_view()[i].name@ && passes[q].outputs@[o].resource == OutputResource::Texture(r.textures_view()[i].info)
                    && passes[q].outputs@[o].has_history == r.textures_view()[i].has_history() && first_declaration(passes, q, o, true);
            assert(passes[q].outputs@[o].name@ == passes[p].inputs@[x].name@);
        }
        if r.has_buffer(name) {
            let i = r.buffer_index(name);
            assert(declared_buffer(passes, r.buffers_view()[i]));
            let (q, o) = choose|q: int, o: int|
                0 <= q < passes.len() && 0 <= o < passes[q].outputs@.len() && #[trigger] passes[q].outputs@[o].name@
                    == r.buffers_view()[i].name@ && passes[q].outputs@[o].resource == OutputResource::Buffer(r.buffers_view()[i].info)
                    && passes[q].outputs@[o].has_history == r.buffers_view()[i].has_history() && first_declaration(passes, q, o, false);
            assert(passes[q].outputs@[o].name@ == passes[p].inputs@[x].name@);
        }
    }
}

/// A pass's template can be replayed on a registry filled from the passes,
/// where every resource read as history keeps history.
pub proof fn lemma_pass_replayable(
    r: &RendererResources,
    passes: Seq<PassInfo>,
    order: Seq<usize>,
    g: int,
    first: int,
    k: int,
    t: PassTemplate,
)
    requires
        filled_from(r, passes),
        history_declared(passes),
        0 <= first <= k < order.len(),
        0 <= order[k] < passes.len(),
        pass_template_ok(passes, order, g, first, k, t),
    ensures
        can_replay_pass(r, t),
{
    let pass = passes[order[k] as int];
    let pk = order[k] as int;
    let n_out = if k == first { pass.outputs@.len() as int } else { 0 };
    let n_in = t.barriers@.len() - n_out;
    let head = t.barriers@.take(n_in);
    lemma_input_templates_member(passes, order, first, k, head, pass.inputs@.len() as int);
    assert forall|j: int| 0 <= j < t.barriers@.len() implies can_replay(r, #[trigger] t.barriers@[j]) by {
        let b = t.barriers@[j];
        if j < n_in {
            assert(head[j] == b);
            assert(from_input(pass, head[j], pass.inputs@.len() as int));
            let x = choose|x: int| 0 <= x < pass.inputs@.len() && #[trigger] input_template_matches(head[j], pass.pass_type, pass.inputs@[x]);
            let input = pass.inputs@[x];
            lemma_template_accesses_buffer_legal(pass.pass_type, input.usage, OutputResource::Buffer(crate::registry::BufferInfo { size: 0, usage: 0 }));
            assert(b.stages == BarrierSync { bits: b.stages.bits });
            assert(b.access == BarrierAccess { bits: b.access.bits });
            lemma_history_kept(r, passes, b.name@, b.is_history);
        } else {
            let o = j - n_in;
            assert(0 <= o < n_out);
            assert(n_in + o == j);
            assert(output_template_matches(t.barriers@[n_in + o], pass.pass_type, pass.outputs@[o]));
            let out = pass.outputs@[o];
            lemma_template_accesses_buffer_legal(pass.pass_type, InputUsage::Sampled, out.resource);
            assert(b.stages == BarrierSync { bits: b.stages.bits });
            assert(b.access == BarrierAccess { bits: b.access.bits });
            assert(match out.resource {
                OutputResource::Texture(_) => r.has_texture(out.name@),
                OutputResource::Buffer(_) => r.has_buffer(out.name@),
            });
            lemma_history_kept(r, passes, b.name@, false);
        }
    }
}

/// A template built from a pass set can be replayed on a registry filled
/// from the same passes, where every resource read as history keeps
/// history: `execute_frame` can run it.
pub proof fn lemma_template_replayable(r: &RendererResources, passes: Seq<PassInfo>, t: RenderGraphTemplate)
    requires
        t.built_from(passes),
        filled_from(r, passes),
        history_declared(passes),
        passes.len() <= usize::MAX,
    ensures
        can_replay_template(r, t),
{
    let n = passes.len() as int;
    let order = t.order@;
    assert(is_permutation(order, n));
    assert forall|k: int| 0 <= k < t.passes@.len() implies can_replay_pass(r, #[trigger] t.passes@[k]) by {
        lemma_position_in_group(t.groups@, n, k, 0);
        let g = choose|g: int| 0 <= g < t.groups@.len() && #[trigger] t.groups@[g].first <= k < t.groups@[g].first + t.groups@[g].len;
        assert(pass_template_ok(passes, order, g, t.groups@[g].first as int, k, t.passes@[k]));
        lemma_pass_replayable(r, passes, order, g, t.groups@[g].first as int, k, t.passes@[k]);
    }
}

} // verus!
