//! The execution template of a pass set: its order, its fused render
//! passes, the subpass dependencies inside them and the barriers to replay
//! before each pass.
use vstd::prelude::*;

use crate::schedule::{
    is_back_buffer, is_permutation, produces, StoreAction, BACK_BUFFER_ATTACHMENT_NAME, reorder_passes, schedule_result, pass_relation, InputUsage, LoadAction, OutputResource,
    PassInfo, PassInput, PassOutput, PassType, ScheduleError,
};
use crate::registry::buffer_domain;
use crate::sync::{
    BarrierAccess, BarrierSync, TextureLayout, ACCESS_ACCELERATION_STRUCTURE_READ,
    ACCESS_ACCELERATION_STRUCTURE_WRITE, ACCESS_CONSTANT_READ, ACCESS_COPY_READ, ACCESS_COPY_WRITE,
    ACCESS_DEPTH_STENCIL_WRITE, ACCESS_HOST_READ, ACCESS_HOST_WRITE, ACCESS_INDEX_READ,
    ACCESS_INDIRECT_READ, ACCESS_MEMORY_READ, ACCESS_MEMORY_WRITE, ACCESS_RENDER_TARGET_WRITE,
    ACCESS_SHADER_READ, ACCESS_SHADER_WRITE, ACCESS_STORAGE_READ, ACCESS_STORAGE_WRITE,
    ACCESS_VERTEX_INPUT_READ, SYNC_ACCELERATION_STRUCTURE_BUILD, SYNC_COMPUTE_SHADER, SYNC_COPY,
    SYNC_EARLY_DEPTH, SYNC_FRAGMENT_SHADER, SYNC_INDEX_INPUT, SYNC_INDIRECT, SYNC_LATE_DEPTH,
    SYNC_RAY_TRACING, SYNC_RENDER_TARGET, SYNC_VERTEX_INPUT, SYNC_VERTEX_SHADER,
};

verus! {

/// The kind of pass that produced an attachment: it decides which stages
/// and access kinds a dependency on it has to wait for.
#[derive(Clone, Copy, Debug, PartialEq, Eq, Structural, Hash)]
pub enum AttachmentProducerPassType {
    Graphics,
    Compute,
    Copy,
}

pub open spec fn producer_type_of(t: PassType) -> AttachmentProducerPassType {
    match t {
        PassType::Graphics => AttachmentProducerPassType::Graphics,
        PassType::Compute => AttachmentProducerPassType::Compute,
        PassType::Copy => AttachmentProducerPassType::Copy,
    }
}

impl AttachmentProducerPassType {
    pub fn of(t: PassType) -> (r: AttachmentProducerPassType)
        ensures
            r == producer_type_of(t),
    {
        match t {
            PassType::Graphics => AttachmentProducerPassType::Graphics,
            PassType::Compute => AttachmentProducerPassType::Compute,
            PassType::Copy => AttachmentProducerPassType::Copy,
        }
    }

    /// The stages whose writes a dependency on this producer waits for.
    pub fn source_stages(&self) -> (r: BarrierSync)
        ensures
            *self == AttachmentProducerPassType::Graphics ==> r.bits == SYNC_RENDER_TARGET,
            *self == AttachmentProducerPassType::Compute ==> r.bits == SYNC_COMPUTE_SHADER,
            *self == AttachmentProducerPassType::Copy ==> r.bits == SYNC_COPY,
    {
        match self {
            AttachmentProducerPassType::Graphics => BarrierSync::from_bits(SYNC_RENDER_TARGET),
            AttachmentProducerPassType::Compute => BarrierSync::from_bits(SYNC_COMPUTE_SHADER),
            AttachmentProducerPassType::Copy => BarrierSync::from_bits(SYNC_COPY),
        }
    }

    /// The writes a dependency on this producer makes available.
    pub fn source_access(&self) -> (r: BarrierAccess)
        ensures
            *self == AttachmentProducerPassType::Graphics ==> r.bits == ACCESS_RENDER_TARGET_WRITE,
            *self == AttachmentProducerPassType::Compute ==> r.bits == ACCESS_SHADER_WRITE,
            *self == AttachmentProducerPassType::Copy ==> r.bits == ACCESS_COPY_WRITE,
    {
        match self {
            AttachmentProducerPassType::Graphics => BarrierAccess::from_bits(ACCESS_RENDER_TARGET_WRITE),
            AttachmentProducerPassType::Compute => BarrierAccess::from_bits(ACCESS_SHADER_WRITE),
            AttachmentProducerPassType::Copy => BarrierAccess::from_bits(ACCESS_COPY_WRITE),
        }
    }
}

/// A run of neighbouring positions of the order that form one native render
/// pass: `first` and the `len` positions from it.
#[derive(Clone, Copy, Debug, PartialEq, Eq, Structural, Hash)]
pub struct RenderPassGroup {
    pub first: usize,
    pub len: usize,
}

/// Where the data an input reads comes from, as a subpass dependency sees
/// it.
#[derive(Clone, Copy, Debug, PartialEq, Eq, Structural, Hash)]
pub enum DependencySource {
    /// An earlier subpass of the same render pass.
    Subpass(usize),
    /// Anything before the render pass.
    External,
}

/// The dependency of one input of a subpass. A dependency on an earlier
/// subpass is tile-local; one on what came before the render pass spans the
/// whole pipeline.
#[derive(Clone, Copy, Debug, PartialEq, Eq, Structural, Hash)]
pub struct SubpassDependency {
    pub input: usize,
    pub source: DependencySource,
    pub by_region: bool,
    /// The kind of the last pass before this one that writes the input,
    /// if any: what the dependency waits for.
    pub producer: Option<AttachmentProducerPassType>,
}

/// An access to replay against the registry before a pass runs.
pub struct BarrierTemplate {
    pub name: String,
    pub stages: BarrierSync,
    pub access: BarrierAccess,
    pub layout: TextureLayout,
    pub discard: bool,
    pub is_history: bool,
}

pub struct PassTemplate {
    /// The pass's index among the declared passes.
    pub pass: usize,
    pub pass_type: PassType,
    /// The render pass it belongs to, and its subpass there.
    pub group: usize,
    pub subpass: usize,
    pub dependencies: Vec<SubpassDependency>,
    pub barriers: Vec<BarrierTemplate>,
    /// The pass writes the presented image.
    pub renders_to_swapchain: bool,
}

pub struct RenderGraphTemplate {
    pub order: Vec<usize>,
    pub groups: Vec<RenderPassGroup>,
    pub passes: Vec<PassTemplate>,
    /// Some pass writes the presented image: frames end by presenting it.
    pub renders_to_swapchain: bool,
}

/// The pass writes the presented image.
pub open spec fn writes_back_buffer(pass: PassInfo) -> bool {
    exists|o: int| 0 <= o < pass.outputs@.len() && is_back_buffer(#[trigger] pass.outputs@[o].name@)
}

/// The pass loads the presented image, which holds nothing before a frame.
pub open spec fn loads_back_buffer(pass: PassInfo) -> bool {
    exists|o: int|
        0 <= o < pass.outputs@.len() && is_back_buffer(#[trigger] pass.outputs@[o].name@)
            && pass.outputs@[o].load_action == LoadAction::Load
}

/// The pass does not store the presented image.
pub open spec fn discards_back_buffer(pass: PassInfo) -> bool {
    exists|o: int|
        0 <= o < pass.outputs@.len() && is_back_buffer(#[trigger] pass.outputs@[o].name@)
            && pass.outputs@[o].store_action != StoreAction::Store
}

/// How a pass uses the presented image: whether it writes, loads or
/// discards it.
pub fn back_buffer_use(pass: &PassInfo) -> (r: (bool, bool, bool))
    ensures
        r.0 == writes_back_buffer(*pass),
        r.1 == loads_back_buffer(*pass),
        r.2 == discards_back_buffer(*pass),
{
    let key = BACK_BUFFER_ATTACHMENT_NAME.to_owned();
    let mut writes = false;
    let mut loads = false;
    let mut discards = false;
    let mut o: usize = 0;
    while o < pass.outputs.len()
        invariant
            o <= pass.outputs@.len(),
            key@ == BACK_BUFFER_ATTACHMENT_NAME@,
            writes == exists|t: int| 0 <= t < o && is_back_buffer(#[trigger] pass.outputs@[t].name@),
            loads == exists|t: int|
                0 <= t < o && is_back_buffer(#[trigger] pass.outputs@[t].name@)
                    && pass.outputs@[t].load_action == LoadAction::Load,
            discards == exists|t: int|
                0 <= t < o && is_back_buffer(#[trigger] pass.outputs@[t].name@)
                    && pass.outputs@[t].store_action != StoreAction::Store,
        decreases pass.outputs@.len() - o,
    {
        let output = &pass.outputs[o];
        if output.name == key {
            writes = true;
            if output.load_action == LoadAction::Load {
                loads = true;
            }
            if output.store_action != StoreAction::Store {
                discards = true;
            }
        }
        proof {
            assert(*output == pass.outputs@[o as int]);
        }
        o = o + 1;
    }
    (writes, loads, discards)
}

/// The two passes write resources of the same names.
pub open spec fn same_output_names(a: PassInfo, b: PassInfo) -> bool {
    &&& forall|i: int| 0 <= i < a.outputs@.len() ==> produces(b, #[trigger] a.outputs@[i].name@)
    &&& forall|j: int| 0 <= j < b.outputs@.len() ==> produces(a, #[trigger] b.outputs@[j].name@)
}

/// Two graphics passes with the same attachments can share a render pass.
pub open spec fn fusable(a: PassInfo, b: PassInfo) -> bool {
    &&& a.pass_type == PassType::Graphics
    &&& b.pass_type == PassType::Graphics
    &&& same_output_names(a, b)
}

/// The groups cover the positions `0..n` in order, each with at least one.
pub open spec fn groups_partition(groups: Seq<RenderPassGroup>, n: int) -> bool {
    &&& (groups.len() == 0 <==> n == 0)
    &&& forall|g: int| 0 <= g < groups.len() ==> (#[trigger] groups[g]).len >= 1
    &&& groups.len() > 0 ==> groups[0].first == 0
    &&& forall|g: int|
        0 <= g < groups.len() - 1 ==> #[trigger] groups[g + 1].first == groups[g].first + groups[g].len
    &&& groups.len() > 0 ==> groups.last().first + groups.last().len == n
}

/// Each group is a maximal run of passes that can share a render pass.
pub open spec fn groups_fused(passes: Seq<PassInfo>, order: Seq<usize>, groups: Seq<RenderPassGroup>) -> bool {
    &&& forall|g: int, k: int|
        #![trigger groups[g], fusable(passes[order[k] as int], passes[order[k + 1] as int])]
        0 <= g < groups.len() && groups[g].first <= k && k + 1 < groups[g].first + groups[g].len
            ==> fusable(passes[order[k] as int], passes[order[k + 1] as int])
    &&& forall|g: int|
        0 <= g < groups.len() - 1 ==> !fusable(
            passes[order[groups[g + 1].first as int - 1] as int],
            passes[order[(#[trigger] groups[g + 1]).first as int] as int],
        )
}

/// The latest position in `lo..hi` whose pass writes `name`, or -1.
pub open spec fn latest_producer(passes: Seq<PassInfo>, order: Seq<usize>, lo: int, hi: int, name: Seq<char>) -> int
    decreases hi - lo,
{
    if hi <= lo {
        -1
    } else if produces(passes[order[hi - 1] as int], name) {
        hi - 1
    } else {
        latest_producer(passes, order, lo, hi - 1, name)
    }
}

/// The stages, access kinds and layout with which a pass of type `t` reads
/// an input used as `usage`. Sampled reads and input attachments are shader
/// reads, which an image and a buffer alike can take.
pub open spec fn input_access(t: PassType, usage: InputUsage) -> (u32, u32, TextureLayout) {
    match t {
        PassType::Copy => (SYNC_COPY, ACCESS_COPY_READ, TextureLayout::CopySrc),
        PassType::Compute => match usage {
            InputUsage::Storage => (SYNC_COMPUTE_SHADER, ACCESS_STORAGE_READ, TextureLayout::Storage),
            _ => (SYNC_COMPUTE_SHADER, ACCESS_SHADER_READ, TextureLayout::Sampled),
        },
        PassType::Graphics => match usage {
            InputUsage::Storage => (SYNC_FRAGMENT_SHADER, ACCESS_STORAGE_READ, TextureLayout::Storage),
            InputUsage::InputAttachment => (SYNC_FRAGMENT_SHADER, ACCESS_SHADER_READ, TextureLayout::Sampled),
            InputUsage::Sampled => (SYNC_FRAGMENT_SHADER, ACCESS_SHADER_READ, TextureLayout::Sampled),
        },
    }
}

pub open spec fn is_depth_output(resource: OutputResource) -> bool {
    match resource {
        OutputResource::Texture(info) => info.format.spec_is_depth(),
        OutputResource::Buffer(_) => false,
    }
}

/// The stages, access kinds and layout with which a pass of type `t` writes
/// an output.
pub open spec fn output_access(t: PassType, resource: OutputResource) -> (u32, u32, TextureLayout) {
    match t {
        PassType::Copy => (SYNC_COPY, ACCESS_COPY_WRITE, TextureLayout::CopyDst),
        PassType::Compute => (SYNC_COMPUTE_SHADER, ACCESS_STORAGE_WRITE, TextureLayout::Storage),
        PassType::Graphics => if is_buffer_output(resource) {
            (SYNC_FRAGMENT_SHADER, ACCESS_STORAGE_WRITE, TextureLayout::Storage)
        } else if is_depth_output(resource) {
            (SYNC_EARLY_DEPTH | SYNC_LATE_DEPTH, ACCESS_DEPTH_STENCIL_WRITE, TextureLayout::DepthStencilReadWrite)
        } else {
            (SYNC_RENDER_TARGET, ACCESS_RENDER_TARGET_WRITE, TextureLayout::RenderTarget)
        },
    }
}

/// A drawing pass writes a buffer from its fragment shaders, as storage.
pub open spec fn is_buffer_output(resource: OutputResource) -> bool {
    resource is Buffer
}

/// The template of an input read through a barrier.
pub open spec fn input_template_matches(b: BarrierTemplate, t: PassType, input: PassInput) -> bool {
    let (s, a, l) = input_access(t, input.usage);
    &&& b.name@ == input.name@
    &&& b.stages.bits == s
    &&& b.access.bits == a
    &&& b.layout == l
    &&& !b.discard
    &&& b.is_history == input.is_history
}

/// The template of an output: what it held before need not be kept unless
/// the pass loads it.
pub open spec fn output_template_matches(b: BarrierTemplate, t: PassType, output: PassOutput) -> bool {
    let (s, a, l) = output_access(t, output.resource);
    &&& b.name@ == output.name@
    &&& b.stages.bits == s
    &&& b.access.bits == a
    &&& b.layout == l
    &&& b.discard == (output.load_action != LoadAction::Load)
    &&& !b.is_history
}

/// An input that an earlier subpass of the same render pass writes is
/// covered by its subpass dependency and needs no barrier.
pub open spec fn covered_input(
    passes: Seq<PassInfo>,
    order: Seq<usize>,
    first: int,
    k: int,
    input: PassInput,
) -> bool {
    &&& passes[order[k] as int].pass_type == PassType::Graphics
    &&& !input.is_history
    &&& latest_producer(passes, order, first, k, input.name@) >= 0
}

/// The dependency of input `x` of the pass at position `k`, in the render
/// pass that starts at position `first`.
pub open spec fn dependency_for(
    passes: Seq<PassInfo>,
    order: Seq<usize>,
    first: int,
    k: int,
    x: int,
) -> SubpassDependency {
    let input = passes[order[k] as int].inputs@[x];
    let last = latest_producer(passes, order, 0, k, input.name@);
    let producer = if last >= 0 {
        Some(producer_type_of(passes[order[last] as int].pass_type))
    } else {
        None
    };
    if covered_input(passes, order, first, k, input) {
        SubpassDependency {
            input: x as usize,
            source: DependencySource::Subpass(
                (latest_producer(passes, order, first, k, input.name@) - first) as usize,
            ),
            by_region: true,
            producer,
        }
    } else {
        SubpassDependency { input: x as usize, source: DependencySource::External, by_region: false, producer }
    }
}

/// The barrier templates of the first `m` inputs of the pass at `k`: one
/// for each input that no subpass dependency covers.
pub open spec fn input_templates_ok(
    passes: Seq<PassInfo>,
    order: Seq<usize>,
    first: int,
    k: int,
    barriers: Seq<BarrierTemplate>,
    m: int,
) -> bool
    decreases m,
{
    let pass = passes[order[k] as int];
    if m <= 0 {
        barriers.len() == 0
    } else {
        let input = pass.inputs@[m - 1];
        if covered_input(passes, order, first, k, input) {
            input_templates_ok(passes, order, first, k, barriers, m - 1)
        } else {
            &&& barriers.len() > 0
            &&& input_template_matches(barriers.last(), pass.pass_type, input)
            &&& input_templates_ok(passes, order, first, k, barriers.drop_last(), m - 1)
        }
    }
}

/// The template of the pass at position `k` of the order, in the render
/// pass `g` that starts at position `first`.
pub open spec fn pass_template_ok(
    passes: Seq<PassInfo>,
    order: Seq<usize>,
    g: int,
    first: int,
    k: int,
    t: PassTemplate,
) -> bool {
    let pass = passes[order[k] as int];
    let n_in = pass.inputs@.len() as int;
    let n_out = pass.outputs@.len() as int;
    // Outputs of a later subpass are attachments the render pass already holds.
    let n_out_barriers = if k == first { n_out } else { 0 };
    let n_in_barriers = t.barriers@.len() - n_out_barriers;
    &&& t.pass == order[k]
    &&& t.pass_type == pass.pass_type
    &&& t.group == g
    &&& t.subpass == k - first
    &&& t.renders_to_swapchain == writes_back_buffer(pass)
    &&& (if pass.pass_type == PassType::Graphics {
        &&& t.dependencies@.len() == n_in
        &&& forall|x: int| 0 <= x < n_in ==> #[trigger] t.dependencies@[x] == dependency_for(passes, order, first, k, x)
    } else {
        t.dependencies@.len() == 0
    })
    &&& n_in_barriers >= 0
    &&& input_templates_ok(passes, order, first, k, t.barriers@.take(n_in_barriers), n_in)
    &&& forall|o: int|
        #![trigger pass.outputs@[o]]
        0 <= o < n_out_barriers ==> output_template_matches(
            t.barriers@[n_in_barriers + o],
            pass.pass_type,
            pass.outputs@[o],
        )
}

/// Whether the pass writes a resource by this name.
pub fn produces_name(pass: &PassInfo, name: &String) -> (r: bool)
    ensures
        r == produces(*pass, name@),
{
    let mut o: usize = 0;
    while o < pass.outputs.len()
        invariant
            o <= pass.outputs@.len(),
            forall|t: int| 0 <= t < o ==> (#[trigger] pass.outputs@[t]).name@ != name@,
        decreases pass.outputs@.len() - o,
    {
        if pass.outputs[o].name == *name {
            proof {
                assert(pass.outputs@[o as int].name@ == name@);
            }
            return true;
        }
        o = o + 1;
    }
    proof {
        if produces(*pass, name@) {
            let t = choose|t: int| 0 <= t < pass.outputs@.len() && #[trigger] pass.outputs@[t].name@ == name@;
            assert(pass.outputs@[t].name@ != name@);
        }
    }
    false
}

fn outputs_within(a: &PassInfo, b: &PassInfo) -> (r: bool)
    ensures
        r == forall|i: int| 0 <= i < a.outputs@.len() ==> produces(*b, #[trigger] a.outputs@[i].name@),
{
    let mut i: usize = 0;
    while i < a.outputs.len()
        invariant
            i <= a.outputs@.len(),
            forall|t: int| 0 <= t < i ==> produces(*b, #[trigger] a.outputs@[t].name@),
        decreases a.outputs@.len() - i,
    {
        if !produces_name(b, &a.outputs[i].name) {
            return false;
        }
        i = i + 1;
    }
    true
}

/// Whether two passes can share one render pass: both draw, into
/// attachments of the same names.
pub fn can_fuse(a: &PassInfo, b: &PassInfo) -> (r: bool)
    ensures
        r == fusable(*a, *b),
{
    a.pass_type == PassType::Graphics && b.pass_type == PassType::Graphics && outputs_within(a, b)
        && outputs_within(b, a)
}

/// Splits the order into render passes: each maximal run of neighbouring
/// passes that can share attachments becomes one; every other pass stands
/// alone.
pub fn group_passes(passes: &Vec<PassInfo>, order: &Vec<usize>) -> (groups: Vec<RenderPassGroup>)
    requires
        forall|k: int| 0 <= k < order@.len() ==> (#[trigger] order@[k]) < passes@.len(),
    ensures
        groups_partition(groups@, order@.len() as int),
        groups_fused(passes@, order@, groups@),
{
    let mut groups: Vec<RenderPassGroup> = Vec::new();
    let mut k: usize = 0;
    while k < order.len()
        invariant
            k <= order@.len(),
            forall|t: int| 0 <= t < order@.len() ==> (#[trigger] order@[t]) < passes@.len(),
            groups_partition(groups@, k as int),
            groups_fused(passes@, order@, groups@),
        decreases order@.len() - k,
    {
        let ghost before = groups@;
        if k > 0 && can_fuse(&passes[order[k - 1]], &passes[order[k]]) {
            let n = groups.len();
            let last = groups[n - 1];
            groups.set(n - 1, RenderPassGroup { first: last.first, len: last.len + 1 });
            proof {
                assert forall|g: int, j: int|
                    #![trigger groups@[g], fusable(passes@[order@[j] as int], passes@[order@[j + 1] as int])]
                    0 <= g < groups@.len() && groups@[g].first <= j && j + 1 < groups@[g].first + groups@[g].len
                        implies fusable(passes@[order@[j] as int], passes@[order@[j + 1] as int]) by {
                    if g < n - 1 {
                        assert(before[g] == groups@[g]);
                    } else if j + 1 < k {
                        assert(before[g].first <= j);
                    }
                }
                assert forall|g: int| 0 <= g < groups@.len() - 1 implies !fusable(
                    passes@[order@[groups@[g + 1].first as int - 1] as int],
                    passes@[order@[(#[trigger] groups@[g + 1]).first as int] as int],
                ) by {
                    assert(before[g + 1].first == groups@[g + 1].first);
                }
                assert forall|g: int| 0 <= g < groups@.len() - 1 implies #[trigger] groups@[g + 1].first
                    == groups@[g].first + groups@[g].len by {
                    assert(before[g + 1].first == groups@[g + 1].first);
                    assert(before[g] == groups@[g]);
                }
            }
        } else {
            groups.push(RenderPassGroup { first: k, len: 1 });
            proof {
                assert forall|g: int, j: int|
                    #![trigger groups@[g], fusable(passes@[order@[j] as int], passes@[order@[j + 1] as int])]
                    0 <= g < groups@.len() && groups@[g].first <= j && j + 1 < groups@[g].first + groups@[g].len
                        implies fusable(passes@[order@[j] as int], passes@[order@[j + 1] as int]) by {
                    if g < before.len() {
                        assert(before[g] == groups@[g]);
                    }
                }
                assert forall|g: int| 0 <= g < groups@.len() - 1 implies !fusable(
                    passes@[order@[groups@[g + 1].first as int - 1] as int],
                    passes@[order@[(#[trigger] groups@[g + 1]).first as int] as int],
                ) by {
                    if g + 1 < before.len() {
                        assert(before[g + 1] == groups@[g + 1]);
                    } else {
                        assert(before.last().first + before.last().len == k);
                    }
                }
            }
        }
        k = k + 1;
    }
    groups
}

/// The latest position in `lo..hi` whose pass writes `name`.
fn find_latest_producer(passes: &Vec<PassInfo>, order: &Vec<usize>, lo: usize, hi: usize, name: &String) -> (r: Option<usize>)
    requires
        lo <= hi <= order@.len(),
        forall|k: int| 0 <= k < order@.len() ==> (#[trigger] order@[k]) < passes@.len(),
    ensures
        match r {
            Some(v) => v as int == latest_producer(passes@, order@, lo as int, hi as int, name@) && lo <= v < hi,
            None => latest_producer(passes@, order@, lo as int, hi as int, name@) == -1,
        },
{
    let mut h: usize = hi;
    while h > lo
        invariant
            lo <= h <= hi <= order@.len(),
            forall|k: int| 0 <= k < order@.len() ==> (#[trigger] order@[k]) < passes@.len(),
            latest_producer(passes@, order@, lo as int, hi as int, name@) == latest_producer(
                passes@,
                order@,
                lo as int,
                h as int,
                name@,
            ),
        decreases h - lo,
    {
        if produces_name(&passes[order[h - 1]], name) {
            return Some(h - 1);
        }
        h = h - 1;
    }
    None
}

fn input_access_of(t: PassType, usage: InputUsage) -> (r: (BarrierSync, BarrierAccess, TextureLayout))
    ensures
        (r.0.bits, r.1.bits, r.2) == input_access(t, usage),
{
    let (s, a, l) = match t {
        PassType::Copy => (SYNC_COPY, ACCESS_COPY_READ, TextureLayout::CopySrc),
        PassType::Compute => match usage {
            InputUsage::Storage => (SYNC_COMPUTE_SHADER, ACCESS_STORAGE_READ, TextureLayout::Storage),
            _ => (SYNC_COMPUTE_SHADER, ACCESS_SHADER_READ, TextureLayout::Sampled),
        },
        PassType::Graphics => match usage {
            InputUsage::Storage => (SYNC_FRAGMENT_SHADER, ACCESS_STORAGE_READ, TextureLayout::Storage),
            InputUsage::InputAttachment => (SYNC_FRAGMENT_SHADER, ACCESS_SHADER_READ, TextureLayout::Sampled),
            InputUsage::Sampled => (SYNC_FRAGMENT_SHADER, ACCESS_SHADER_READ, TextureLayout::Sampled),
        },
    };
    (BarrierSync::from_bits(s), BarrierAccess::from_bits(a), l)
}

fn output_access_of(t: PassType, resource: &OutputResource) -> (r: (BarrierSync, BarrierAccess, TextureLayout))
    ensures
        (r.0.bits, r.1.bits, r.2) == output_access(t, *resource),
{
    let (buffer, depth) = match resource {
        OutputResource::Texture(info) => (false, info.format.is_depth()),
        OutputResource::Buffer(_) => (true, false),
    };
    let (s, a, l) = match t {
        PassType::Copy => (SYNC_COPY, ACCESS_COPY_WRITE, TextureLayout::CopyDst),
        PassType::Compute => (SYNC_COMPUTE_SHADER, ACCESS_STORAGE_WRITE, TextureLayout::Storage),
        PassType::Graphics => if buffer {
            (SYNC_FRAGMENT_SHADER, ACCESS_STORAGE_WRITE, TextureLayout::Storage)
        } else if depth {
            (SYNC_EARLY_DEPTH | SYNC_LATE_DEPTH, ACCESS_DEPTH_STENCIL_WRITE, TextureLayout::DepthStencilReadWrite)
        } else {
            (SYNC_RENDER_TARGET, ACCESS_RENDER_TARGET_WRITE, TextureLayout::RenderTarget)
        },
    };
    (BarrierSync::from_bits(s), BarrierAccess::from_bits(a), l)
}

/// The template of the pass at position `k` of the order, subpass
/// `k - first` of render pass `g`: its subpass dependencies and the accesses
/// to replay before it.
pub fn build_pass_template(passes: &Vec<PassInfo>, order: &Vec<usize>, g: usize, first: usize, k: usize) -> (t: PassTemplate)
    requires
        first <= k < order@.len(),
        forall|j: int| 0 <= j < order@.len() ==> (#[trigger] order@[j]) < passes@.len(),
    ensures
        pass_template_ok(passes@, order@, g as int, first as int, k as int, t),
{
    let pass = &passes[order[k]];
    let ghost pk = order@[k as int] as int;
    let n_in = pass.inputs.len();
    let mut dependencies: Vec<SubpassDependency> = Vec::new();
    let mut barriers: Vec<BarrierTemplate> = Vec::new();
    let mut x: usize = 0;
    while x < n_in
        invariant
            first <= k < order@.len(),
            forall|j: int| 0 <= j < order@.len() ==> (#[trigger] order@[j]) < passes@.len(),
            *pass == passes@[pk],
            pk == order@[k as int],
            n_in == pass.inputs@.len(),
            x <= n_in,
            pass.pass_type == PassType::Graphics ==> dependencies@.len() == x,
            pass.pass_type != PassType::Graphics ==> dependencies@.len() == 0,
            forall|y: int|
                0 <= y < dependencies@.len() ==> #[trigger] dependencies@[y] == dependency_for(
                    passes@,
                    order@,
                    first as int,
                    k as int,
                    y,
                ),
            input_templates_ok(passes@, order@, first as int, k as int, barriers@, x as int),
        decreases n_in - x,
    {
        let input = &pass.inputs[x];
        let ghost old_barriers = barriers@;
        let producer = if pass.pass_type == PassType::Graphics && !input.is_history {
            find_latest_producer(passes, order, first, k, &input.name)
        } else {
            None
        };
        proof {
            assert(input == passes@[pk].inputs@[x as int]);
        }
        let last = find_latest_producer(passes, order, 0, k, &input.name);
        let producer_type = match last {
            Some(pos) => Some(AttachmentProducerPassType::of(passes[order[pos]].pass_type)),
            None => None,
        };
        match producer {
            Some(pos) => {
                if pass.pass_type == PassType::Graphics {
                    dependencies.push(
                        SubpassDependency {
                            input: x,
                            source: DependencySource::Subpass(pos - first),
                            by_region: true,
                            producer: producer_type,
                        },
                    );
                }
            },
            None => {
                if pass.pass_type == PassType::Graphics {
                    dependencies.push(
                        SubpassDependency {
                            input: x,
                            source: DependencySource::External,
                            by_region: false,
                            producer: producer_type,
                        },
                    );
                }
                let (stages, access, layout) = input_access_of(pass.pass_type, input.usage);
                barriers.push(
                    BarrierTemplate {
                        name: input.name.clone(),
                        stages,
                        access,
                        layout,
                        discard: false,
                        is_history: input.is_history,
                    },
                );
            },
        }
        proof {
            if !covered_input(passes@, order@, first as int, k as int, *input) {
                assert(barriers@.drop_last() =~= old_barriers);
            } else {
                assert(barriers@ == old_barriers);
            }
        }
        x = x + 1;
    }
    let n_in_barriers = barriers.len();
    let ghost input_part = barriers@;
    if k == first {
        let mut o: usize = 0;
        while o < pass.outputs.len()
            invariant
                *pass == passes@[pk],
                o <= pass.outputs@.len(),
                barriers@.len() == n_in_barriers + o,
                barriers@.take(n_in_barriers as int) == input_part,
                forall|t: int|
                    0 <= t < o ==> #[trigger] output_template_matches(
                        barriers@[n_in_barriers + t],
                        pass.pass_type,
                        pass.outputs@[t],
                    ),
            decreases pass.outputs@.len() - o,
        {
            let output = &pass.outputs[o];
            let (stages, access, layout) = output_access_of(pass.pass_type, &output.resource);
            let ghost prev = barriers@;
            barriers.push(
                BarrierTemplate {
                    name: output.name.clone(),
                    stages,
                    access,
                    layout,
                    discard: match output.load_action {
                        LoadAction::Load => false,
                        _ => true,
                    },
                    is_history: false,
                },
            );
            proof {
                assert(barriers@.take(n_in_barriers as int) =~= prev.take(n_in_barriers as int));
                assert forall|t: int|
                    0 <= t < o + 1 implies #[trigger] output_template_matches(
                        barriers@[n_in_barriers + t],
                        pass.pass_type,
                        pass.outputs@[t],
                    ) by {
                    if t < o {
                        assert(barriers@[n_in_barriers + t] == prev[n_in_barriers + t]);
                    }
                }
            }
            o = o + 1;
        }
    } else {
        proof {
            assert(barriers@.take(n_in_barriers as int) =~= input_part);
        }
    }
    let (writes, _loads, _discards) = back_buffer_use(pass);
    PassTemplate {
        pass: order[k],
        pass_type: pass.pass_type,
        group: g,
        subpass: k - first,
        dependencies,
        barriers,
        renders_to_swapchain: writes,
    }
}

/// No pass loads the presented image or leaves it unstored.
pub open spec fn back_buffer_well_used(passes: Seq<PassInfo>) -> bool {
    forall|p: int| 0 <= p < passes.len() ==> !loads_back_buffer(#[trigger] passes[p]) && !discards_back_buffer(passes[p])
}

impl RenderGraphTemplate {
    /// The template is built from these passes: its order is their
    /// schedule, its groups the fused render passes of that order, and it
    /// holds one pass template per position.
    pub open spec fn built_from(&self, passes: Seq<PassInfo>) -> bool {
        let n = passes.len() as int;
        let order = self.order@;
        &&& schedule_result(pass_relation(passes), n, Ok(self.order))
        &&& groups_partition(self.groups@, n)
        &&& groups_fused(passes, order, self.groups@)
        &&& self.passes@.len() == n
        &&& forall|g: int, k: int|
            #![trigger self.groups@[g], self.passes@[k]]
            0 <= g < self.groups@.len() && self.groups@[g].first <= k < self.groups@[g].first
                + self.groups@[g].len ==> pass_template_ok(
                passes,
                order,
                g,
                self.groups@[g].first as int,
                k,
                self.passes@[k],
            )
    }

    /// Compiles a pass set into its execution template. Fails on a pass
    /// that loads the presented image or does not store it, and otherwise
    /// with the passes whose dependencies form a cycle.
    pub fn new(passes: &Vec<PassInfo>) -> (r: Result<RenderGraphTemplate, ScheduleError>)
        ensures
            match r {
                Ok(t) => {
                    &&& t.built_from(passes@)
                    &&& back_buffer_well_used(passes@)
                    &&& t.renders_to_swapchain == exists|p: int|
                        0 <= p < passes@.len() && #[trigger] writes_back_buffer(passes@[p])
                },
                Err(ScheduleError::BackBufferLoaded { pass }) => pass < passes@.len() && loads_back_buffer(
                    passes@[pass as int],
                ),
                Err(ScheduleError::BackBufferDiscarded { pass }) => pass < passes@.len()
                    && discards_back_buffer(passes@[pass as int]),
                Err(e) => back_buffer_well_used(passes@) && schedule_result(
                    pass_relation(passes@),
                    passes@.len() as int,
                    Err(e),
                ),
            },
    {
        let mut presents = false;
        let mut p: usize = 0;
        while p < passes.len()
            invariant
                p <= passes@.len(),
                forall|q: int| 0 <= q < p ==> !loads_back_buffer(#[trigger] passes@[q]) && !discards_back_buffer(passes@[q]),
                presents == exists|q: int| 0 <= q < p && #[trigger] writes_back_buffer(passes@[q]),
            decreases passes@.len() - p,
        {
            let (writes, loads, discards) = back_buffer_use(&passes[p]);
            if loads {
                return Err(ScheduleError::BackBufferLoaded { pass: p });
            }
            if discards {
                return Err(ScheduleError::BackBufferDiscarded { pass: p });
            }
            presents = presents || writes;
            p = p + 1;
        }
        let order = match reorder_passes(passes) {
            Ok(order) => order,
            Err(e) => {
                return Err(e);
            },
        };
        let groups = group_passes(passes, &order);
        let mut templates: Vec<PassTemplate> = Vec::new();
        let mut g: usize = 0;
        while g < groups.len()
            invariant
                is_permutation(order@, passes@.len() as int),
                groups_partition(groups@, order@.len() as int),
                g <= groups@.len(),
                templates@.len() == if g == 0 { 0 } else { groups@[g - 1].first + groups@[g - 1].len },
                forall|h: int, k: int|
                    #![trigger groups@[h], templates@[k]]
                    0 <= h < g && groups@[h].first <= k < groups@[h].first + groups@[h].len
                        ==> pass_template_ok(passes@, order@, h, groups@[h].first as int, k, templates@[k]),
            decreases groups@.len() - g,
        {
            let group = groups[g];
            proof {
                if g > 0 {
                    let h = g as int - 1;
                    assert(groups@[h + 1].first == groups@[h].first + groups@[h].len);
                }
                assert(order.len() == order@.len());
                assert(group.first + group.len <= order@.len()) by {
                    lemma_group_within(groups@, order@.len() as int, g as int);
                }
            }
            let end = group.first + group.len;
            let mut k: usize = group.first;
            while k < end
                invariant
                    is_permutation(order@, passes@.len() as int),
                    groups_partition(groups@, order@.len() as int),
                    g < groups@.len(),
                    group == groups@[g as int],
                    group.first + group.len <= order@.len(),
                    group.first <= k <= group.first + group.len,
                    end == group.first + group.len,
                    templates@.len() == k,
                    forall|h: int, j: int|
                        #![trigger groups@[h], templates@[j]]
                        0 <= h <= g && groups@[h].first <= j < groups@[h].first + groups@[h].len && j < k
                            ==> pass_template_ok(passes@, order@, h, groups@[h].first as int, j, templates@[j]),
                decreases end - k,
            {
                let t = build_pass_template(passes, &order, g, group.first, k);
                let ghost prev = templates@;
                templates.push(t);
                proof {
                    assert forall|h: int, j: int|
                        #![trigger groups@[h], templates@[j]]
                        0 <= h <= g && groups@[h].first <= j < groups@[h].first + groups@[h].len && j < k + 1
                            implies pass_template_ok(passes@, order@, h, groups@[h].first as int, j, templates@[j]) by {
                        if j < k {
                            assert(templates@[j] == prev[j]);
                        } else if h < g {
                            lemma_groups_disjoint(groups@, order@.len() as int, h, g as int);
                        }
                    }
                }
                k = k + 1;
            }
            proof {
                assert forall|h: int, j: int|
                    #![trigger groups@[h], templates@[j]]
                    0 <= h < g + 1 && groups@[h].first <= j < groups@[h].first + groups@[h].len
                        implies pass_template_ok(passes@, order@, h, groups@[h].first as int, j, templates@[j]) by {
                    if h < g {
                        lemma_groups_disjoint(groups@, order@.len() as int, h, g as int);
                    }
                }
                assert(templates@.len() == groups@[g as int].first + groups@[g as int].len);
            }
            g = g + 1;
        }
        proof {
            if groups@.len() > 0 {
                assert(templates@.len() == passes@.len());
            }
        }
        Ok(RenderGraphTemplate { order, groups, passes: templates, renders_to_swapchain: presents })
    }
}

proof fn lemma_group_within(groups: Seq<RenderPassGroup>, n: int, g: int)
    requires
        groups_partition(groups, n),
        0 <= g < groups.len(),
    ensures
        groups[g].first + groups[g].len <= n,
        groups[g].first >= 0,
    decreases groups.len() - g,
{
    if g < groups.len() - 1 {
        assert(groups[g + 1].first == groups[g].first + groups[g].len);
        lemma_group_within(groups, n, g + 1);
    }
}

proof fn lemma_groups_disjoint(groups: Seq<RenderPassGroup>, n: int, h: int, g: int)
    requires
        groups_partition(groups, n),
        0 <= h < g < groups.len(),
    ensures
        groups[h].first + groups[h].len <= groups[g].first,
    decreases g - h,
{
    assert(groups[h + 1].first == groups[h].first + groups[h].len);
    if h + 1 < g {
        lemma_groups_disjoint(groups, n, h + 1, g);
        assert(groups[h + 1].len >= 1);
    }
}

/// Every access a template reads an input with lies within what buffers
/// may be used with, and so does every buffer output's.
pub proof fn lemma_template_accesses_buffer_legal(t: PassType, usage: InputUsage, resource: OutputResource)
    ensures
        ({
            let (s, a, l) = input_access(t, usage);
            buffer_domain(BarrierSync { bits: s }, BarrierAccess { bits: a })
        }),
        resource is Buffer ==> {
            let (s, a, l) = output_access(t, resource);
            buffer_domain(BarrierSync { bits: s }, BarrierAccess { bits: a })
        },
{
    let am: u32 = ACCESS_VERTEX_INPUT_READ | ACCESS_INDEX_READ | ACCESS_INDIRECT_READ | ACCESS_CONSTANT_READ
        | ACCESS_COPY_READ | ACCESS_COPY_WRITE | ACCESS_STORAGE_READ | ACCESS_STORAGE_WRITE
        | ACCESS_ACCELERATION_STRUCTURE_READ | ACCESS_ACCELERATION_STRUCTURE_WRITE | ACCESS_SHADER_READ
        | ACCESS_SHADER_WRITE | ACCESS_MEMORY_READ | ACCESS_MEMORY_WRITE | ACCESS_HOST_READ | ACCESS_HOST_WRITE;
    let sm: u32 = SYNC_COPY | SYNC_VERTEX_INPUT | SYNC_VERTEX_SHADER | SYNC_FRAGMENT_SHADER | SYNC_COMPUTE_SHADER
        | SYNC_INDEX_INPUT | SYNC_INDIRECT | SYNC_ACCELERATION_STRUCTURE_BUILD | SYNC_RAY_TRACING;
    assert(1u32 | 2u32 | 4u32 | 8u32 | 2048u32 | 4096u32 | 32u32 | 64u32 | 524288u32 | 1048576u32 | 8192u32
        | 16384u32 | 32768u32 | 65536u32 | 131072u32 | 262144u32 == 2095215u32) by (bit_vector);
    assert(128u32 | 1u32 | 2u32 | 4u32 | 8u32 | 1024u32 | 512u32 | 4096u32 | 8192u32 == 13967u32) by (bit_vector);
    assert(am == 2095215u32);
    assert(sm == 13967u32);
    assert(2095215u32 & 8192u32 == 8192u32) by (bit_vector);
    assert(2095215u32 & 32u32 == 32u32) by (bit_vector);
    assert(2095215u32 & 2048u32 == 2048u32) by (bit_vector);
    assert(2095215u32 & 64u32 == 64u32) by (bit_vector);
    assert(2095215u32 & 4096u32 == 4096u32) by (bit_vector);
    assert(13967u32 & 4u32 == 4u32) by (bit_vector);
    assert(13967u32 & 8u32 == 8u32) by (bit_vector);
    assert(13967u32 & 128u32 == 128u32) by (bit_vector);
}

/// Barrier template `b` reads one of the first `m` inputs of `pass`.
pub open spec fn from_input(pass: PassInfo, b: BarrierTemplate, m: int) -> bool {
    exists|x: int| 0 <= x < m && #[trigger] input_template_matches(b, pass.pass_type, pass.inputs@[x])
}

/// The barrier templates of an input prefix each come from one of those
/// inputs.
pub proof fn lemma_input_templates_member(
    passes: Seq<PassInfo>,
    order: Seq<usize>,
    first: int,
    k: int,
    bs: Seq<BarrierTemplate>,
    m: int,
)
    requires
        input_templates_ok(passes, order, first, k, bs, m),
        m <= passes[order[k] as int].inputs@.len(),
    ensures
        forall|j: int| 0 <= j < bs.len() ==> from_input(passes[order[k] as int], #[trigger] bs[j], m),
    decreases m,
{
    let pass = passes[order[k] as int];
    if m > 0 {
        let input = pass.inputs@[m - 1];
        if covered_input(passes, order, first, k, input) {
            lemma_input_templates_member(passes, order, first, k, bs, m - 1);
            assert forall|j: int| 0 <= j < bs.len() implies from_input(pass, #[trigger] bs[j], m) by {
                assert(from_input(pass, bs[j], m - 1));
                let x = choose|x: int| 0 <= x < m - 1 && #[trigger] input_template_matches(bs[j], pass.pass_type, pass.inputs@[x]);
            }
        } else {
            lemma_input_templates_member(passes, order, first, k, bs.drop_last(), m - 1);
            assert forall|j: int| 0 <= j < bs.len() implies from_input(pass, #[trigger] bs[j], m) by {
                if j < bs.len() - 1 {
                    assert(bs[j] == bs.drop_last()[j]);
                    assert(from_input(pass, bs.drop_last()[j], m - 1));
                    let x = choose|x: int| 0 <= x < m - 1 && #[trigger] input_template_matches(bs.drop_last()[j], pass.pass_type, pass.inputs@[x]);
                } else {
                    assert(bs[j] == bs.last());
                    assert(input_template_matches(bs[j], pass.pass_type, pass.inputs@[m - 1]));
                }
            }
        }
    }
}

/// Position `k` of the order lies in one of the render passes.
pub proof fn lemma_position_in_group(groups: Seq<RenderPassGroup>, n: int, k: int, g0: int)
    requires
        groups_partition(groups, n),
        0 <= g0 < groups.len(),
        groups[g0].first <= k < n,
    ensures
        exists|g: int| 0 <= g < groups.len() && #[trigger] groups[g].first <= k < groups[g].first + groups[g].len,
    decreases groups.len() - g0,
{
    if k >= groups[g0].first + groups[g0].len {
        if g0 == groups.len() - 1 {
            assert(groups.last() == groups[g0]);
        } else {
            assert(groups[g0 + 1].first == groups[g0].first + groups[g0].len);
            lemma_position_in_group(groups, n, k, g0 + 1);
        }
    }
}

} // verus!
