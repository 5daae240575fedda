use frame_graph::command::{CommandBufferLifecycle, Resettable, VkCommandBufferState};
use frame_graph::format::Format;
use frame_graph::lump::{ColorRGBExp32, CompressedLightCube, LeafBrush, LumpReadError, VertexNormalIndex};
use frame_graph::schedule::PassType;
use frame_graph::sync::{
    ACCESS_COPY_WRITE, ACCESS_RENDER_TARGET_WRITE, ACCESS_SHADER_WRITE, SYNC_COMPUTE_SHADER, SYNC_COPY,
    SYNC_RENDER_TARGET,
};
use frame_graph::template::AttachmentProducerPassType;
use frame_graph::work_queue::WebGLThreadQueue;

#[test]
fn depth_and_stencil_formats() {
    assert!(Format::D32.is_depth());
    assert!(Format::D24.is_depth());
    assert!(!Format::RGBA8UNorm.is_depth());
    assert!(Format::D32S8.is_stencil());
    assert!(!Format::D32.is_stencil());
    assert!(!Format::D16.is_stencil());
}

#[test]
fn compressed_formats() {
    assert!(Format::DXT1.is_compressed());
    assert!(Format::DXT5.is_compressed());
    assert!(!Format::R16Float.is_compressed());
}

#[test]
fn float_element_sizes() {
    assert_eq!(Format::R32Float.element_size(), 4);
    assert_eq!(Format::R16Float.element_size(), 2);
    assert_eq!(Format::RG32Float.element_size(), 8);
    assert_eq!(Format::RGB32Float.element_size(), 12);
    assert_eq!(Format::RGBA32Float.element_size(), 16);
}

#[test]
fn srgb_counterparts() {
    assert_eq!(Format::RGBA8UNorm.srgb_format(), Some(Format::RGBA8Srgb));
    assert_eq!(Format::BGRA8UNorm.srgb_format(), None);
}

#[test]
fn color_record_skips_its_fourth_byte() {
    let data = [10u8, 20, 30, 99, 0xFE, 1, 2, 3, 4, 5];
    let (c, next) = ColorRGBExp32::read(&data, 0).unwrap();
    assert_eq!((c.r, c.g, c.b, c.exponent), (10, 20, 30, -2));
    assert_eq!(next, 5);
    let (c2, next2) = ColorRGBExp32::read(&data, next).unwrap();
    assert_eq!((c2.r, c2.exponent), (1, 5));
    assert_eq!(next2, 10);
    assert_eq!(ColorRGBExp32::read(&data, 6), Err(LumpReadError::UnexpectedEof));
}

#[test]
fn light_cube_reads_six_colors() {
    let mut data = Vec::new();
    for i in 0..6u8 {
        data.extend_from_slice(&[i, i + 1, i + 2, 0, 0x80 + i]);
    }
    let (cube, next) = CompressedLightCube::read(&data, 0).unwrap();
    assert_eq!(next, 30);
    assert_eq!(cube.color[0].g, 1);
    assert_eq!(cube.color[5].r, 5);
    assert_eq!(cube.color[5].exponent, -123);
    assert!(CompressedLightCube::read(&data[..29], 0).is_err());
}

#[test]
fn little_endian_indices() {
    let data = [0x78u8, 0x56, 0x34, 0x12, 0xFF];
    let (v, next) = VertexNormalIndex::read(&data, 0).unwrap();
    assert_eq!(v.index, 0x12345678);
    assert_eq!(next, 4);
    assert_eq!(VertexNormalIndex::read(&data, 2), Err(LumpReadError::UnexpectedEof));
    let (b, next) = LeafBrush::read(&data, 3).unwrap();
    assert_eq!(b.index, 0xFF12);
    assert_eq!(next, 5);
    assert_eq!(LeafBrush::read(&data, 4), Err(LumpReadError::UnexpectedEof));
}

#[test]
fn command_buffer_lifecycle() {
    let mut cb = CommandBufferLifecycle::new();
    assert_eq!(cb.state, VkCommandBufferState::Ready);
    cb.begin();
    assert!(cb.is_recording());
    cb.end();
    assert_eq!(cb.state, VkCommandBufferState::Finished);
    cb.mark_submitted();
    assert_eq!(cb.state, VkCommandBufferState::Submitted);
    cb.reset();
    assert_eq!(cb.state, VkCommandBufferState::Ready);
}

#[test]
fn work_queue_hands_over_in_order() {
    let mut q: WebGLThreadQueue<u32> = WebGLThreadQueue::new();
    q.send(1);
    q.send(2);
    assert!(q.read_queue().is_empty());
    q.swap_buffers();
    q.send(3);
    assert_eq!(q.read_queue().as_slice(), &[1, 2]);
    q.read_queue().clear();
    q.swap_buffers();
    assert_eq!(q.read_queue().as_slice(), &[3]);
}

#[test]
fn producer_types_give_source_scopes() {
    let g = AttachmentProducerPassType::of(PassType::Graphics);
    assert_eq!(g, AttachmentProducerPassType::Graphics);
    assert_eq!(g.source_stages().bits, SYNC_RENDER_TARGET);
    assert_eq!(g.source_access().bits, ACCESS_RENDER_TARGET_WRITE);
    let c = AttachmentProducerPassType::of(PassType::Compute);
    assert_eq!(c.source_stages().bits, SYNC_COMPUTE_SHADER);
    assert_eq!(c.source_access().bits, ACCESS_SHADER_WRITE);
    let t = AttachmentProducerPassType::of(PassType::Copy);
    assert_eq!(t.source_stages().bits, SYNC_COPY);
    assert_eq!(t.source_access().bits, ACCESS_COPY_WRITE);
}
