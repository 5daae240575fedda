//! Frame graph and resource synchronization engine.
//!
//! The library tracks the synchronization state of every GPU resource a
//! render pipeline touches, decides which barriers each access needs,
//! schedules declared passes into a valid execution order and drives the
//! per-frame replay of that schedule, including history ping-pong.
//!
//! - `sync`: stage and access bit sets, image layouts.
//! - `tracking`: the state of one subresource, when an access needs a
//!   barrier, and the barriers for a range of an image.
//! - `registry`: every tracked image and buffer by name, with one or two
//!   physical instances, their view caches and the typed accessors.
//! - `schedule`: pass declarations and their order.
//! - `template`: render-pass fusion, subpass dependencies and the barrier
//!   templates replayed every frame.
//! - `executor`: the per-frame replay, the frame state machine and what a
//!   pass may resolve while it records.
//! - `format`, `command`, `surface`, `lump`, `loaders`, `work_queue`:
//!   pixel formats, command buffer kinds and lifecycle, presentation
//!   surfaces, map lump records, asset loaders and a double-buffered work
//!   queue.
use vstd::prelude::*;

pub mod command;
pub mod executor;
pub mod format;
pub mod loaders;
pub mod lump;
pub mod registry;
pub mod schedule;
pub mod surface;
pub mod sync;
pub mod template;
pub mod tracking;
pub mod work_queue;

verus! {

} // verus!
