//! Command buffer kinds and the lifecycle of a command buffer.
use vstd::prelude::*;

verus! {

#[allow(non_camel_case_types)]
#[derive(Clone, Copy, Debug, PartialEq, Eq, Structural, Hash)]
pub enum CommandBufferType {
    PRIMARY,
    SECONDARY,
}

/// How often the resources bound at a binding change, from every draw to
/// rarely.
#[derive(Clone, Copy, Debug, PartialEq, Eq, Structural, Hash)]
pub enum BindingFrequency {
    PerDraw,
    PerMaterial,
    PerModel,
    Rarely,
}

/// A scissor rectangle: its corner and its size in pixels.
#[derive(Clone, Copy, Debug, PartialEq, Eq, Structural, Hash)]
pub struct Scissor {
    pub position_x: i32,
    pub position_y: i32,
    pub extent_width: u32,
    pub extent_height: u32,
}

/// Where a command buffer is in its life.
#[derive(Clone, Copy, Debug, PartialEq, Eq, Structural, Hash)]
pub enum VkCommandBufferState {
    Ready,
    Recording,
    Finished,
    Submitted,
}

/// An object that can be brought back to its initial state.
pub trait Resettable {
    fn reset(&mut self);
}

/// The lifecycle of a command buffer: it is begun once ready, ended while
/// recording, submitted once finished, and reset to be used again.
pub struct CommandBufferLifecycle {
    pub state: VkCommandBufferState,
}

impl CommandBufferLifecycle {
    pub fn new() -> (r: CommandBufferLifecycle)
        ensures
            r.state == VkCommandBufferState::Ready,
    {
        CommandBufferLifecycle { state: VkCommandBufferState::Ready }
    }

    pub fn begin(&mut self)
        requires
            old(self).state == VkCommandBufferState::Ready,
        ensures
            final(self).state == VkCommandBufferState::Recording,
    {
        self.state = VkCommandBufferState::Recording;
    }

    pub fn end(&mut self)
        requires
            old(self).state == VkCommandBufferState::Recording,
        ensures
            final(self).state == VkCommandBufferState::Finished,
    {
        self.state = VkCommandBufferState::Finished;
    }

    pub fn mark_submitted(&mut self)
        requires
            old(self).state == VkCommandBufferState::Finished,
        ensures
            final(self).state == VkCommandBufferState::Submitted,
    {
        self.state = VkCommandBufferState::Submitted;
    }

    /// Commands may be recorded only between `begin` and `end`.
    pub fn is_recording(&self) -> (r: bool)
        ensures
            r == (self.state == VkCommandBufferState::Recording),
    {
        self.state == VkCommandBufferState::Recording
    }
}

impl Resettable for CommandBufferLifecycle {
    fn reset(&mut self) {
        self.state = VkCommandBufferState::Ready;
    }
}

} // verus!
