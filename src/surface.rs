//! Presentation surfaces and swapchains, as backends provide them.
use vstd::prelude::*;

use std::sync::Arc;

verus! {

/// Why a swapchain could not be made.
#[derive(Clone, Copy, Debug, PartialEq, Eq, Structural, Hash)]
pub enum SwapchainError {
    ZeroExtents,
    Other,
}

/// A surface that frames can be presented to.
pub trait Surface {
}

/// The images a surface presents, made again when the surface changes size.
pub trait Swapchain: Sized {
    fn recreate(old: &Self, width: u32, height: u32) -> Result<Arc<Self>, SwapchainError>;
}

} // verus!
