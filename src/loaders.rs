//! Asset loaders. They keep no state of their own: what they read, and
//! where they put it, is outside this library.
use vstd::prelude::*;

verus! {

/// Loads scenes and models from glTF files.
#[derive(Clone, Copy, Debug, PartialEq, Eq, Structural)]
pub struct GltfLoader {}

impl GltfLoader {
    pub fn new() -> (r: GltfLoader)
        ensures
            r == (GltfLoader {}),
    {
        GltfLoader {}
    }
}

/// Loads textures from VTF files.
#[derive(Clone, Copy, Debug, PartialEq, Eq, Structural)]
pub struct VTFTextureLoader {}

impl VTFTextureLoader {
    pub fn new() -> (r: VTFTextureLoader)
        ensures
            r == (VTFTextureLoader {}),
    {
        VTFTextureLoader {}
    }
}

} // verus!
