//! Identifier types for the shared scene tables.
//!
//! Materials and textures live in flat tables built once before rendering;
//! primitives refer to them through these small index wrappers rather than
//! through references, so the tables can be shared read-only by every worker.

use vstd::prelude::*;

verus! {

/// An index into the material table.
#[derive(Debug, Clone, Copy, PartialEq, Eq, Structural)]
pub struct MaterialId(pub u32);

impl MaterialId {
    pub fn to_index(self) -> (r: usize)
        ensures
            r == self.0 as usize,
    {
        self.0 as usize
    }
}

/// An index into the texture table.
#[derive(Debug, Clone, Copy, PartialEq, Eq, Structural)]
pub struct TextureId(pub u32);

impl TextureId {
    pub fn to_index(self) -> (r: usize)
        ensures
            r == self.0 as usize,
    {
        self.0 as usize
    }
}

} // verus!
