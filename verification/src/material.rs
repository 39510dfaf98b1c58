//! Textures addressed by texel.

use vstd::prelude::*;

verus! {

/// What a texture yields at one texel. It carries no data yet, so every
/// texel of every texture yields the same value.
pub struct TextureInfo;

/// A surface pattern that can be asked for the texel at `(x, y)`.
pub trait TextureMaterial {
    fn get_texture(&self, x: u32, y: u32) -> TextureInfo;
}

/// The texture that is the same at every texel.
pub struct UniformTexture {}

impl UniformTexture {
    pub fn new() -> (texture: Self)
        ensures
            texture == (UniformTexture {}),
    {
        Self {}
    }
}

impl TextureMaterial for UniformTexture {
    fn get_texture(&self, x: u32, y: u32) -> TextureInfo {
        TextureInfo
    }
}

} // verus!
