//! The sky a scene is rendered against.
use vstd::prelude::*;

verus! {

/// The backdrop for rays that leave the scene: a decoded equirectangular
/// texture (RGB8 pixels, width, height, and the path it came from), or the
/// flat two-colour gradient when absent.
pub struct Sky {
    pub texture: Option<(Vec<u8>, usize, usize, String)>,
}

impl Sky {
    /// A sky drawn as the plain gradient, with no texture.
    pub fn new_default_sky() -> (r: Sky)
        ensures
            r.texture is None,
    {
        Sky { texture: None }
    }
}

} // verus!
