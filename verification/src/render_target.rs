use vstd::prelude::*;

verus! {

/// Dimensions of the output image, in pixels.
pub struct RenderTarget {
    pub width: u32,
    pub height: u32,
}

impl RenderTarget {
    /// An empty render target; the real dimensions are chosen by the render
    /// entry point from the configured resolution and the camera aspect ratio.
    pub fn new() -> (r: RenderTarget)
        ensures
            r.width == 0,
            r.height == 0,
    {
        let width: u32 = 0;
        let height: u32 = 0;
        RenderTarget { width, height }
    }
}

} // verus!
