//! The raster frame: one intensity value per pixel, row-major.

use vstd::prelude::*;

use crate::errors::CodecError;
use crate::geometry::Geometry;

verus! {

/// One raster frame: `pixels` holds one intensity byte per pixel in
/// row-major order, `width * height` in all.
#[derive(Debug)]
pub struct Frame {
    /// Width in pixels.
    pub width: usize,
    /// Height in pixels.
    pub height: usize,
    /// Row-major intensity values, one byte per pixel.
    pub pixels: Vec<u8>,
}

impl View for Frame {
    type V = (int, int, Seq<u8>);

    /// A frame is modelled by its width, height and pixel sequence.
    open spec fn view(&self) -> (int, int, Seq<u8>) {
        (self.width as int, self.height as int, self.pixels@)
    }
}

impl Frame {
    /// The pixel buffer covers the raster exactly.
    pub open spec fn wf(self) -> bool {
        self.pixels@.len() == self.width as int * self.height as int
    }

    /// The frame has the raster dimensions of geometry `g`.
    pub open spec fn matches(self, g: Geometry) -> bool {
        &&& self.wf()
        &&& self.width == g.width
        &&& self.height == g.height
    }

    /// Wraps a raw pixel buffer as a frame of the given dimensions; the
    /// buffer must hold exactly one byte per pixel.
    pub fn new(width: usize, height: usize, pixels: Vec<u8>) -> (r: Result<Frame, CodecError>)
        requires
            (width as int) * (height as int) <= usize::MAX,
        ensures
            r is Ok <==> pixels@.len() == width as int * height as int,
            r matches Ok(f) ==> f == (Frame { width, height, pixels }),
            r is Err ==> r == Err::<Frame, CodecError>(CodecError::FrameGeometryMismatch),
    {
        proof {
            assert((width as int) * (height as int) >= 0) by (nonlinear_arith);
        }
        let expected: usize = width * height;
        if pixels.len() != expected {
            return Err(CodecError::FrameGeometryMismatch);
        }
        Ok(Frame { width, height, pixels })
    }

    /// Runtime test of `matches`.
    pub fn check_matches(&self, g: &Geometry) -> (ok: bool)
        requires
            g.fits(),
        ensures
            ok == self.matches(*g),
    {
        if self.width != g.width || self.height != g.height {
            return false;
        }
        let expected: usize = g.width * g.height;
        self.pixels.len() == expected
    }
}

impl Clone for Frame {
    /// Copies the frame, pixels included.
    fn clone(&self) -> (r: Self)
        ensures
            r@ == self@,
    {
        Frame { width: self.width, height: self.height, pixels: clone_pixels(&self.pixels) }
    }
}

/// Copies a pixel buffer element by element.
fn clone_pixels(pixels: &Vec<u8>) -> (r: Vec<u8>)
    ensures
        r@ == pixels@,
{
    let mut out: Vec<u8> = Vec::new();
    let mut i: usize = 0;
    while i < pixels.len()
        invariant
            i <= pixels@.len(),
            out@ == pixels@.subrange(0, i as int),
        decreases pixels@.len() - i,
    {
        out.push(pixels[i]);
        proof {
            assert(out@ =~= pixels@.subrange(0, i + 1));
        }
        i = i + 1;
    }
    proof {
        assert(out@ =~= pixels@);
    }
    out
}

} // verus!
