//! Frame and cell geometry, and the encoding plan derived from it.

use vstd::prelude::*;

use crate::errors::CodecError;

verus! {

/// Ceiling of `a / b` for `b > 0`, written over integers.
pub open spec fn ceil_div(a: int, b: int) -> int {
    (a + b - 1) / b
}

/// Layout of one frame: the raster dimensions and the size of the square
/// cell that carries a single bit.
#[derive(Clone, Copy, Debug, PartialEq, Eq, Structural)]
pub struct Geometry {
    /// Frame width in pixels.
    pub width: usize,
    /// Frame height in pixels.
    pub height: usize,
    /// Cell width in pixels.
    pub cell_width: usize,
    /// Cell height in pixels.
    pub cell_height: usize,
}

impl Geometry {
    /// How many cells fit in one row of cells.
    pub open spec fn cells_per_row(self) -> int {
        self.width as int / self.cell_width as int
    }

    /// How many rows of cells fit in one frame.
    pub open spec fn cell_rows(self) -> int {
        self.height as int / self.cell_height as int
    }

    /// Bits carried by one frame: one bit per cell.
    pub open spec fn bits_per_frame(self) -> int {
        self.cells_per_row() * self.cell_rows()
    }

    /// Whole bytes carried by one frame.
    pub open spec fn bytes_per_frame(self) -> int {
        self.bits_per_frame() / 8
    }

    /// Pixels in one frame.
    pub open spec fn pixel_count(self) -> int {
        self.width as int * self.height as int
    }

    /// Pixels in one cell.
    pub open spec fn cell_area(self) -> int {
        self.cell_width as int * self.cell_height as int
    }

    /// A geometry is valid when cells tile the frame exactly and the bits of
    /// one frame pack into whole bytes.
    pub open spec fn valid(self) -> bool {
        &&& self.cell_width > 0
        &&& self.cell_height > 0
        &&& self.width as int % self.cell_width as int == 0
        &&& self.height as int % self.cell_height as int == 0
        &&& self.bits_per_frame() > 0
        &&& self.bits_per_frame() % 8 == 0
    }

    /// Machine bound: the pixel buffer of one frame stays addressable and
    /// pixel sums stay far from overflow.
    pub open spec fn fits(self) -> bool {
        self.pixel_count() < 0x1_0000_0000
    }

    /// Builds a geometry from its four pixel measurements.
    pub fn new(width: usize, height: usize, cell_width: usize, cell_height: usize) -> (g: Geometry)
        ensures
            g == (Geometry { width, height, cell_width, cell_height }),
    {
        Geometry { width, height, cell_width, cell_height }
    }

    /// Runtime test of `valid`, usable by unverified callers before they
    /// trust a geometry.
    pub fn check_valid(&self) -> (ok: bool)
        requires
            self.fits(),
        ensures
            ok == self.valid(),
    {
        if self.cell_width == 0 || self.cell_height == 0 {
            return false;
        }
        if self.width % self.cell_width != 0 || self.height % self.cell_height != 0 {
            return false;
        }
        let cells_row: usize = self.width / self.cell_width;
        let cell_rows: usize = self.height / self.cell_height;
        proof {
            lemma_cells_product_bound(*self);
        }
        let bits: usize = cells_row * cell_rows;
        bits > 0 && bits % 8 == 0
    }

    /// Runtime test of `fits`.
    pub fn check_fits(&self) -> (ok: bool)
        ensures
            ok == self.fits(),
    {
        if self.width == 0 || self.height == 0 {
            proof {
                assert(self.pixel_count() == 0) by (nonlinear_arith)
                    requires
                        self.width as int == 0 || self.height as int == 0,
                ;
            }
            return true;
        }
        let w: u64 = self.width as u64;
        let h: u64 = self.height as u64;
        if w >= 0x1_0000_0000u64 || h >= 0x1_0000_0000u64 {
            proof {
                assert(self.width as int * self.height as int >= 0x1_0000_0000) by (nonlinear_arith)
                    requires
                        self.width as int >= 0x1_0000_0000 && self.height as int >= 1
                            || self.height as int >= 0x1_0000_0000 && self.width as int >= 1,
                ;
            }
            return false;
        }
        proof {
            assert(w as int * h as int <= 0xffff_ffff_ffff_ffff) by (nonlinear_arith)
                requires
                    (w as int) < 0x1_0000_0000,
                    (h as int) < 0x1_0000_0000,
            ;
        }
        let px: u64 = w * h;
        px < 0x1_0000_0000u64
    }
}

/// The product of the two cell-grid dimensions is bounded by the pixel count.
pub proof fn lemma_cells_product_bound(g: Geometry)
    requires
        g.cell_width > 0,
        g.cell_height > 0,
    ensures
        0 <= g.bits_per_frame() <= g.pixel_count(),
{
    let cpr = g.cells_per_row();
    let rows = g.cell_rows();
    assert(0 <= cpr <= g.width as int && 0 <= rows <= g.height as int) by (nonlinear_arith)
        requires
            g.cell_width as int > 0,
            g.cell_height as int > 0,
            cpr == g.width as int / g.cell_width as int,
            rows == g.height as int / g.cell_height as int,
    ;
    assert(0 <= cpr * rows <= g.width as int * g.height as int) by (nonlinear_arith)
        requires
            0 <= cpr <= g.width as int,
            0 <= rows <= g.height as int,
    ;
}

/// Frame count owed for a payload of `size` bytes under geometry `g`:
/// the least number of frames whose bits cover every payload bit.
pub open spec fn spec_frame_count(size: int, g: Geometry) -> int {
    ceil_div(8 * size, g.bits_per_frame())
}

/// Sizes derived from a geometry and a payload size: how many bits and bytes
/// one frame carries, and how many frames the payload needs.
#[derive(Clone, Copy, Debug, PartialEq, Eq, Structural)]
pub struct EncodingPlan {
    /// Bits carried by one frame.
    pub bits_per_frame: usize,
    /// Whole bytes carried by one frame.
    pub bytes_per_frame: usize,
    /// Number of frames covering the payload.
    pub frame_count: usize,
}

impl EncodingPlan {
    /// The plan matches `size` and `g`.
    pub open spec fn matches(self, size: int, g: Geometry) -> bool {
        &&& self.bits_per_frame == g.bits_per_frame()
        &&& self.bytes_per_frame == g.bytes_per_frame()
        &&& self.frame_count == spec_frame_count(size, g)
    }

    /// Computes the plan for a payload of `size` bytes under geometry `g`.
    ///
    /// Succeeds exactly on valid geometries; an invalid layout is a
    /// configuration error.  The frame count equals the ceiling of
    /// `8 * size / bits_per_frame`.
    pub fn new(size: usize, g: &Geometry) -> (r: Result<EncodingPlan, CodecError>)
        requires
            g.fits(),
        ensures
            r is Ok <==> g.valid(),
            r matches Ok(p) ==> p.matches(size as int, *g),
            r is Err ==> r == Err::<EncodingPlan, CodecError>(CodecError::Configuration),
    {
        if g.cell_width == 0 || g.cell_height == 0 {
            return Err(CodecError::Configuration);
        }
        if g.width % g.cell_width != 0 || g.height % g.cell_height != 0 {
            return Err(CodecError::Configuration);
        }
        let cells_row: usize = g.width / g.cell_width;
        let cell_rows: usize = g.height / g.cell_height;
        proof {
            lemma_cells_product_bound(*g);
        }
        let bits: usize = cells_row * cell_rows;
        if bits == 0 || bits % 8 != 0 {
            return Err(CodecError::Configuration);
        }
        let bytes: usize = bits / 8;
        let whole: usize = size / bytes;
        let frame_count: usize = if size % bytes != 0 {
            proof {
                vstd::arithmetic::div_mod::lemma_fundamental_div_mod(size as int, bytes as int);
                assert((whole as int) < size as int) by (nonlinear_arith)
                    requires
                        size as int == bytes as int * (size as int / bytes as int) + size as int
                            % bytes as int,
                        whole as int == size as int / bytes as int,
                        size as int % bytes as int >= 1,
                        bytes as int >= 1,
                        whole as int >= 0,
                ;
            }
            whole + 1
        } else {
            whole
        };
        proof {
            lemma_frame_count_formula(size as int, bytes as int);
        }
        Ok(EncodingPlan { bits_per_frame: bits, bytes_per_frame: bytes, frame_count })
    }
}

/// Counting frames by whole bytes agrees with the ceiling over bits:
/// `ceil(8 s / 8 b)` equals `s / b`, rounded up when a remainder is left.
pub proof fn lemma_frame_count_formula(s: int, b: int)
    requires
        s >= 0,
        b > 0,
    ensures
        ceil_div(8 * s, 8 * b) == s / b + if s % b != 0 { 1int } else { 0int },
{
    let q = s / b;
    let r = s % b;
    vstd::arithmetic::div_mod::lemma_fundamental_div_mod(s, b);
    let fc = q + if r != 0 { 1int } else { 0int };
    let rem = 8 * s + 8 * b - 1 - fc * (8 * b);
    if r == 0 {
        assert(rem == 8 * b - 1) by (nonlinear_arith)
            requires
                s == q * b + r,
                r == 0,
                fc == q,
                rem == 8 * s + 8 * b - 1 - fc * (8 * b),
        ;
    } else {
        assert(rem == 8 * r - 1) by (nonlinear_arith)
            requires
                s == q * b + r,
                fc == q + 1,
                rem == 8 * s + 8 * b - 1 - fc * (8 * b),
        ;
        assert(0 < r < b);
    }
    assert(0 <= rem < 8 * b);
    vstd::arithmetic::div_mod::lemma_fundamental_div_mod_converse(
        8 * s + 8 * b - 1,
        8 * b,
        fc,
        rem,
    );
}

/// The planned frames cover the payload: `frame_count * bytes_per_frame`
/// reaches `size`, and every frame before the last one starts strictly
/// inside the payload.
pub proof fn lemma_frame_count_covers(size: int, g: Geometry)
    requires
        size >= 0,
        g.valid(),
    ensures
        spec_frame_count(size, g) >= 0,
        spec_frame_count(size, g) * g.bytes_per_frame() >= size,
        forall|i: int|
            0 <= i < spec_frame_count(size, g) ==> #[trigger] (i * g.bytes_per_frame()) < size,
{
    let b = g.bytes_per_frame();
    assert(b > 0);
    lemma_frame_count_formula(size, b);
    assert(8 * g.bytes_per_frame() == g.bits_per_frame());
    let q = size / b;
    let r = size % b;
    vstd::arithmetic::div_mod::lemma_fundamental_div_mod(size, b);
    let fc = spec_frame_count(size, g);
    assert(fc == q + if r != 0 { 1int } else { 0int });
    assert(fc * b >= size) by (nonlinear_arith)
        requires
            size == q * b + r,
            0 <= r < b,
            fc == q + if r != 0 { 1int } else { 0int },
    ;
    assert forall|i: int| 0 <= i < fc implies #[trigger] (i * b) < size by {
        assert(i * b < size) by (nonlinear_arith)
            requires
                size == q * b + r,
                0 <= r < b,
                b > 0,
                fc == q + if r != 0 { 1int } else { 0int },
                0 <= i < fc,
        ;
    }
}

} // verus!
