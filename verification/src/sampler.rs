//! Sampling a decoded raster back into bits: every cell's mean intensity is
//! compared against the midpoint of the intensity range.

use vstd::prelude::*;

use crate::encoder::{cell_index, chunk_bit, encoded_frame};
use crate::frame::Frame;
use crate::geometry::Geometry;

verus! {

/// Raster index of the `k`-th pixel (row-major within the cell) of cell `c`
/// (row-major within the cell grid).
pub open spec fn cell_pixel(g: Geometry, c: int, k: int) -> int {
    let cx = c % g.cells_per_row();
    let cy = c / g.cells_per_row();
    let dx = k % g.cell_width as int;
    let dy = k / g.cell_width as int;
    (cy * g.cell_height as int + dy) * g.width as int + cx * g.cell_width as int + dx
}

/// Sum of the first `k` pixel intensities of cell `c`.
pub open spec fn cell_sum(f: Seq<u8>, g: Geometry, c: int, k: int) -> int
    decreases k,
{
    if k <= 0 {
        0
    } else {
        cell_sum(f, g, c, k - 1) + f[cell_pixel(g, c, k - 1)]
    }
}

/// The bit sampled from cell `c`: one exactly when the mean intensity of the
/// cell reaches the midpoint of the intensity range.
pub open spec fn sampled_bit(f: Seq<u8>, g: Geometry, c: int) -> bool {
    cell_sum(f, g, c, g.cell_area()) / g.cell_area() >= 128
}

/// All bits sampled from one frame, in row-major cell order.
pub open spec fn sampled_bits(f: Seq<u8>, g: Geometry) -> Seq<bool> {
    Seq::new(g.bits_per_frame() as nat, |c: int| sampled_bit(f, g, c))
}

/// Cell pixels stay inside the raster, and belong to the cell they are
/// computed from.
pub proof fn lemma_cell_pixel_in_range(g: Geometry, c: int, k: int)
    requires
        g.valid(),
        0 <= c < g.bits_per_frame(),
        0 <= k < g.cell_area(),
    ensures
        0 <= c / g.cells_per_row() * g.cell_height as int + k / g.cell_width as int,
        (c / g.cells_per_row() * g.cell_height as int + k / g.cell_width as int) < g.height as int,
        0 <= c % g.cells_per_row() * g.cell_width as int + k % g.cell_width as int,
        (c % g.cells_per_row() * g.cell_width as int + k % g.cell_width as int) < g.width as int,
        0 <= cell_pixel(g, c, k) < g.pixel_count(),
        cell_index(g, cell_pixel(g, c, k)) == c,
{
    let w = g.width as int;
    let h = g.height as int;
    let cw = g.cell_width as int;
    let ch = g.cell_height as int;
    let cpr = g.cells_per_row();
    let rows = g.cell_rows();
    let cx = c % cpr;
    let cy = c / cpr;
    let dx = k % cw;
    let dy = k / cw;
    assert(cpr > 0 && rows > 0) by (nonlinear_arith)
        requires
            cpr * rows > 0,
            cpr == w / cw,
            w >= 0,
            cw > 0,
    ;
    assert(0 <= cx < cpr && 0 <= dx < cw);
    assert(0 <= cy < rows) by (nonlinear_arith)
        requires
            cy == c / cpr,
            0 <= c,
            c < cpr * rows,
            cpr > 0,
            rows > 0,
    ;
    assert(0 <= dy < ch) by (nonlinear_arith)
        requires
            dy == k / cw,
            0 <= k,
            k < cw * ch,
            cw > 0,
            ch > 0,
    ;
    let x = cx * cw + dx;
    let y = cy * ch + dy;
    assert(0 <= x < w) by (nonlinear_arith)
        requires
            x == cx * cw + dx,
            0 <= cx < cpr,
            0 <= dx < cw,
            cpr == w / cw,
            w % cw == 0,
            cw > 0,
    ;
    assert(0 <= y < h) by (nonlinear_arith)
        requires
            y == cy * ch + dy,
            0 <= cy < rows,
            0 <= dy < ch,
            rows == h / ch,
            h % ch == 0,
            ch > 0,
    ;
    let p = y * w + x;
    assert(cell_pixel(g, c, k) == p);
    assert(0 <= p < h * w) by (nonlinear_arith)
        requires
            p == y * w + x,
            0 <= y < h,
            0 <= x < w,
            w > 0,
    ;
    assert(0 <= p < g.pixel_count()) by (nonlinear_arith)
        requires
            0 <= p < h * w,
            g.pixel_count() == w * h,
    ;
    vstd::arithmetic::div_mod::lemma_fundamental_div_mod_converse(p, w, y, x);
    assert(p % w == x && p / w == y);
    vstd::arithmetic::div_mod::lemma_fundamental_div_mod_converse(x, cw, cx, dx);
    vstd::arithmetic::div_mod::lemma_fundamental_div_mod_converse(y, ch, cy, dy);
    assert(x / cw == cx && y / ch == cy);
    vstd::arithmetic::div_mod::lemma_fundamental_div_mod(c, cpr);
    assert(cy * cpr == cpr * cy) by (nonlinear_arith);
    assert(cell_index(g, p) == cy * cpr + cx);
    assert(cy * cpr + cx == c);
}

/// Samples one frame into its ordered bit sequence, one bit per cell: the
/// cell's mean intensity is compared against the midpoint of the range, so
/// the result tolerates per-pixel noise that keeps the mean on one side.
#[verifier::loop_isolation(false)]
pub fn sample_frame(f: &Frame, g: &Geometry) -> (bits: Vec<bool>)
    requires
        g.valid(),
        g.fits(),
        f.matches(*g),
    ensures
        bits@ == sampled_bits(f.pixels@, *g),
{
    let w: usize = g.width;
    let cw: usize = g.cell_width;
    let ch: usize = g.cell_height;
    let cpr: usize = w / cw;
    let rows: usize = g.height / ch;
    proof {
        crate::geometry::lemma_cells_product_bound(*g);
        assert(cpr as int > 0 && rows as int > 0) by (nonlinear_arith)
            requires
                cpr as int * rows as int > 0,
                cpr as int >= 0,
                rows as int >= 0,
        ;
        assert(cw as int <= g.width as int) by (nonlinear_arith)
            requires
                g.width as int / cw as int >= 1,
                g.width as int % cw as int == 0,
                cw as int > 0,
                g.width as int >= 0,
        ;
        assert(ch as int <= g.height as int) by (nonlinear_arith)
            requires
                g.height as int / ch as int >= 1,
                g.height as int % ch as int == 0,
                ch as int > 0,
                g.height as int >= 0,
        ;
        assert(cw as int * ch as int <= g.pixel_count()) by (nonlinear_arith)
            requires
                0 < cw as int <= g.width as int,
                0 < ch as int <= g.height as int,
                g.pixel_count() == g.width as int * g.height as int,
        ;
        assert(0 < cw as int * ch as int) by (nonlinear_arith)
            requires
                cw as int > 0,
                ch as int > 0,
        ;
    }
    let total: usize = cpr * rows;
    let area: usize = cw * ch;
    let mut bits: Vec<bool> = Vec::new();
    let mut c: usize = 0;
    while c < total
        invariant
            c <= total,
            bits@.len() == c as int,
            forall|j: int| 0 <= j < c as int ==> bits@[j] == sampled_bit(f.pixels@, *g, j),
        decreases total - c,
    {
        let cx: usize = c % cpr;
        let cy: usize = c / cpr;
        let mut sum: u64 = 0;
        let mut k: usize = 0;
        while k < area
            invariant
                k <= area,
                sum == cell_sum(f.pixels@, *g, c as int, k as int),
                sum <= 255 * (k as int),
            decreases area - k,
        {
            let dx: usize = k % cw;
            let dy: usize = k / cw;
            proof {
                lemma_cell_pixel_in_range(*g, c as int, k as int);
            }
            let row: usize = cy * ch + dy;
            let px: usize = row * w + cx * cw + dx;
            proof {
                assert(px as int == cell_pixel(*g, c as int, k as int));
            }
            sum = sum + f.pixels[px] as u64;
            k = k + 1;
        }
        let mean: u64 = sum / (area as u64);
        proof {
            assert(mean as int == cell_sum(f.pixels@, *g, c as int, g.cell_area())
                / g.cell_area());
        }
        bits.push(mean >= 128);
        c = c + 1;
    }
    proof {
        assert(bits@ =~= sampled_bits(f.pixels@, *g));
    }
    bits
}

/// A cell sum is bounded below and above by uniform pixel bounds.
pub proof fn lemma_cell_sum_bounds(f: Seq<u8>, g: Geometry, c: int, k: int, lo: int, hi: int)
    requires
        0 <= k,
        forall|j: int| 0 <= j < k ==> lo <= #[trigger] f[cell_pixel(g, c, j)] <= hi,
    ensures
        k * lo <= cell_sum(f, g, c, k) <= k * hi,
    decreases k,
{
    if k == 0 {
    } else {
        lemma_cell_sum_bounds(f, g, c, k - 1, lo, hi);
        assert((k - 1) * lo + lo == k * lo && (k - 1) * hi + hi == k * hi) by (nonlinear_arith);
    }
}

/// Two frames that agree on every pixel of cell `c` sum that cell alike.
pub proof fn lemma_cell_sum_agree(f1: Seq<u8>, f2: Seq<u8>, g: Geometry, c: int, k: int)
    requires
        0 <= k,
        forall|j: int| 0 <= j < k ==> f1[cell_pixel(g, c, j)] == f2[cell_pixel(g, c, j)],
    ensures
        cell_sum(f1, g, c, k) == cell_sum(f2, g, c, k),
    decreases k,
{
    if k > 0 {
        lemma_cell_sum_agree(f1, f2, g, c, k - 1);
    }
}

/// Sampling looks only at the cell it reads: a bit cannot be disturbed by
/// changes anywhere outside its own cell.
pub proof fn lemma_sampling_local(f1: Seq<u8>, f2: Seq<u8>, g: Geometry, c: int)
    requires
        g.valid(),
        forall|k: int|
            0 <= k < g.cell_area() ==> f1[cell_pixel(g, c, k)] == f2[cell_pixel(g, c, k)],
    ensures
        sampled_bit(f1, g, c) == sampled_bit(f2, g, c),
{
    lemma_cell_sum_agree(f1, f2, g, c, g.cell_area());
}

/// The mean of a cell whose pixels all sit at or above the midpoint is at
/// or above the midpoint; all below, below.
proof fn lemma_mean_of_bounded_cell(f: Seq<u8>, g: Geometry, c: int, on: bool)
    requires
        g.valid(),
        on ==> forall|k: int| 0 <= k < g.cell_area() ==> #[trigger] f[cell_pixel(g, c, k)] >= 128,
        !on ==> forall|k: int| 0 <= k < g.cell_area() ==> #[trigger] f[cell_pixel(g, c, k)] <= 127,
    ensures
        sampled_bit(f, g, c) == on,
{
    let area = g.cell_area();
    assert(area > 0) by (nonlinear_arith)
        requires
            g.cell_width as int > 0,
            g.cell_height as int > 0,
            area == g.cell_width as int * g.cell_height as int,
    ;
    let s = cell_sum(f, g, c, area);
    if on {
        lemma_cell_sum_bounds(f, g, c, area, 128, 255);
        assert(s / area >= 128) by (nonlinear_arith)
            requires
                area > 0,
                area * 128 <= s,
        ;
    } else {
        lemma_cell_sum_bounds(f, g, c, area, 0, 127);
        assert(s / area <= 127) by (nonlinear_arith)
            requires
                area > 0,
                0 <= s <= area * 127,
        ;
    }
}

/// Sampling recovers encoding, cell by cell: the bit sampled from cell `c`
/// of the frame that encodes `chunk` is exactly chunk bit `c`.
pub proof fn lemma_sample_encoded_frame(chunk: Seq<u8>, g: Geometry, c: int)
    requires
        g.valid(),
        8 * chunk.len() <= g.bits_per_frame(),
        0 <= c < g.bits_per_frame(),
    ensures
        sampled_bit(encoded_frame(chunk, g), g, c) == chunk_bit(chunk, c),
{
    let f = encoded_frame(chunk, g);
    let on = chunk_bit(chunk, c);
    assert forall|k: int| 0 <= k < g.cell_area() implies #[trigger] f[cell_pixel(g, c, k)] == (
    if on {
        255u8
    } else {
        0u8
    }) by {
        lemma_cell_pixel_in_range(g, c, k);
    }
    lemma_mean_of_bounded_cell(f, g, c, on);
}

/// Noise tolerance: intensity noise within the thresholding margin moves no
/// sampled bit, so the noisy frame still decodes to the encoded bits.
pub proof fn lemma_noise_tolerance(chunk: Seq<u8>, g: Geometry, noisy: Seq<u8>, margin: int)
    requires
        g.valid(),
        8 * chunk.len() <= g.bits_per_frame(),
        0 <= margin < 128,
        noisy.len() == g.pixel_count(),
        forall|i: int|
            0 <= i < g.pixel_count() ==> encoded_frame(chunk, g)[i] - margin <= #[trigger] noisy[i]
                <= encoded_frame(chunk, g)[i] + margin,
    ensures
        sampled_bits(noisy, g) == sampled_bits(encoded_frame(chunk, g), g),
        forall|c: int|
            0 <= c < g.bits_per_frame() ==> #[trigger] sampled_bit(noisy, g, c) == chunk_bit(
                chunk,
                c,
            ),
{
    assert forall|c: int| 0 <= c < g.bits_per_frame() implies #[trigger] sampled_bit(noisy, g, c)
        == chunk_bit(chunk, c) by {
        let on = chunk_bit(chunk, c);
        assert forall|k: int| 0 <= k < g.cell_area() implies (if on {
            #[trigger] noisy[cell_pixel(g, c, k)] >= 128
        } else {
            noisy[cell_pixel(g, c, k)] <= 127
        }) by {
            lemma_cell_pixel_in_range(g, c, k);
            let p = cell_pixel(g, c, k);
            assert(encoded_frame(chunk, g)[p] == (if on {
                255u8
            } else {
                0u8
            }));
        }
        lemma_mean_of_bounded_cell(noisy, g, c, on);
    }
    assert forall|c: int| 0 <= c < g.bits_per_frame() implies #[trigger] sampled_bit(
        encoded_frame(chunk, g),
        g,
        c,
    ) == sampled_bit(noisy, g, c) by {
        lemma_sample_encoded_frame(chunk, g, c);
    }
    assert(sampled_bits(noisy, g) =~= sampled_bits(encoded_frame(chunk, g), g));
}

} // verus!
