//! Painting payload bits as pixel cells: one chunk of bytes becomes one
//! frame, a payload becomes an ordered frame sequence.

use vstd::prelude::*;

use crate::errors::CodecError;
use crate::file::FileInfo;
use crate::frame::Frame;
use crate::geometry::{lemma_frame_count_covers, spec_frame_count, EncodingPlan, Geometry};
use crate::order::{lemma_delivery_complete, FrameScheduler};

verus! {

/// Everything one encoding run needs: the payload's metadata and the frame
/// and cell layout to paint it with.
pub struct Encode {
    /// Metadata of the payload file.
    pub file: FileInfo,
    /// Frame and cell layout.
    pub geometry: Geometry,
}

impl Encode {
    /// Bundles the payload metadata with a layout given as a resolution and
    /// a cell size.
    pub fn new(file: FileInfo, res: (usize, usize), square_w: usize, square_h: usize) -> (e:
        Encode)
        ensures
            e.file == file,
            e.geometry == (Geometry {
                width: res.0,
                height: res.1,
                cell_width: square_w,
                cell_height: square_h,
            }),
    {
        Encode {
            file,
            geometry: Geometry {
                width: res.0,
                height: res.1,
                cell_width: square_w,
                cell_height: square_h,
            },
        }
    }
}

/// Bit `k` of byte `b`, counting from the least significant bit.
pub open spec fn bit_of_byte(b: u8, k: int) -> bool {
    (b >> (k as u8)) & 1 == 1
}

/// Bit `c` of a byte chunk: bits are taken byte by byte, least significant
/// bit first; bits past the end of the chunk are zero.
pub open spec fn chunk_bit(chunk: Seq<u8>, c: int) -> bool {
    0 <= c && c < 8 * chunk.len() && bit_of_byte(chunk[c / 8], c % 8)
}

/// The cell that pixel `i` (row-major) belongs to, in row-major cell order.
pub open spec fn cell_index(g: Geometry, i: int) -> int {
    let x = i % g.width as int;
    let y = i / g.width as int;
    (y / g.cell_height as int) * g.cells_per_row() + x / g.cell_width as int
}

/// Intensity of pixel `i` of the frame that encodes `chunk`: fully on for a
/// one bit, fully off for a zero bit or an unused cell.
pub open spec fn encoded_pixel(chunk: Seq<u8>, g: Geometry, i: int) -> u8 {
    if chunk_bit(chunk, cell_index(g, i)) {
        255
    } else {
        0
    }
}

/// The pixel buffer of the frame that encodes `chunk` under geometry `g`.
pub open spec fn encoded_frame(chunk: Seq<u8>, g: Geometry) -> Seq<u8> {
    Seq::new((g.width as int * g.height as int) as nat, |i: int| encoded_pixel(chunk, g, i))
}

/// The bytes of payload chunk `i`: a full frame's worth, or what is left.
pub open spec fn chunk_of(payload: Seq<u8>, g: Geometry, i: int) -> Seq<u8> {
    let start = i * g.bytes_per_frame();
    let end = if start + g.bytes_per_frame() <= payload.len() {
        start + g.bytes_per_frame()
    } else {
        payload.len() as int
    };
    payload.subrange(start, end)
}

/// The ordered frame sequence (as pixel buffers) that encodes `payload`.
pub open spec fn encoded_stream(payload: Seq<u8>, g: Geometry) -> Seq<Seq<u8>> {
    Seq::new(
        spec_frame_count(payload.len() as int, g) as nat,
        |i: int| encoded_frame(chunk_of(payload, g, i), g),
    )
}

/// Paints one chunk of payload bytes as one frame: cell `c` (row-major) is
/// fully on when chunk bit `c` is one, fully off otherwise, and every cell
/// past the chunk's bits is painted off.
#[verifier::loop_isolation(false)]
pub fn encode_frame(chunk: &[u8], g: &Geometry) -> (f: Frame)
    requires
        g.valid(),
        g.fits(),
        8 * chunk@.len() <= g.bits_per_frame(),
    ensures
        f.matches(*g),
        f.pixels@ == encoded_frame(chunk@, *g),
{
    let w: usize = g.width;
    let h: usize = g.height;
    let cw: usize = g.cell_width;
    let ch: usize = g.cell_height;
    let cpr: usize = w / cw;
    proof {
        crate::geometry::lemma_cells_product_bound(*g);
    }
    let mut pixels: Vec<u8> = Vec::new();
    let mut y: usize = 0;
    while y < h
        invariant
            y <= h,
            pixels@.len() == y as int * w as int,
            forall|i: int|
                0 <= i < pixels@.len() ==> pixels@[i] == encoded_pixel(chunk@, *g, i),
        decreases h - y,
    {
        let mut x: usize = 0;
        proof {
            assert(y as int * w as int + w <= h as int * w as int) by (nonlinear_arith)
                requires
                    (y as int) < h as int,
                    w as int >= 0,
            ;
        }
        while x < w
            invariant
                x <= w,
                pixels@.len() == y as int * w as int + x as int,
                forall|i: int|
                    0 <= i < pixels@.len() ==> pixels@[i] == encoded_pixel(chunk@, *g, i),
            decreases w - x,
        {
            let cell_row: usize = y / ch;
            let cell_col: usize = x / cw;
            proof {
                assert(cell_row as int * cpr as int + cell_col < g.bits_per_frame())
                    by (nonlinear_arith)
                    requires
                        cell_row as int == y as int / ch as int,
                        cell_col as int == x as int / cw as int,
                        cpr as int == g.cells_per_row(),
                        g.cell_rows() == h as int / ch as int,
                        g.bits_per_frame() == g.cells_per_row() * g.cell_rows(),
                        0 <= y as int && (y as int) < h as int,
                        0 <= x as int && (x as int) < w as int,
                        ch as int > 0,
                        cw as int > 0,
                        h as int % ch as int == 0,
                        w as int % cw as int == 0,
                        cpr as int == w as int / cw as int,
                ;
            }
            let c: usize = cell_row * cpr + cell_col;
            let byte_idx: usize = c / 8;
            let v: u8 = if byte_idx < chunk.len() {
                let k: u8 = (c % 8) as u8;
                if ((chunk[byte_idx] >> k) & 1) == 1 {
                    255
                } else {
                    0
                }
            } else {
                0
            };
            proof {
                let i = y as int * w as int + x as int;
                vstd::arithmetic::div_mod::lemma_fundamental_div_mod_converse(
                    i,
                    w as int,
                    y as int,
                    x as int,
                );
                assert(cell_index(*g, i) == c);
                assert((c as int / 8 < chunk@.len()) <==> (c as int) < 8 * chunk@.len());
                if byte_idx < chunk.len() {
                    assert(chunk_bit(chunk@, c as int) == bit_of_byte(
                        chunk@[c as int / 8],
                        c as int % 8,
                    ));
                } else {
                    assert(!chunk_bit(chunk@, c as int));
                }
                assert(v == encoded_pixel(chunk@, *g, i));
            }
            pixels.push(v);
            x = x + 1;
        }
        y = y + 1;
        proof {
            assert((y - 1) as int * w as int + w as int == y as int * w as int)
                by (nonlinear_arith);
        }
    }
    proof {
        assert(pixels@ =~= encoded_frame(chunk@, *g));
    }
    Frame { width: w, height: h, pixels }
}

/// Encodes a whole payload as its ordered frame sequence: frame `i` carries
/// payload bytes `i * bytes_per_frame ..` up to a full frame or the end of
/// the payload.  Succeeds exactly on valid geometries.  The result is a
/// function of the payload and the geometry alone, so encoding the same
/// payload twice yields pixel-identical frame sequences.
#[verifier::loop_isolation(false)]
pub fn encode_payload(payload: &[u8], g: &Geometry) -> (r: Result<Vec<Frame>, CodecError>)
    requires
        g.fits(),
    ensures
        r is Ok <==> g.valid(),
        r matches Ok(frames) ==> {
            &&& frames@.len() == spec_frame_count(payload@.len() as int, *g)
            &&& forall|i: int| 0 <= i < frames@.len() ==> (#[trigger] frames@[i]).matches(*g)
            &&& forall|i: int|
                0 <= i < frames@.len() ==> (#[trigger] frames@[i]).pixels@ == encoded_stream(
                    payload@,
                    *g,
                )[i]
        },
        r is Err ==> r == Err::<Vec<Frame>, CodecError>(CodecError::Configuration),
{
    let plan: EncodingPlan = match EncodingPlan::new(payload.len(), g) {
        Ok(p) => p,
        Err(e) => {
            return Err(e);
        },
    };
    proof {
        lemma_frame_count_covers(payload@.len() as int, *g);
    }
    let bpf: usize = plan.bytes_per_frame;
    let mut frames: Vec<Frame> = Vec::new();
    let mut i: usize = 0;
    while i < plan.frame_count
        invariant
            i <= plan.frame_count,
            frames@.len() == i as int,
            forall|j: int| 0 <= j < i as int ==> (#[trigger] frames@[j]).matches(*g),
            forall|j: int|
                0 <= j < i as int ==> (#[trigger] frames@[j]).pixels@ == encoded_stream(
                    payload@,
                    *g,
                )[j],
        decreases plan.frame_count - i,
    {
        proof {
            assert((i as int * bpf as int) < payload@.len());
            assert(i as int * bpf as int >= 0) by (nonlinear_arith)
                requires
                    i as int >= 0,
                    bpf as int >= 0,
            ;
        }
        let start: usize = i * bpf;
        let rem: usize = payload.len() - start;
        let take: usize = if rem < bpf {
            rem
        } else {
            bpf
        };
        let chunk: &[u8] = &payload[start..start + take];
        proof {
            assert(chunk@ =~= chunk_of(payload@, *g, i as int));
            assert(8 * chunk@.len() <= g.bits_per_frame());
        }
        let f: Frame = encode_frame(chunk, g);
        frames.push(f);
        i = i + 1;
    }
    Ok(frames)
}

/// Encodes a payload whose frames are finished in an arbitrary order:
/// `completion_order` lists the frame indices as the workers hand them in,
/// each exactly once.  The frames pass through the reorder buffer, so the
/// sink — the returned sequence — receives them strictly by index: the
/// result is the same in-order encoded stream whatever the completion
/// order was.
#[verifier::loop_isolation(false)]
pub fn encode_payload_ordered(
    payload: &[u8],
    g: &Geometry,
    completion_order: &Vec<usize>,
) -> (r: Result<Vec<Frame>, CodecError>)
    requires
        g.fits(),
        completion_order@.len() == spec_frame_count(payload@.len() as int, *g),
        forall|j: int|
            0 <= j < completion_order@.len() ==> ((#[trigger] completion_order@[j]) as int)
                < spec_frame_count(payload@.len() as int, *g),
        forall|j1: int, j2: int|
            0 <= j1 < j2 < completion_order@.len() ==> completion_order@[j1]
                != completion_order@[j2],
        forall|i: int|
            0 <= i < spec_frame_count(payload@.len() as int, *g)
                ==> #[trigger] completion_order@.contains(i as usize),
    ensures
        r is Ok <==> g.valid(),
        r matches Ok(frames) ==> {
            &&& frames@.len() == spec_frame_count(payload@.len() as int, *g)
            &&& forall|i: int| 0 <= i < frames@.len() ==> (#[trigger] frames@[i]).matches(*g)
            &&& forall|i: int|
                0 <= i < frames@.len() ==> (#[trigger] frames@[i]).pixels@ == encoded_stream(
                    payload@,
                    *g,
                )[i]
        },
        r is Err ==> r == Err::<Vec<Frame>, CodecError>(CodecError::Configuration),
{
    let plan: EncodingPlan = match EncodingPlan::new(payload.len(), g) {
        Ok(p) => p,
        Err(e) => {
            return Err(e);
        },
    };
    proof {
        lemma_frame_count_covers(payload@.len() as int, *g);
    }
    let ghost stream = encoded_stream(payload@, *g);
    let bpf: usize = plan.bytes_per_frame;
    let fc: usize = plan.frame_count;
    let mut sched: FrameScheduler = FrameScheduler::new(fc);
    let mut k: usize = 0;
    while k < fc
        invariant
            k <= fc,
            sched.wf(),
            sched.total() == fc as int,
            forall|i: int|
                #[trigger] sched.completed().contains_key(i) <==> exists|j: int|
                    0 <= j < k as int && completion_order@[j] == i,
            forall|i: int|
                sched.completed().contains_key(i) ==> #[trigger] sched.completed()[i] == (
                g.width as int,
                g.height as int,
                stream[i],
                ),
        decreases fc - k,
    {
        let idx: usize = completion_order[k];
        proof {
            if sched.completed().contains_key(idx as int) {
                let j = choose|j: int| 0 <= j < k as int && completion_order@[j] == idx as int;
                assert(completion_order@[j] == completion_order@[k as int]);
            }
            assert((idx as int * bpf as int) < payload@.len());
            assert(idx as int * bpf as int >= 0) by (nonlinear_arith)
                requires
                    idx as int >= 0,
                    bpf as int >= 0,
            ;
        }
        let start: usize = idx * bpf;
        let rem: usize = payload.len() - start;
        let take: usize = if rem < bpf {
            rem
        } else {
            bpf
        };
        let chunk: &[u8] = &payload[start..start + take];
        proof {
            assert(chunk@ =~= chunk_of(payload@, *g, idx as int));
            assert(8 * chunk@.len() <= g.bits_per_frame());
        }
        let f: Frame = encode_frame(chunk, g);
        proof {
            assert(f@ == (g.width as int, g.height as int, stream[idx as int]));
        }
        sched.submit(idx, f);
        k = k + 1;
        proof {
            assert forall|i: int| #[trigger] sched.completed().contains_key(i) implies exists|
                j: int,
            | 0 <= j < k as int && completion_order@[j] == i by {
                if i != idx as int {
                    let j = choose|j: int|
                        0 <= j < k as int - 1 && completion_order@[j] == i;
                    assert(0 <= j < k as int && completion_order@[j] == i);
                } else {
                    assert(completion_order@[k as int - 1] == i);
                }
            }
        }
    }
    proof {
        assert forall|i: int| 0 <= i < fc as int implies sched.completed().contains_key(i) by {
            assert(completion_order@.contains(i as usize));
            let j = choose|j: int|
                0 <= j < completion_order@.len() && completion_order@[j] == i as usize;
            assert(completion_order@[j] == i);
        }
        lemma_delivery_complete(sched);
    }
    let frames: Vec<Frame> = sched.into_delivered();
    proof {
        assert forall|i: int| 0 <= i < frames@.len() implies (#[trigger] frames@[i]).matches(*g)
            && frames@[i].pixels@ == stream[i] by {
            assert(frames@.map_values(|f: Frame| f@)[i] == frames@[i]@);
            assert(frames@[i]@ == (g.width as int, g.height as int, stream[i]));
            assert(stream[i].len() == g.pixel_count());
        }
    }
    Ok(frames)
}

} // verus!
