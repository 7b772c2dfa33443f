//! Reassembling sampled bits into the original bytes, frame by frame, in
//! strict frame order.

use vstd::prelude::*;

use crate::encoder::{bit_of_byte, chunk_bit, chunk_of, encoded_frame, encoded_stream};
use crate::errors::CodecError;
use crate::frame::Frame;
use crate::geometry::{
    lemma_frame_count_covers, spec_frame_count, EncodingPlan, Geometry,
};
use crate::sampler::{lemma_sample_encoded_frame, sample_frame, sampled_bits};

verus! {

/// Numeric weight of one bit.
pub open spec fn bit_value(b: bool) -> int {
    if b {
        1
    } else {
        0
    }
}

/// Byte `j` assembled from a bit sequence: bits `8j .. 8j + 8`, the first
/// being the least significant — the mirror of how encoding laid bits out.
pub open spec fn byte_of_bits(bits: Seq<bool>, j: int) -> u8 {
    (bit_value(bits[8 * j]) + 2 * bit_value(bits[8 * j + 1]) + 4 * bit_value(bits[8 * j + 2]) + 8
        * bit_value(bits[8 * j + 3]) + 16 * bit_value(bits[8 * j + 4]) + 32 * bit_value(
        bits[8 * j + 5],
    ) + 64 * bit_value(bits[8 * j + 6]) + 128 * bit_value(bits[8 * j + 7])) as u8
}

/// The bytes carried by one frame, read back through sampling.
pub open spec fn sampled_bytes(f: Seq<u8>, g: Geometry) -> Seq<u8> {
    Seq::new(g.bytes_per_frame() as nat, |j: int| byte_of_bits(sampled_bits(f, g), j))
}

/// The payload reconstructed from a frame sequence: frame order first, byte
/// order within a frame second, truncated to `size` bytes.
pub open spec fn decoded_stream(frames: Seq<Seq<u8>>, g: Geometry, size: int) -> Seq<u8> {
    Seq::new(
        size as nat,
        |i: int|
            sampled_bytes(frames[i / g.bytes_per_frame()], g)[i % g.bytes_per_frame()],
    )
}

/// Packs a bit sequence into bytes, eight bits per byte, least significant
/// bit first.  The bit count must be a whole number of bytes.
#[verifier::loop_isolation(false)]
#[verifier::rlimit(50)]
pub fn bits_to_bytes(bits: &Vec<bool>) -> (out: Vec<u8>)
    requires
        bits@.len() % 8 == 0,
    ensures
        out@.len() == bits@.len() / 8,
        forall|j: int| 0 <= j < out@.len() ==> out@[j] == byte_of_bits(bits@, j),
{
    let n: usize = bits.len() / 8;
    let mut out: Vec<u8> = Vec::new();
    let mut j: usize = 0;
    while j < n
        invariant
            j <= n,
            out@.len() == j as int,
            forall|q: int| 0 <= q < j as int ==> out@[q] == byte_of_bits(bits@, q),
        decreases n - j,
    {
        let base: usize = 8 * j;
        let b0: u8 = if bits[base] {
            1
        } else {
            0
        };
        let b1: u8 = if bits[base + 1] {
            1
        } else {
            0
        };
        let b2: u8 = if bits[base + 2] {
            1
        } else {
            0
        };
        let b3: u8 = if bits[base + 3] {
            1
        } else {
            0
        };
        let b4: u8 = if bits[base + 4] {
            1
        } else {
            0
        };
        let b5: u8 = if bits[base + 5] {
            1
        } else {
            0
        };
        let b6: u8 = if bits[base + 6] {
            1
        } else {
            0
        };
        let b7: u8 = if bits[base + 7] {
            1
        } else {
            0
        };
        let b: u8 = b0 + 2 * b1 + 4 * b2 + 8 * b3 + 16 * b4 + 32 * b5 + 64 * b6 + 128 * b7;
        proof {
            assert(b == byte_of_bits(bits@, j as int));
        }
        out.push(b);
        j = j + 1;
    }
    out
}

/// Samples one frame and packs its bits into the frame's bytes.
pub fn sample_frame_bytes(f: &Frame, g: &Geometry) -> (out: Vec<u8>)
    requires
        g.valid(),
        g.fits(),
        f.matches(*g),
    ensures
        out@ == sampled_bytes(f.pixels@, *g),
{
    let bits: Vec<bool> = sample_frame(f, g);
    let out: Vec<u8> = bits_to_bytes(&bits);
    proof {
        assert(out@ =~= sampled_bytes(f.pixels@, *g));
    }
    out
}

/// Reassembling the eight bits extracted from a byte, least significant
/// first, yields the byte again.
pub proof fn lemma_byte_round_trip(bits: Seq<bool>, j: int, v: u8)
    requires
        0 <= j,
        8 * j + 8 <= bits.len(),
        forall|k: int| 0 <= k < 8 ==> bits[8 * j + k] == bit_of_byte(v, k),
    ensures
        byte_of_bits(bits, j) == v,
{
    assert(bits[8 * j + 0] == bit_of_byte(v, 0));
    assert(bits[8 * j + 1] == bit_of_byte(v, 1));
    assert(bits[8 * j + 2] == bit_of_byte(v, 2));
    assert(bits[8 * j + 3] == bit_of_byte(v, 3));
    assert(bits[8 * j + 4] == bit_of_byte(v, 4));
    assert(bits[8 * j + 5] == bit_of_byte(v, 5));
    assert(bits[8 * j + 6] == bit_of_byte(v, 6));
    assert(bits[8 * j + 7] == bit_of_byte(v, 7));
    assert(((v >> 0u8) & 1) <= 1 && ((v >> 1u8) & 1) <= 1 && ((v >> 2u8) & 1) <= 1 && ((v >> 3u8)
        & 1) <= 1 && ((v >> 4u8) & 1) <= 1 && ((v >> 5u8) & 1) <= 1 && ((v >> 6u8) & 1) <= 1 && ((v
        >> 7u8) & 1) <= 1) by (bit_vector);
    assert(((v >> 0u8) & 1) + 2 * ((v >> 1u8) & 1) + 4 * ((v >> 2u8) & 1) + 8 * ((v >> 3u8) & 1)
        + 16 * ((v >> 4u8) & 1) + 32 * ((v >> 5u8) & 1) + 64 * ((v >> 6u8) & 1) + 128 * ((v >> 7u8)
        & 1) == v) by (bit_vector);
}

/// Round trip: a payload encoded into frames and decoded back, with its own
/// length declared, is reproduced exactly — whether or not the final frame
/// is full, its padding cells are dropped by the truncation to `size`.
pub proof fn lemma_round_trip(payload: Seq<u8>, g: Geometry)
    requires
        g.valid(),
    ensures
        encoded_stream(payload, g).len() == spec_frame_count(payload.len() as int, g),
        decoded_stream(encoded_stream(payload, g), g, payload.len() as int) == payload,
{
    let size = payload.len() as int;
    let bpf = g.bytes_per_frame();
    let fc = spec_frame_count(size, g);
    lemma_frame_count_covers(size, g);
    let frames = encoded_stream(payload, g);
    let out = decoded_stream(frames, g, size);
    assert forall|i: int| 0 <= i < size implies out[i] == payload[i] by {
        let fi = i / bpf;
        let j = i % bpf;
        vstd::arithmetic::div_mod::lemma_fundamental_div_mod(i, bpf);
        assert(0 <= j < bpf);
        assert(0 <= fi && fi < fc) by (nonlinear_arith)
            requires
                i == bpf * fi + j,
                0 <= j < bpf,
                0 <= i,
                i < size,
                size <= fc * bpf,
                bpf > 0,
        ;
        let chunk = chunk_of(payload, g, fi);
        assert(fi * bpf == bpf * fi) by (nonlinear_arith);
        let start = fi * bpf;
        assert(start <= i < size);
        assert(frames[fi] == encoded_frame(chunk, g));
        assert(chunk.len() <= bpf);
        assert(j < chunk.len());
        assert(chunk[j] == payload[i]);
        let f = frames[fi];
        let sbits = sampled_bits(f, g);
        assert(8 * chunk.len() <= g.bits_per_frame());
        assert(8 * j + 8 <= g.bits_per_frame());
        assert forall|k: int| 0 <= k < 8 implies sbits[8 * j + k] == bit_of_byte(
            chunk[j],
            k,
        ) by {
            let c = 8 * j + k;
            lemma_sample_encoded_frame(chunk, g, c);
            vstd::arithmetic::div_mod::lemma_fundamental_div_mod_converse(c, 8, j, k);
            assert(c / 8 == j && c % 8 == k);
            assert(chunk_bit(chunk, c) == bit_of_byte(chunk[c / 8], c % 8));
        }
        lemma_byte_round_trip(sbits, j, chunk[j]);
        assert(out[i] == sampled_bytes(f, g)[j]);
        assert(sampled_bytes(f, g)[j] == byte_of_bits(sbits, j));
    };
    assert(out =~= payload);
}

/// Reconstructs the payload from a decoded frame sequence.
///
/// The frame count must equal the plan's frame count for the declared
/// `size`, and every frame must have the planned dimensions; mismatches are
/// reported without producing bytes.  On success the result holds exactly
/// `size` bytes, frame order first, byte order within each frame second,
/// with trailing padding bits discarded.
#[verifier::loop_isolation(false)]
pub fn decode_frames(frames: &Vec<Frame>, g: &Geometry, size: usize) -> (r: Result<
    Vec<u8>,
    CodecError,
>)
    requires
        g.fits(),
    ensures
        r is Ok <==> {
            &&& g.valid()
            &&& frames@.len() == spec_frame_count(size as int, *g)
            &&& forall|i: int| 0 <= i < frames@.len() ==> (#[trigger] frames@[i]).matches(*g)
        },
        r matches Ok(out) ==> out@ == decoded_stream(
            frames@.map_values(|f: Frame| f.pixels@),
            *g,
            size as int,
        ),
        !g.valid() ==> r == Err::<Vec<u8>, CodecError>(CodecError::Configuration),
        g.valid() && frames@.len() != spec_frame_count(size as int, *g) ==> r == Err::<
            Vec<u8>,
            CodecError,
        >(CodecError::FrameCountMismatch),
        g.valid() && frames@.len() == spec_frame_count(size as int, *g) && !(forall|i: int|
            0 <= i < frames@.len() ==> (#[trigger] frames@[i]).matches(*g)) ==> r == Err::<
            Vec<u8>,
            CodecError,
        >(CodecError::FrameGeometryMismatch),
{
    let plan: EncodingPlan = match EncodingPlan::new(size, g) {
        Ok(p) => p,
        Err(e) => {
            return Err(e);
        },
    };
    if frames.len() != plan.frame_count {
        return Err(CodecError::FrameCountMismatch);
    }
    let mut i: usize = 0;
    while i < frames.len()
        invariant
            i <= frames@.len(),
            forall|q: int| 0 <= q < i as int ==> (#[trigger] frames@[q]).matches(*g),
        decreases frames@.len() - i,
    {
        if !frames[i].check_matches(g) {
            return Err(CodecError::FrameGeometryMismatch);
        }
        i = i + 1;
    }
    proof {
        lemma_frame_count_covers(size as int, *g);
    }
    let ghost views = frames@.map_values(|f: Frame| f.pixels@);
    let ghost target = decoded_stream(views, *g, size as int);
    let bpf: usize = plan.bytes_per_frame;
    let mut out: Vec<u8> = Vec::new();
    let mut i: usize = 0;
    while i < frames.len()
        invariant
            i <= frames@.len(),
            out@.len() == if i as int * bpf as int <= size as int {
                i as int * bpf as int
            } else {
                size as int
            },
            forall|q: int| 0 <= q < out@.len() ==> out@[q] == target[q],
        decreases frames@.len() - i,
    {
        let bytes: Vec<u8> = sample_frame_bytes(&frames[i], g);
        let mut j: usize = 0;
        while j < bpf
            invariant
                j <= bpf,
                out@.len() == if i as int * bpf as int + j as int <= size as int {
                    i as int * bpf as int + j as int
                } else {
                    size as int
                },
                forall|q: int| 0 <= q < out@.len() ==> out@[q] == target[q],
            decreases bpf - j,
        {
            if out.len() < size {
                proof {
                    let idx = i as int * bpf as int + j as int;
                    assert(out@.len() == idx);
                    vstd::arithmetic::div_mod::lemma_fundamental_div_mod_converse(
                        idx,
                        bpf as int,
                        i as int,
                        j as int,
                    );
                    assert(idx / bpf as int == i as int && idx % bpf as int == j as int);
                    assert(views[i as int] == frames@[i as int].pixels@);
                    assert(target[idx] == sampled_bytes(frames@[i as int].pixels@, *g)[j as int]);
                }
                out.push(bytes[j]);
            }
            j = j + 1;
        }
        proof {
            assert((i as int + 1) * bpf as int == i as int * bpf as int + bpf as int)
                by (nonlinear_arith);
        }
        i = i + 1;
    }
    proof {
        assert(frames@.len() as int * bpf as int >= size as int);
        assert(out@.len() == size as int);
        assert(out@ =~= target);
    }
    Ok(out)
}

} // verus!
