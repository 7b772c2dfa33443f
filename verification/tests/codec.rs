use bitraster::decoder::{bits_to_bytes, decode_frames, sample_frame_bytes};
use bitraster::encoder::{encode_frame, encode_payload, Encode};
use bitraster::file::FileInfo;
use bitraster::errors::CodecError;
use bitraster::frame::Frame;
use bitraster::geometry::{EncodingPlan, Geometry};
use bitraster::sampler::sample_frame;

fn full_hd() -> Geometry {
    Geometry { width: 1920, height: 1080, cell_width: 4, cell_height: 4 }
}

#[test]
fn geometry_fits_rejects_oversized_rasters() {
    let g = Geometry::new(1 << 20, 1 << 20, 4, 4);
    assert!(!g.check_fits());
    let zero = Geometry::new(0, 1080, 4, 4);
    assert!(zero.check_fits());
    assert!(!zero.check_valid());
    assert!(full_hd().check_fits());
}

#[test]
fn plan_rejects_bits_not_packing_into_bytes() {
    // 8x8 frame with 4x4 cells carries 4 bits: not a whole byte.
    let g = Geometry { width: 8, height: 8, cell_width: 4, cell_height: 4 };
    assert!(g.check_fits());
    assert!(!g.check_valid());
    assert_eq!(EncodingPlan::new(10, &g), Err(CodecError::Configuration));
}

#[test]
fn plan_rejects_cells_that_do_not_tile() {
    let g = Geometry { width: 10, height: 8, cell_width: 4, cell_height: 4 };
    assert_eq!(EncodingPlan::new(1, &g), Err(CodecError::Configuration));
    let g = Geometry { width: 8, height: 10, cell_width: 4, cell_height: 4 };
    assert_eq!(EncodingPlan::new(1, &g), Err(CodecError::Configuration));
    let g = Geometry { width: 8, height: 8, cell_width: 0, cell_height: 4 };
    assert_eq!(EncodingPlan::new(1, &g), Err(CodecError::Configuration));
}

#[test]
fn plan_full_hd_two_full_frames() {
    // 1920x1080 with 4x4 cells: 129600 bits, 16200 bytes per frame; a
    // 32400-byte payload fills exactly two frames.
    let g = full_hd();
    assert!(g.check_fits());
    assert!(g.check_valid());
    let plan = EncodingPlan::new(32400, &g).unwrap();
    assert_eq!(plan.bits_per_frame, 129600);
    assert_eq!(plan.bytes_per_frame, 16200);
    assert_eq!(plan.frame_count, 2);
}

#[test]
fn plan_frame_count_is_ceiling() {
    let g = Geometry { width: 16, height: 8, cell_width: 2, cell_height: 2 };
    // 32 cells = 32 bits = 4 bytes per frame.
    for (size, expect) in [(0usize, 0usize), (1, 1), (4, 1), (5, 2), (8, 2), (9, 3)] {
        let plan = EncodingPlan::new(size, &g).unwrap();
        assert_eq!(plan.bytes_per_frame, 4);
        assert_eq!(plan.frame_count, expect, "size {}", size);
    }
}

#[test]
fn encode_single_byte_pixel_pattern() {
    // 16x2 frame with 2x2 cells: 8 cells in one cell row, one byte.
    let g = Geometry { width: 16, height: 2, cell_width: 2, cell_height: 2 };
    let chunk: Vec<u8> = vec![0b0000_0101];
    let f = encode_frame(&chunk, &g);
    assert_eq!(f.width, 16);
    assert_eq!(f.height, 2);
    assert_eq!(f.pixels.len(), 32);
    // Bits 0 and 2 are set: cells 0 and 2 are on, all others off.
    for y in 0..2usize {
        for x in 0..16usize {
            let cell = x / 2;
            let expect = if cell == 0 || cell == 2 { 255 } else { 0 };
            assert_eq!(f.pixels[y * 16 + x], expect, "pixel ({}, {})", x, y);
        }
    }
}

#[test]
fn encode_pads_unused_cells_with_zero() {
    let g = Geometry { width: 16, height: 4, cell_width: 2, cell_height: 2 };
    // 16 cells, 2 bytes per frame; a one-byte chunk leaves 8 cells unused.
    let chunk: Vec<u8> = vec![0xFF];
    let f = encode_frame(&chunk, &g);
    // The second cell row (pixels rows 2 and 3) carries bits 8..16: all off.
    for y in 2..4usize {
        for x in 0..16usize {
            assert_eq!(f.pixels[y * 16 + x], 0, "pixel ({}, {})", x, y);
        }
    }
    // The first cell row is fully on.
    for y in 0..2usize {
        for x in 0..16usize {
            assert_eq!(f.pixels[y * 16 + x], 255);
        }
    }
}

#[test]
fn encoding_is_deterministic() {
    let g = Geometry { width: 16, height: 8, cell_width: 2, cell_height: 2 };
    let payload: Vec<u8> = (0u16..64).map(|i| (i * 37 % 251) as u8).collect();
    let a = encode_payload(&payload, &g).unwrap();
    let b = encode_payload(&payload, &g).unwrap();
    assert_eq!(a.len(), b.len());
    for (fa, fb) in a.iter().zip(b.iter()) {
        assert_eq!(fa.width, fb.width);
        assert_eq!(fa.height, fb.height);
        assert_eq!(fa.pixels, fb.pixels);
    }
}

#[test]
fn round_trip_small_geometry() {
    let g = Geometry { width: 16, height: 8, cell_width: 2, cell_height: 2 };
    let payload: Vec<u8> = vec![0, 1, 2, 3, 250, 251, 252, 253, 254, 255];
    let frames = encode_payload(&payload, &g).unwrap();
    assert_eq!(frames.len(), 3); // ceil(10 / 4)
    let out = decode_frames(&frames, &g, payload.len()).unwrap();
    assert_eq!(out, payload);
}

#[test]
fn round_trip_exact_multiple() {
    let g = Geometry { width: 16, height: 8, cell_width: 2, cell_height: 2 };
    let payload: Vec<u8> = (0u16..12).map(|i| (i * 91 % 256) as u8).collect();
    let frames = encode_payload(&payload, &g).unwrap();
    assert_eq!(frames.len(), 3); // 12 bytes / 4 bytes per frame, no padding
    let out = decode_frames(&frames, &g, payload.len()).unwrap();
    assert_eq!(out, payload);
}

#[test]
fn boundary_ten_bytes_full_hd() {
    // A 10-byte payload under the default geometry fits one frame, with
    // every unused cell painted off; decoding that frame with the original
    // size yields exactly those 10 bytes.
    let g = full_hd();
    let payload: Vec<u8> = vec![7, 0, 255, 1, 2, 3, 128, 64, 32, 9];
    let frames = encode_payload(&payload, &g).unwrap();
    assert_eq!(frames.len(), 1);
    let f = &frames[0];
    // Cell 80 (the first cell past the payload's 80 bits) and everything
    // after it is off; cell 80 starts at pixel column 320 of row 0.
    assert_eq!(f.pixels[320], 0);
    assert_eq!(f.pixels[1920 * 1080 - 1], 0);
    let out = decode_frames(&frames, &g, payload.len()).unwrap();
    assert_eq!(out, payload);
}

#[test]
fn decode_rejects_wrong_frame_count() {
    let g = Geometry { width: 16, height: 8, cell_width: 2, cell_height: 2 };
    let payload: Vec<u8> = vec![1, 2, 3, 4, 5];
    let mut frames = encode_payload(&payload, &g).unwrap();
    frames.pop();
    assert_eq!(decode_frames(&frames, &g, payload.len()), Err(CodecError::FrameCountMismatch));
}

#[test]
fn decode_rejects_wrong_frame_dimensions() {
    let g = Geometry { width: 16, height: 8, cell_width: 2, cell_height: 2 };
    let payload: Vec<u8> = vec![1, 2, 3, 4];
    let mut frames = encode_payload(&payload, &g).unwrap();
    let wrong = Frame::new(8, 16, vec![0u8; 128]).unwrap();
    frames[0] = wrong;
    assert_eq!(decode_frames(&frames, &g, payload.len()), Err(CodecError::FrameGeometryMismatch));
}

#[test]
fn decode_rejects_invalid_geometry() {
    let g = Geometry { width: 8, height: 8, cell_width: 4, cell_height: 4 };
    let frames: Vec<Frame> = Vec::new();
    assert_eq!(decode_frames(&frames, &g, 0), Err(CodecError::Configuration));
}

#[test]
fn sampling_thresholds_on_cell_mean() {
    // One cell row of 8 cells, 4x4 each: means 128 and above read as one,
    // 127 and below as zero, including means from mixed pixels.
    let g = Geometry { width: 32, height: 4, cell_width: 4, cell_height: 4 };
    let mut pixels = vec![0u8; 128];
    let paint = |pixels: &mut Vec<u8>, cell: usize, values: [u8; 16]| {
        for k in 0..16 {
            let x = cell * 4 + k % 4;
            let y = k / 4;
            pixels[y * 32 + x] = values[k];
        }
    };
    paint(&mut pixels, 0, [128; 16]); // mean 128 -> 1
    paint(&mut pixels, 1, [127; 16]); // mean 127 -> 0
    let mut mixed = [255u8; 16];
    mixed[0] = 0; // mean 239 -> 1
    paint(&mut pixels, 2, mixed);
    let mut half = [255u8; 16];
    for k in 8..16 {
        half[k] = 0; // mean 127 (2040 / 16) -> 0
    }
    paint(&mut pixels, 3, half);
    let f = Frame::new(32, 4, pixels).unwrap();
    let bits = sample_frame(&f, &g);
    assert_eq!(bits, vec![true, false, true, false, false, false, false, false]);
}

#[test]
fn noise_within_margin_decodes_exactly() {
    // Push every pixel as close to the threshold as the margin allows: on
    // pixels down to 128, off pixels up to 127. Every bit survives.
    let g = Geometry { width: 16, height: 8, cell_width: 2, cell_height: 2 };
    let payload: Vec<u8> = vec![0xA5, 0x0F, 0x80, 0x01];
    let frames = encode_payload(&payload, &g).unwrap();
    let f = &frames[0];
    let noisy_pixels: Vec<u8> =
        f.pixels.iter().map(|&p| if p == 255 { 128 } else { 127 }).collect();
    let noisy = Frame::new(16, 8, noisy_pixels).unwrap();
    let bytes = sample_frame_bytes(&noisy, &g);
    assert_eq!(bytes, payload);
}

#[test]
fn noise_beyond_margin_flips_only_its_own_cell() {
    // Drive one cell across the threshold: exactly that cell's bit flips,
    // every other bit is untouched.
    let g = Geometry { width: 16, height: 8, cell_width: 2, cell_height: 2 };
    let payload: Vec<u8> = vec![0xFF, 0x00, 0x55, 0xAA];
    let frames = encode_payload(&payload, &g).unwrap();
    let clean = sample_frame_bytes(&frames[0], &g);
    assert_eq!(clean, payload);
    // Cell 3 occupies columns 6..8 of pixel rows 0..2; blank it.
    let mut pixels = frames[0].pixels.clone();
    for y in 0..2usize {
        for x in 6..8usize {
            pixels[y * 16 + x] = 0;
        }
    }
    let damaged = Frame::new(16, 8, pixels).unwrap();
    let bytes = sample_frame_bytes(&damaged, &g);
    assert_eq!(bytes[0], 0xFF & !(1 << 3));
    assert_eq!(&bytes[1..], &payload[1..]);
}

#[test]
fn encode_bundle_keeps_file_and_layout() {
    let file = FileInfo::new("clips/data.bin", 64, 0);
    let e = Encode::new(file, (1920, 1080), 4, 4);
    assert_eq!(e.file.name(), "data.bin");
    assert_eq!(e.geometry, full_hd());
}

#[test]
fn bits_pack_least_significant_first() {
    let mut bits = vec![false; 16];
    bits[0] = true; // byte 0, bit 0
    bits[15] = true; // byte 1, bit 7
    assert_eq!(bits_to_bytes(&bits), vec![0x01, 0x80]);
}
