use bitraster::encoder::{encode_payload, encode_payload_ordered};
use bitraster::frame::Frame;
use bitraster::geometry::Geometry;
use bitraster::order::FrameScheduler;

fn tagged_frame(tag: u8) -> Frame {
    Frame::new(2, 1, vec![tag, tag]).unwrap()
}

fn delivered_tags(s: &FrameScheduler) -> Vec<u8> {
    s.delivered_frames().iter().map(|f| f.pixels[0]).collect()
}

#[test]
fn delivery_waits_for_the_gap() {
    let mut s = FrameScheduler::new(4);
    assert_eq!(s.delivered_len(), 0);

    s.submit(2, tagged_frame(2));
    assert_eq!(s.delivered_len(), 0); // 0 and 1 still missing

    s.submit(0, tagged_frame(0));
    assert_eq!(s.delivered_len(), 1); // 0 released, 1 still missing
    assert_eq!(delivered_tags(&s), vec![0]);

    s.submit(3, tagged_frame(3));
    assert_eq!(s.delivered_len(), 1);

    s.submit(1, tagged_frame(1));
    assert_eq!(s.delivered_len(), 4); // 1 unblocks 2 and 3
    assert_eq!(delivered_tags(&s), vec![0, 1, 2, 3]);
}

#[test]
fn delivery_in_submission_order_when_already_sorted() {
    let mut s = FrameScheduler::new(3);
    for i in 0..3u8 {
        s.submit(i as usize, tagged_frame(i));
        assert_eq!(s.delivered_len(), i as usize + 1);
    }
    assert_eq!(delivered_tags(&s), vec![0, 1, 2]);
}

#[test]
fn delivery_order_is_index_order_under_scrambled_completion() {
    // A fixed linear-congruential scramble stands in for workers finishing
    // in arbitrary order: whatever the submission order, the sink sees the
    // frames by index, and only ever a gap-free prefix.
    let n: usize = 53;
    let mut order: Vec<usize> = (0..n).collect();
    let mut state: u64 = 0x2545F491;
    for i in (1..n).rev() {
        state = state.wrapping_mul(6364136223846793005).wrapping_add(1442695040888963407);
        let j = (state >> 33) as usize % (i + 1);
        order.swap(i, j);
    }
    let mut s = FrameScheduler::new(n);
    let mut last_len = 0;
    for &idx in &order {
        s.submit(idx, tagged_frame(idx as u8));
        let len = s.delivered_len();
        assert!(len >= last_len, "delivered frames never retract");
        last_len = len;
        let tags = delivered_tags(&s);
        for (pos, &tag) in tags.iter().enumerate() {
            assert_eq!(tag, pos as u8, "frame {} delivered at position {}", tag, pos);
        }
    }
    assert_eq!(s.delivered_len(), n);
    assert_eq!(delivered_tags(&s), (0..n as u8).collect::<Vec<u8>>());
}

#[test]
fn out_of_order_encoding_matches_in_order_encoding() {
    let g = Geometry { width: 16, height: 8, cell_width: 2, cell_height: 2 };
    // 4 bytes per frame; 23 bytes make 6 frames.
    let payload: Vec<u8> = (0u16..23).map(|i: u16| (i * 53 % 256) as u8).collect();
    let in_order = encode_payload(&payload, &g).unwrap();
    assert_eq!(in_order.len(), 6);
    let scrambled: Vec<usize> = vec![4, 0, 5, 2, 1, 3];
    let reordered = encode_payload_ordered(&payload, &g, &scrambled).unwrap();
    assert_eq!(reordered.len(), in_order.len());
    for (a, b) in reordered.iter().zip(in_order.iter()) {
        assert_eq!(a.pixels, b.pixels);
    }
}
