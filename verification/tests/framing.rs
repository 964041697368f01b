use rayonet::framing::{encode_frame, FrameDecoder, FrameTooLong, MAX_FRAME};
use rayonet::testing::{FaultInjector, ReadPlan};

fn all(decoder: &mut FrameDecoder) -> Vec<Vec<u8>> {
    let mut frames = Vec::new();
    while let Some(frame) = decoder.next().unwrap() {
        frames.push(frame);
    }
    frames
}

#[test]
fn frame_roundtrips() {
    let frame = encode_frame(b"my_crate::evolve").unwrap();
    assert_eq!(frame[..4], [0, 0, 0, 16]);
    let mut decoder = FrameDecoder::new();
    decoder.feed(&frame);
    assert_eq!(all(&mut decoder), vec![b"my_crate::evolve".to_vec()]);
    assert!(decoder.is_empty());
}

#[test]
fn frame_survives_a_one_byte_buffer() {
    let payload: Vec<u8> = (0u8..=255).cycle().take(300).collect();
    let frame = encode_frame(&payload).unwrap();
    let mut decoder = FrameDecoder::new();
    for (i, byte) in frame.iter().enumerate() {
        decoder.feed(&[*byte]);
        if i + 1 < frame.len() {
            assert_eq!(decoder.next(), Ok(None));
        }
    }
    assert_eq!(decoder.next(), Ok(Some(payload)));
}

#[test]
fn multiple_frames_arrive_in_order() {
    let mut decoder = FrameDecoder::new();
    for payload in [vec![1], vec![2, 2], Vec::new()] {
        decoder.feed(&encode_frame(&payload).unwrap());
    }
    assert_eq!(all(&mut decoder), vec![vec![1], vec![2, 2], Vec::new()]);
}

#[test]
fn framing_reassembles_under_arbitrary_chunking() {
    for length in [0usize, 1, 7, 255, 256, 999] {
        let payload: Vec<u8> = (0..length).map(|i| (i % 251) as u8).collect();
        let framed = encode_frame(&payload).unwrap();
        for chunk in [1usize, 2, 3, 5, 17, 39] {
            let mut decoder = FrameDecoder::new();
            let mut frames = Vec::new();
            for piece in framed.chunks(chunk) {
                decoder.feed(piece);
                frames.extend(all(&mut decoder));
            }
            assert_eq!(frames, vec![payload.clone()]);
        }
    }
}

#[test]
fn a_truncated_stream_leaves_bytes_over() {
    let frame = encode_frame(b"xyz").unwrap();
    let mut decoder = FrameDecoder::new();
    decoder.feed(&frame[..2]);
    assert_eq!(decoder.next(), Ok(None));
    assert!(!decoder.is_empty());
}

#[test]
fn frames_beyond_the_limit_are_refused() {
    assert!(encode_frame(&vec![0; MAX_FRAME]).is_some());
    assert!(encode_frame(&vec![0; MAX_FRAME + 1]).is_none());
    let mut decoder = FrameDecoder::new();
    decoder.feed(&[0x00, 0x80, 0x00, 0x01]);
    assert_eq!(decoder.next(), Err(FrameTooLong));
}

#[test]
fn a_fault_injector_counts_its_bytes_down() {
    let mut cut = FaultInjector::cut_reads_after((), 5);
    assert_eq!(cut.plan(3), ReadPlan::UpTo(3));
    cut.consumed(3);
    assert_eq!(cut.plan(3), ReadPlan::UpTo(2));
    cut.consumed(2);
    assert_eq!(cut.plan(3), ReadPlan::Eof);
    assert!(format!("{cut:?}").contains("FaultInjector"));
    assert_eq!(FaultInjector::error_reads_after((), 0).plan(8), ReadPlan::Fail);
}
