use grocketmq::command::Command;
use grocketmq::command::RequestIdAllocator;
use grocketmq::reassembly::ReassemblyBuffer;

fn sample_frame(code: u8, ids: &mut RequestIdAllocator, body: Vec<u8>) -> Vec<u8> {
    let mut c = Command::new(code, ids);
    c.set_body(body);
    c.encode().unwrap()
}

#[test]
fn frame_split_across_single_bytes_reassembles() {
    let mut ids = RequestIdAllocator::new();
    let frame = sample_frame(5, &mut ids, vec![9, 8, 7]);
    let mut buf = ReassemblyBuffer::new();
    for (i, b) in frame.iter().enumerate() {
        buf.feed(&[*b]);
        if i + 1 < frame.len() {
            assert!(buf.try_take_frame().is_none());
        }
    }
    let got = buf.try_take_frame().unwrap();
    assert_eq!(got, frame);
    let d = Command::decode(&got).unwrap();
    assert_eq!(d.code(), 5);
    assert_eq!(d.body().unwrap(), &[9u8, 8, 7]);
    assert_eq!(buf.len(), 0);
}

#[test]
fn chunked_feed_equals_whole_feed() {
    let mut ids = RequestIdAllocator::new();
    let frame = sample_frame(2, &mut ids, vec![1; 40]);
    let mut whole = ReassemblyBuffer::new();
    whole.feed(&frame);
    let from_whole = whole.try_take_frame().unwrap();
    let mut chunked = ReassemblyBuffer::new();
    for chunk in frame.chunks(7) {
        chunked.feed(chunk);
    }
    let from_chunks = chunked.try_take_frame().unwrap();
    assert_eq!(from_whole, from_chunks);
}

#[test]
fn two_frames_in_one_read_both_surface() {
    let mut ids = RequestIdAllocator::new();
    let f1 = sample_frame(1, &mut ids, vec![10]);
    let f2 = sample_frame(2, &mut ids, vec![20, 21]);
    let mut joined = f1.clone();
    joined.extend_from_slice(&f2);
    let mut buf = ReassemblyBuffer::new();
    buf.feed(&joined);
    assert_eq!(buf.try_take_frame().unwrap(), f1);
    assert_eq!(buf.try_take_frame().unwrap(), f2);
    assert!(buf.try_take_frame().is_none());
}

#[test]
fn sub_minimum_declared_length_is_never_cut() {
    // a length field claiming less than the 8-byte fixed-field minimum
    // frames nothing: the bytes stay in place
    let mut buf = ReassemblyBuffer::new();
    buf.feed(&[0, 0, 0, 0, 9, 9, 9, 9, 9, 9]);
    assert!(buf.try_take_frame().is_none());
    assert_eq!(buf.len(), 10);
    let mut buf2 = ReassemblyBuffer::new();
    buf2.feed(&[0, 0, 0, 3, 1, 2, 3, 4, 5]);
    assert!(buf2.try_take_frame().is_none());
    assert_eq!(buf2.len(), 9);
}

#[test]
fn trailing_partial_frame_is_kept() {
    let mut ids = RequestIdAllocator::new();
    let f1 = sample_frame(1, &mut ids, vec![1, 2]);
    let f2 = sample_frame(2, &mut ids, vec![3, 4]);
    let mut joined = f1.clone();
    joined.extend_from_slice(&f2[0..5]);
    let mut buf = ReassemblyBuffer::new();
    buf.feed(&joined);
    assert_eq!(buf.try_take_frame().unwrap(), f1);
    assert!(buf.try_take_frame().is_none());
    buf.feed(&f2[5..]);
    assert_eq!(buf.try_take_frame().unwrap(), f2);
}
