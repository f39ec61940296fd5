use grocketmq::channel_core::request_outcome;
use grocketmq::channel_core::ChannelCore;
use grocketmq::channel_core::ConnState;
use grocketmq::channel_core::TransportError;
use grocketmq::command::Command;
use grocketmq::command::RequestIdAllocator;
use grocketmq::pending::PendingTable;

fn frame_for(ids: &mut RequestIdAllocator, code: u8, body: Vec<u8>) -> (usize, Vec<u8>) {
    let mut c = Command::new(code, ids);
    c.set_body(body);
    let opaque = c.opaque();
    (opaque, c.encode().unwrap())
}

#[test]
fn unavailable_transport_fails_request_immediately() {
    let mut core: ChannelCore<u32> = ChannelCore::new();
    assert!(matches!(core.state, ConnState::Disconnected));
    let e = core.connect_failed();
    assert!(matches!(e, TransportError::Unavailable));
    assert!(matches!(core.state, ConnState::Disconnected));
}

#[test]
fn write_failure_tears_connection_down() {
    let mut core: ChannelCore<u32> = ChannelCore::new();
    core.connect_succeeded();
    assert!(matches!(core.state, ConnState::Connected));
    let e = core.write_failed();
    assert!(matches!(e, TransportError::WriteFailed));
    assert!(matches!(core.state, ConnState::Disconnected));
}

#[test]
fn peer_close_returns_to_disconnected_without_failing_pending() {
    let mut core: ChannelCore<u32> = ChannelCore::new();
    core.connect_succeeded();
    core.after_write_success(11, 1);
    core.on_peer_closed();
    assert!(matches!(core.state, ConnState::Disconnected));
    assert_eq!(core.pending.len(), 1);
}

#[test]
fn shutdown_is_terminal() {
    let mut core: ChannelCore<u32> = ChannelCore::new();
    core.on_shutdown();
    assert!(matches!(core.state, ConnState::ShutDown));
}

#[test]
fn pipelined_responses_reach_their_callers() {
    let mut ids = RequestIdAllocator::new();
    let (op1, f1) = frame_for(&mut ids, 1, vec![1]);
    let (op2, f2) = frame_for(&mut ids, 2, vec![2]);
    let mut core: ChannelCore<&'static str> = ChannelCore::new();
    core.connect_succeeded();
    core.after_write_success(op1, "first");
    core.after_write_success(op2, "second");
    let mut joined = f1.clone();
    joined.extend_from_slice(&f2);
    let deliveries = core.on_bytes(&joined);
    assert_eq!(deliveries.len(), 2);
    assert_eq!(deliveries[0].0, "first");
    assert_eq!(deliveries[0].1.opaque(), op1);
    assert_eq!(deliveries[1].0, "second");
    assert_eq!(deliveries[1].1.opaque(), op2);
    assert_eq!(core.pending.len(), 0);
}

#[test]
fn unmatched_opaque_is_dropped_silently() {
    let mut ids = RequestIdAllocator::new();
    let (_op, frame) = frame_for(&mut ids, 1, vec![1]);
    let mut core: ChannelCore<u32> = ChannelCore::new();
    core.connect_succeeded();
    core.after_write_success(999, 7);
    let deliveries = core.on_bytes(&frame);
    assert!(deliveries.is_empty());
    assert_eq!(core.pending.len(), 1);
}

#[test]
fn malformed_frame_is_dropped_silently() {
    let mut core: ChannelCore<u32> = ChannelCore::new();
    core.connect_succeeded();
    core.after_write_success(0, 7);
    // a framed chunk whose header is not valid JSON
    let header = b"junk";
    let hlen = header.len() as u32;
    let total = 4 + hlen;
    let mut frame = Vec::new();
    frame.extend_from_slice(&total.to_be_bytes());
    frame.extend_from_slice(&hlen.to_be_bytes());
    frame.extend_from_slice(header);
    let deliveries = core.on_bytes(&frame);
    assert!(deliveries.is_empty());
    assert_eq!(core.pending.len(), 1);
}

#[test]
fn partial_then_rest_delivers_once_complete() {
    let mut ids = RequestIdAllocator::new();
    let (op, frame) = frame_for(&mut ids, 4, vec![5, 6]);
    let mut core: ChannelCore<u32> = ChannelCore::new();
    core.connect_succeeded();
    core.after_write_success(op, 42);
    let cut = frame.len() / 2;
    assert!(core.on_bytes(&frame[0..cut]).is_empty());
    let deliveries = core.on_bytes(&frame[cut..]);
    assert_eq!(deliveries.len(), 1);
    assert_eq!(deliveries[0].0, 42);
}

#[test]
fn request_outcome_maps_the_two_checkpoints() {
    let mut ids = RequestIdAllocator::new();
    // a write-acknowledgement wait that times out
    assert!(matches!(request_outcome(None, None), Err(TransportError::Timeout)));
    // a write failure is passed through
    assert!(matches!(
        request_outcome(Some(Err(TransportError::WriteFailed)), None),
        Err(TransportError::WriteFailed)
    ));
    // a response wait that times out
    assert!(matches!(request_outcome(Some(Ok(())), None), Err(TransportError::Timeout)));
    // a channel that went away before responding
    assert!(matches!(
        request_outcome(Some(Ok(())), Some(Err(TransportError::ChannelClosed))),
        Err(TransportError::ChannelClosed)
    ));
    // a response that arrived in time
    let c = Command::new(1, &mut ids);
    let r = request_outcome(Some(Ok(())), Some(Ok(c)));
    assert_eq!(r.unwrap().code(), 1);
}

#[test]
fn pending_table_insert_and_remove() {
    let mut t: PendingTable<u8> = PendingTable::new();
    t.insert(1, 10);
    t.insert(2, 20);
    assert_eq!(t.len(), 2);
    assert_eq!(t.remove(1), Some(10));
    assert_eq!(t.remove(1), None);
    assert_eq!(t.remove(3), None);
    assert_eq!(t.remove(2), Some(20));
    assert_eq!(t.len(), 0);
}

#[test]
fn transport_error_messages() {
    assert_eq!(TransportError::Unavailable.message(), "transport unavailable");
    assert_eq!(TransportError::Timeout.message(), "request timed out");
    assert_eq!(TransportError::QueueFull.message(), "submission queue full");
    assert_eq!(TransportError::WriteFailed.message(), "write failed");
    assert_eq!(TransportError::ChannelClosed.message(), "channel closed");
}
