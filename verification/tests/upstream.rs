use bytes::Bytes;
use tcp_ais_broker::config::{BackpressurePolicy, MultipartMode};
use tcp_ais_broker::message::Message;
use tcp_ais_broker::queue::BoundedQueue;
use tcp_ais_broker::upstream::{
    enqueue, message_from_line, next_reconnect_delay, EnqueueOutcome, ReconnectBackoff,
};

fn msg(data: &'static [u8]) -> Message {
    Message { data: Bytes::from_static(data), affinity_key: None }
}

#[test]
fn affinity_mode_keys_multipart_lines() {
    let line = Bytes::from_static(b"!AIVDM,2,1,7,A,55NBsv02>tJ4,0*1A\r\n");
    let m = message_from_line(MultipartMode::Affinity, line.clone());
    assert_eq!(m.data, line);
    assert_eq!(m.affinity_key, Some("7A".to_string()));
}

#[test]
fn other_modes_carry_no_key() {
    let line = Bytes::from_static(b"!AIVDM,2,1,7,A,55NBsv02>tJ4,0*1A\r\n");
    assert_eq!(message_from_line(MultipartMode::Line, line.clone()).affinity_key, None);
    assert_eq!(message_from_line(MultipartMode::Reassemble, line).affinity_key, None);
}

#[test]
fn single_fragment_and_invalid_text_carry_no_key() {
    let single = Bytes::from_static(b"!AIVDM,1,1,,A,15Mvq@001oJr,0*5C\r\n");
    assert_eq!(message_from_line(MultipartMode::Affinity, single).affinity_key, None);
    let invalid = Bytes::from(vec![b'!', 0xff, b',', b'2', b'\n']);
    assert_eq!(message_from_line(MultipartMode::Affinity, invalid).affinity_key, None);
}

#[test]
fn block_policy_waits_when_full() {
    let mut q = BoundedQueue::new(1, 100);
    assert!(matches!(enqueue(BackpressurePolicy::BlockUpstreamRead, &mut q, msg(b"a")), EnqueueOutcome::Queued));
    match enqueue(BackpressurePolicy::BlockUpstreamRead, &mut q, msg(b"b")) {
        EnqueueOutcome::MustWait(m) => assert_eq!(&m.data[..], b"b"),
        _ => panic!("expected to wait"),
    }
    assert_eq!(q.len(), 1);
}

#[test]
fn drop_newest_policy() {
    let mut q = BoundedQueue::new(1, 100);
    assert!(matches!(enqueue(BackpressurePolicy::DropNewest, &mut q, msg(b"a")), EnqueueOutcome::Queued));
    assert!(matches!(enqueue(BackpressurePolicy::DropNewest, &mut q, msg(b"b")), EnqueueOutcome::DroppedNewest));
    assert_eq!(&q.pop().unwrap().data[..], b"a");
}

#[test]
fn drop_oldest_policy() {
    let mut q = BoundedQueue::new(1, 3);
    assert!(matches!(enqueue(BackpressurePolicy::DropOldest, &mut q, msg(b"a")), EnqueueOutcome::QueuedDroppingOldest(0)));
    assert!(matches!(enqueue(BackpressurePolicy::DropOldest, &mut q, msg(b"b")), EnqueueOutcome::QueuedDroppingOldest(1)));
    assert!(matches!(enqueue(BackpressurePolicy::DropOldest, &mut q, msg(b"long")), EnqueueOutcome::TooLarge));
    assert_eq!(&q.pop().unwrap().data[..], b"b");
}

#[test]
fn exit_policy() {
    let mut q = BoundedQueue::new(1, 100);
    assert!(matches!(enqueue(BackpressurePolicy::Exit, &mut q, msg(b"a")), EnqueueOutcome::Queued));
    assert!(matches!(enqueue(BackpressurePolicy::Exit, &mut q, msg(b"b")), EnqueueOutcome::MustExit));
}

#[test]
fn reconnect_delay_doubles_up_to_max() {
    assert_eq!(next_reconnect_delay(1000, 30000), 2000);
    assert_eq!(next_reconnect_delay(16000, 30000), 30000);
    assert_eq!(next_reconnect_delay(30000, 30000), 30000);
    assert_eq!(next_reconnect_delay(u64::MAX, 30000), 30000);
    assert_eq!(next_reconnect_delay(u64::MAX / 2, u64::MAX), u64::MAX - 1);
    let mut d = 1000;
    let mut seen = Vec::new();
    for _ in 0..7 {
        seen.push(d);
        d = next_reconnect_delay(d, 30000);
    }
    assert_eq!(seen, vec![1000, 2000, 4000, 8000, 16000, 30000, 30000]);
}

#[test]
fn backoff_resets_on_connect() {
    let mut b = ReconnectBackoff::new(1000, 5000);
    assert_eq!(b.on_retry(), 1000);
    assert_eq!(b.on_retry(), 2000);
    assert_eq!(b.on_retry(), 4000);
    assert_eq!(b.on_retry(), 5000);
    assert_eq!(b.delay_ms(), 5000);
    b.on_connected();
    assert_eq!(b.delay_ms(), 1000);
    assert_eq!(b.on_retry(), 1000);
}
