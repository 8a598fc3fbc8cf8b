use bytes::Bytes;
use tcp_ais_broker::message::Message;
use tcp_ais_broker::queue::BoundedQueue;

fn msg(data: &'static [u8]) -> Message {
    Message { data: Bytes::from_static(data), affinity_key: None }
}

#[test]
fn fifo_order() {
    let mut q = BoundedQueue::new(10, 1000);
    assert!(q.try_push(msg(b"a\n")));
    assert!(q.try_push(msg(b"bb\n")));
    assert!(q.try_push(msg(b"ccc\n")));
    assert_eq!(q.len(), 3);
    assert_eq!(q.current_bytes(), 9);
    assert_eq!(&q.pop().unwrap().data[..], b"a\n");
    assert_eq!(&q.pop().unwrap().data[..], b"bb\n");
    assert_eq!(q.current_bytes(), 4);
    assert_eq!(&q.pop().unwrap().data[..], b"ccc\n");
    assert!(q.pop().is_none());
    assert!(q.is_empty());
    assert_eq!(q.current_bytes(), 0);
}

#[test]
fn message_limit_rejects_newest() {
    let mut q = BoundedQueue::new(2, 1000);
    assert!(q.try_push(msg(b"1")));
    assert!(q.try_push(msg(b"2")));
    assert!(!q.try_push(msg(b"3")));
    assert_eq!(q.len(), 2);
    assert_eq!(&q.pop().unwrap().data[..], b"1");
}

#[test]
fn byte_limit_rejects_newest() {
    let mut q = BoundedQueue::new(10, 5);
    assert!(q.try_push(msg(b"abc")));
    assert!(!q.try_push(msg(b"abc")));
    assert!(q.try_push(msg(b"ab")));
    assert_eq!(q.current_bytes(), 5);
    assert!(!q.has_room_for(1));
    assert!(q.has_room_for(0));
}

#[test]
fn push_hands_message_back_when_full() {
    let mut q = BoundedQueue::new(1, 100);
    assert!(q.push(msg(b"first")).is_ok());
    match q.push(msg(b"second")) {
        Ok(()) => panic!("queue should be full"),
        Err(m) => assert_eq!(&m.data[..], b"second"),
    }
    assert_eq!(q.len(), 1);
}

#[test]
fn drop_oldest_makes_room() {
    let mut q = BoundedQueue::new(2, 100);
    assert!(q.try_push(msg(b"1")));
    assert!(q.try_push(msg(b"2")));
    assert_eq!(q.push_drop_oldest(msg(b"3")), Some(1));
    assert_eq!(&q.pop().unwrap().data[..], b"2");
    assert_eq!(&q.pop().unwrap().data[..], b"3");
}

#[test]
fn drop_oldest_by_bytes() {
    let mut q = BoundedQueue::new(10, 6);
    assert!(q.try_push(msg(b"aa")));
    assert!(q.try_push(msg(b"bb")));
    assert!(q.try_push(msg(b"cc")));
    assert_eq!(q.push_drop_oldest(msg(b"dddd")), Some(2));
    assert_eq!(q.current_bytes(), 6);
    assert_eq!(&q.pop().unwrap().data[..], b"cc");
    assert_eq!(&q.pop().unwrap().data[..], b"dddd");
}

#[test]
fn drop_oldest_rejects_oversized_message() {
    let mut q = BoundedQueue::new(10, 3);
    assert!(q.try_push(msg(b"ab")));
    assert_eq!(q.push_drop_oldest(msg(b"abcd")), None);
    assert_eq!(q.len(), 1);
    assert_eq!(q.current_bytes(), 2);
}

#[test]
fn drop_oldest_with_zero_message_limit() {
    let mut q = BoundedQueue::new(0, 100);
    assert!(!q.try_push(msg(b"x")));
    assert_eq!(q.push_drop_oldest(msg(b"x")), Some(0));
    assert_eq!(q.len(), 1);
    assert_eq!(q.push_drop_oldest(msg(b"y")), Some(1));
    assert_eq!(&q.pop().unwrap().data[..], b"y");
}

#[test]
fn pop_makes_room_by_bytes() {
    let mut q = BoundedQueue::new(10, 6);
    assert!(q.try_push(msg(b"aaaa")));
    assert!(!q.has_room_for(3));
    assert_eq!(&q.pop().unwrap().data[..], b"aaaa");
    assert!(q.has_room_for(3));
    assert!(q.has_room_for(6));
}

#[test]
fn fifo_over_many_messages() {
    let mut q = BoundedQueue::new(5, 100);
    let data: [&'static [u8]; 5] = [b"1", b"22", b"333", b"4444", b"55555"];
    for d in data.iter() {
        assert!(q.try_push(msg(d)));
    }
    for d in data.iter() {
        assert_eq!(&q.pop().unwrap().data[..], *d);
    }
    assert_eq!(q.len(), 0);
    assert_eq!(q.current_bytes(), 0);
}
