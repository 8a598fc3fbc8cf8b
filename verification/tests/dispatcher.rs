use bytes::Bytes;
use tcp_ais_broker::config::{LoadBalanceStrategy, NoConsumerPolicy};
use tcp_ais_broker::dispatcher::{hash_bytes, simple_hash, DispatchAction, Dispatcher};
use tcp_ais_broker::message::Message;

fn plain() -> Message {
    Message { data: Bytes::from_static(b"line\n"), affinity_key: None }
}

fn keyed(k: &str) -> Message {
    Message { data: Bytes::from_static(b"frag\n"), affinity_key: Some(k.to_string()) }
}

#[test]
fn djb2_values() {
    assert_eq!(simple_hash(""), 5381);
    assert_eq!(simple_hash("a"), 5381 * 33 + 97);
    assert_eq!(simple_hash("7A"), (5381usize * 33 + 55) * 33 + 65);
    assert_eq!(hash_bytes(b"7A"), simple_hash("7A"));
    let mut h: usize = 5381;
    for b in "a long key that wraps around".bytes() {
        h = h.wrapping_mul(33).wrapping_add(b as usize);
    }
    assert_eq!(simple_hash("a long key that wraps around"), h);
    // Appending an ASCII character extends the hash by one step.
    let base = "a long key that wraps around";
    assert_eq!(
        simple_hash(&format!("{}{}", base, 'Z')),
        simple_hash(base).wrapping_mul(33).wrapping_add('Z' as usize)
    );
}

#[test]
fn round_robin_cycles_through_workers() {
    let mut d = Dispatcher::new(LoadBalanceStrategy::RoundRobin, NoConsumerPolicy::Buffer);
    d.register(10);
    d.register(20);
    d.register(30);
    let picks: Vec<_> = (0..6).map(|_| d.select_worker(&plain()).unwrap()).collect();
    assert_eq!(picks, vec![10, 20, 30, 10, 20, 30]);
}

#[test]
fn no_worker_selects_nothing() {
    let mut d = Dispatcher::new(LoadBalanceStrategy::RoundRobin, NoConsumerPolicy::Buffer);
    assert_eq!(d.select_worker(&plain()), None);
    assert_eq!(d.select_worker(&keyed("1A")), None);
    assert_eq!(d.affinity_groups(), 0);
}

#[test]
fn least_pending_takes_least_loaded_worker() {
    let mut d = Dispatcher::new(LoadBalanceStrategy::LeastPending, NoConsumerPolicy::Buffer);
    d.register(5);
    d.register(6);
    assert_eq!(d.dispatch(&plain()), DispatchAction::Deliver(5));
    assert_eq!(d.pending_count(5), Some(1));
    assert_eq!(d.dispatch(&plain()), DispatchAction::Deliver(6));
    assert_eq!(d.dispatch(&plain()), DispatchAction::Deliver(5));
    assert_eq!(d.dispatch(&plain()), DispatchAction::Deliver(6));
    // Worker 6 catches up on two messages; it is now the least loaded.
    d.message_taken(6);
    d.message_taken(6);
    assert_eq!(d.pending_count(6), Some(0));
    assert_eq!(d.dispatch(&plain()), DispatchAction::Deliver(6));
    assert_eq!(d.dispatch(&plain()), DispatchAction::Deliver(6));
    assert_eq!(d.pending_count(5), Some(2));
    assert_eq!(d.pending_count(6), Some(2));
    // A keyed message goes to the least loaded worker and is pinned there.
    d.message_taken(5);
    assert_eq!(d.dispatch(&keyed("3B")), DispatchAction::Deliver(5));
    assert_eq!(d.dispatch(&keyed("3B")), DispatchAction::Deliver(5));
    assert_eq!(d.pending_count(5), Some(3));
}

#[test]
fn pending_counts_follow_registration() {
    let mut d = Dispatcher::new(LoadBalanceStrategy::LeastPending, NoConsumerPolicy::Buffer);
    assert_eq!(d.pending_count(1), None);
    d.register(1);
    assert_eq!(d.pending_count(1), Some(0));
    d.message_taken(1);
    assert_eq!(d.pending_count(1), Some(0));
    d.dispatch(&plain());
    d.register(1);
    assert_eq!(d.pending_count(1), Some(1));
    d.unregister(1);
    assert_eq!(d.pending_count(1), None);
    d.message_taken(1);
    assert_eq!(d.pending_count(1), None);
}

#[test]
fn hash_affinity_uses_key_hash() {
    let mut d = Dispatcher::new(LoadBalanceStrategy::HashAffinity, NoConsumerPolicy::Buffer);
    d.register(100);
    d.register(200);
    d.register(300);
    let workers = [100, 200, 300];
    let expect = workers[simple_hash("9B") % 3];
    assert_eq!(d.select_worker(&keyed("9B")), Some(expect));
    // Without a key, the decimal text of the counter is hashed.
    assert_eq!(d.select_worker(&plain()), Some(workers[simple_hash("0") % 3]));
    assert_eq!(d.select_worker(&plain()), Some(workers[simple_hash("1") % 3]));
    assert_eq!(d.select_worker(&plain()), Some(workers[simple_hash("2") % 3]));
    assert_eq!(d.select_worker(&plain()), Some(workers[simple_hash("0") % 3]));
}

#[test]
fn fragments_stick_to_one_worker() {
    let mut d = Dispatcher::new(LoadBalanceStrategy::RoundRobin, NoConsumerPolicy::Buffer);
    d.register(1);
    d.register(2);
    d.register(3);
    let first = d.select_worker(&keyed("7A")).unwrap();
    assert_eq!(first, 1);
    assert_eq!(d.select_worker(&plain()), Some(2));
    assert_eq!(d.select_worker(&keyed("7A")), Some(first));
    assert_eq!(d.select_worker(&keyed("8A")), Some(3));
    d.register(4);
    assert_eq!(d.select_worker(&keyed("7A")), Some(first));
    assert_eq!(d.affinity_groups(), 2);
}

#[test]
fn unregister_unpins_and_stops_delivery() {
    let mut d = Dispatcher::new(LoadBalanceStrategy::RoundRobin, NoConsumerPolicy::Buffer);
    d.register(1);
    d.register(2);
    assert_eq!(d.select_worker(&keyed("5A")), Some(1));
    d.unregister(1);
    assert!(!d.has_worker(1));
    assert_eq!(d.worker_count(), 1);
    assert_eq!(d.affinity_groups(), 0);
    for _ in 0..4 {
        assert_eq!(d.select_worker(&plain()), Some(2));
    }
    assert_eq!(d.select_worker(&keyed("5A")), Some(2));
}

#[test]
fn registering_twice_keeps_one_entry() {
    let mut d = Dispatcher::new(LoadBalanceStrategy::RoundRobin, NoConsumerPolicy::Buffer);
    d.register(7);
    d.register(7);
    assert_eq!(d.worker_count(), 1);
    d.unregister(7);
    assert_eq!(d.worker_count(), 0);
    d.unregister(7);
    assert_eq!(d.worker_count(), 0);
}

#[test]
fn no_consumer_policies() {
    let cases = [
        (NoConsumerPolicy::Buffer, DispatchAction::Requeue),
        (NoConsumerPolicy::Drop, DispatchAction::Drop),
        (NoConsumerPolicy::Pause, DispatchAction::PauseAndDrop),
        (NoConsumerPolicy::Exit, DispatchAction::Exit),
    ];
    for (policy, action) in cases {
        let mut d = Dispatcher::new(LoadBalanceStrategy::RoundRobin, policy);
        assert_eq!(d.dispatch(&plain()), action);
        d.register(3);
        assert_eq!(d.dispatch(&plain()), DispatchAction::Deliver(3));
    }
}

#[test]
fn pin_to_departed_worker_is_replaced() {
    let mut d = Dispatcher::new(LoadBalanceStrategy::RoundRobin, NoConsumerPolicy::Buffer);
    d.register(1);
    d.register(2);
    assert_eq!(d.select_worker(&keyed("1B")), Some(1));
    d.unregister(1);
    d.register(1);
    // The pin was dropped on disconnection; the key is routed afresh.
    let w = d.select_worker(&keyed("1B")).unwrap();
    assert_eq!(d.select_worker(&keyed("1B")), Some(w));
    assert_eq!(d.affinity_groups(), 1);
}
