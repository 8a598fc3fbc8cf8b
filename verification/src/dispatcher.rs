//! Choosing the consumer for each dequeued message.
//!
//! The dispatcher keeps the connected consumers (workers), in the order in
//! which they registered, and the affinity table that pins AIS multipart
//! fragments to the worker that received the first of them.
use vstd::prelude::*;
use vstd::utf8::{encode_scalar, encode_utf8};
use vstd::wrapping::usize_specs;
use crate::config::{LoadBalanceStrategy, NoConsumerPolicy};
use crate::decimal::{decimal_bytes, decimal_digits};
use crate::message::Message;

verus! {

pub type WorkerId = usize;

/// The djb2 hash of `s`: starting from 5381, each byte `b` turns `h` into
/// `h * 33 + b`, wrapping around at the width of `usize`.
pub open spec fn djb2(s: Seq<u8>) -> usize
    decreases s.len(),
{
    if s.len() == 0 {
        5381
    } else {
        usize_specs::wrapping_add(usize_specs::wrapping_mul(djb2(s.drop_last()), 33), s.last() as usize)
    }
}

/// The djb2 hash of `bytes`.
pub fn hash_bytes(bytes: &[u8]) -> (h: usize)
    ensures
        h == djb2(bytes@),
{
    let mut hash: usize = 5381;
    let mut i: usize = 0;
    while i < bytes.len()
        invariant
            i <= bytes@.len(),
            hash == djb2(bytes@.take(i as int)),
        decreases bytes@.len() - i,
    {
        assert(bytes@.take(i + 1).drop_last() =~= bytes@.take(i as int));
        hash = hash.wrapping_mul(33).wrapping_add(bytes[i] as usize);
        i = i + 1;
    }
    assert(bytes@.take(bytes@.len() as int) =~= bytes@);
    hash
}

/// The djb2 hash of the UTF-8 bytes of `s`.
pub fn simple_hash(s: &str) -> (h: usize)
    ensures
        h == djb2(encode_utf8(s@)),
{
    hash_bytes(s.as_bytes())
}

/// Encoding one more character appends its encoding.
proof fn lemma_encode_utf8_push(s: Seq<char>, c: char)
    ensures
        encode_utf8(s.push(c)) == encode_utf8(s) + encode_scalar(c as u32),
    decreases s.len(),
{
    if s.len() == 0 {
        assert(s.push(c).drop_first() =~= Seq::<char>::empty());
        assert(encode_utf8(s.push(c).drop_first()) == Seq::<u8>::empty());
        assert(encode_utf8(s) == Seq::<u8>::empty());
        assert(s.push(c)[0] == c);
        assert(encode_utf8(s.push(c)) =~= encode_utf8(s) + encode_scalar(c as u32));
    } else {
        lemma_encode_utf8_push(s.drop_first(), c);
        assert(s.push(c).drop_first() =~= s.drop_first().push(c));
        assert(s.push(c)[0] == s[0]);
        assert(encode_utf8(s.push(c)) =~= encode_utf8(s) + encode_scalar(c as u32));
    }
}

/// Law (hashing): the empty key hashes to 5381, and appending an ASCII
/// character `c` to a key turns its hash `h` into `h * 33 + c`, wrapping
/// around at the width of `usize`.
pub proof fn lemma_hash_append(s: Seq<char>, c: char)
    requires
        (c as u32) < 128,
    ensures
        djb2(encode_utf8(Seq::<char>::empty())) == 5381,
        djb2(encode_utf8(s.push(c))) == usize_specs::wrapping_add(
            usize_specs::wrapping_mul(djb2(encode_utf8(s)), 33),
            c as usize,
        ),
{
    assert(encode_utf8(Seq::<char>::empty()) =~= Seq::<u8>::empty());
    lemma_encode_utf8_push(s, c);
    let v = c as u32;
    assert((v & 0x7F) as u8 as usize == v as usize) by (bit_vector)
        requires
            v < 128,
    ;
    assert(encode_scalar(v) == seq![(v & 0x7F) as u8]);
    let b = encode_utf8(s.push(c));
    assert(b.drop_last() =~= encode_utf8(s));
    assert(b.last() == (v & 0x7F) as u8);
}

/// What the broker does with a dequeued message.
#[derive(Debug, Clone, Copy, PartialEq, Eq, Structural)]
pub enum DispatchAction {
    /// Send it to this worker.
    Deliver(WorkerId),
    /// No worker is connected: put it back in the queue and retry later.
    Requeue,
    /// No worker is connected: discard it.
    Drop,
    /// No worker is connected: discard it and pause upstream reading.
    PauseAndDrop,
    /// No worker is connected: terminate the process.
    Exit,
}

/// The abstract state of a [`Dispatcher`].
pub struct DispatcherView {
    /// Connected workers, in registration order; no worker occurs twice.
    pub workers: Seq<WorkerId>,
    /// The worker each affinity key is pinned to.
    pub affinity: Map<Seq<char>, WorkerId>,
    /// For each connected worker, how many messages were sent to it that it
    /// has not taken yet.
    pub pending: Map<WorkerId, usize>,
    /// Position of the next round-robin pick.
    pub rr_counter: usize,
    pub strategy: LoadBalanceStrategy,
    pub no_consumer_policy: NoConsumerPolicy,
}

impl DispatcherView {
    /// The worker picked by round robin, and the counter afterwards.
    /// Well-formed state: no worker twice, a pending count for exactly the
    /// connected workers, and a round-robin counter that can be incremented.
    pub open spec fn valid(self) -> bool {
        &&& no_duplicates(self.workers)
        &&& forall|w: WorkerId| #[trigger] self.pending.contains_key(w) <==> self.workers.contains(w)
        &&& self.rr_counter < usize::MAX
    }

    /// The connected worker with the fewest pending messages.
    pub open spec fn least_pending(self) -> WorkerId {
        self.workers[least_pending_index(self.workers, self.pending)]
    }

    /// The state after a message was sent to worker `w`.
    pub open spec fn record_sent(self, w: WorkerId) -> DispatcherView {
        DispatcherView {
            pending: self.pending.insert(w, saturating_inc(self.pending[w])),
            ..self
        }
    }

    /// The state after worker `id` took one of its pending messages.
    pub open spec fn record_taken(self, id: WorkerId) -> DispatcherView {
        if self.pending.contains_key(id) && self.pending[id] > 0 {
            DispatcherView { pending: self.pending.insert(id, (self.pending[id] - 1) as usize), ..self }
        } else {
            self
        }
    }

    pub open spec fn round_robin(self) -> (WorkerId, usize) {
        let n = self.workers.len() as int;
        (self.workers[self.rr_counter as int % n], ((self.rr_counter + 1) % n) as usize)
    }

    /// The worker chosen for a message with affinity key `key`, and the state
    /// afterwards. `None` exactly when no worker is connected.
    ///
    /// A key pinned to a connected worker goes to that worker. Otherwise the
    /// strategy picks a worker and the key is pinned to it: round robin takes
    /// the next worker in turn, least-pending the worker with the fewest
    /// pending messages (the earliest registered among equals),
    /// hash-affinity the worker at the key's hash modulo the worker count.
    /// Messages without a key are spread by the strategy alone; hash-affinity
    /// then hashes the decimal text of the round-robin counter and advances it.
    pub open spec fn select(self, key: Option<Seq<char>>) -> (Option<WorkerId>, DispatcherView) {
        let n = self.workers.len() as int;
        if n == 0 {
            (None, self)
        } else {
            match key {
                Some(k) => {
                    if self.affinity.contains_key(k) && self.workers.contains(self.affinity[k]) {
                        (Some(self.affinity[k]), self)
                    } else {
                        let (w, rr) = match self.strategy {
                            LoadBalanceStrategy::RoundRobin => self.round_robin(),
                            LoadBalanceStrategy::LeastPending => (self.least_pending(), self.rr_counter),
                            LoadBalanceStrategy::HashAffinity => (
                                self.workers[djb2(encode_utf8(k)) as int % n],
                                self.rr_counter,
                            ),
                        };
                        (
                            Some(w),
                            DispatcherView {
                                affinity: self.affinity.insert(k, w),
                                rr_counter: rr,
                                ..self
                            },
                        )
                    }
                },
                None => {
                    let (w, rr) = match self.strategy {
                        LoadBalanceStrategy::RoundRobin => self.round_robin(),
                        LoadBalanceStrategy::LeastPending => (self.least_pending(), self.rr_counter),
                        LoadBalanceStrategy::HashAffinity => (
                            self.workers[djb2(decimal_digits(self.rr_counter as nat)) as int % n],
                            ((self.rr_counter + 1) % n) as usize,
                        ),
                    };
                    (Some(w), DispatcherView { rr_counter: rr, ..self })
                },
            }
        }
    }

    /// What is done with a message with affinity key `key`, and the state
    /// afterwards: delivery to the selected worker, which then has one more
    /// pending message, or, with no worker connected, what the no-consumer
    /// policy says.
    pub open spec fn dispatch(self, key: Option<Seq<char>>) -> (DispatchAction, DispatcherView) {
        if self.workers.len() == 0 {
            (
                match self.no_consumer_policy {
                    NoConsumerPolicy::Buffer => DispatchAction::Requeue,
                    NoConsumerPolicy::Drop => DispatchAction::Drop,
                    NoConsumerPolicy::Pause => DispatchAction::PauseAndDrop,
                    NoConsumerPolicy::Exit => DispatchAction::Exit,
                },
                self,
            )
        } else {
            let (w, after) = self.select(key);
            (DispatchAction::Deliver(w->0), after.record_sent(w->0))
        }
    }

    /// The state after worker `id` connects.
    pub open spec fn register(self, id: WorkerId) -> DispatcherView {
        if self.workers.contains(id) {
            self
        } else {
            DispatcherView { workers: self.workers.push(id), pending: self.pending.insert(id, 0), ..self }
        }
    }

    /// The state after worker `id` disconnects: it leaves the worker list,
    /// its pending count is forgotten, and every key pinned to it is
    /// unpinned.
    pub open spec fn unregister(self, id: WorkerId) -> DispatcherView {
        DispatcherView {
            workers: self.workers.filter(other_than(id)),
            pending: self.pending.remove(id),
            affinity: unpinned(self.affinity, id),
            ..self
        }
    }
}

/// `n + 1`, or `n` when that would not fit.
pub open spec fn saturating_inc(n: usize) -> usize {
    if n < usize::MAX {
        (n + 1) as usize
    } else {
        n
    }
}

/// The position in `ws` of the first worker with the fewest pending messages.
pub open spec fn least_pending_index(ws: Seq<WorkerId>, pending: Map<WorkerId, usize>) -> int
    decreases ws.len(),
{
    if ws.len() <= 1 {
        0
    } else {
        let m = least_pending_index(ws.drop_last(), pending);
        if pending[ws.last()] < pending[ws[m]] {
            ws.len() - 1
        } else {
            m
        }
    }
}

/// Law (least pending): the worker picked has no more pending messages than
/// any connected worker, and fewer than every worker registered before it.
pub proof fn lemma_least_pending_is_least(ws: Seq<WorkerId>, pending: Map<WorkerId, usize>)
    requires
        ws.len() > 0,
    ensures
        0 <= least_pending_index(ws, pending) < ws.len(),
        forall|j: int|
            0 <= j < ws.len() ==> pending[ws[least_pending_index(ws, pending)]] <= pending[#[trigger] ws[j]],
        forall|j: int|
            0 <= j < least_pending_index(ws, pending) ==> pending[ws[least_pending_index(ws, pending)]]
                < pending[#[trigger] ws[j]],
    decreases ws.len(),
{
    if ws.len() > 1 {
        let t = ws.drop_last();
        lemma_least_pending_is_least(t, pending);
        assert(forall|j: int| 0 <= j < t.len() ==> ws[j] == t[j]);
    }
}

/// Holds of every worker but `id`.
pub open spec fn other_than(id: WorkerId) -> spec_fn(WorkerId) -> bool {
    |w: WorkerId| w != id
}

/// `m` without the keys pinned to worker `id`.
pub open spec fn unpinned(m: Map<Seq<char>, WorkerId>, id: WorkerId) -> Map<Seq<char>, WorkerId> {
    Map::new(|k: Seq<char>| m.contains_key(k) && m[k] != id, |k: Seq<char>| m[k])
}

/// Law: a message goes to exactly one worker, and that worker is connected;
/// with no worker connected, nothing is chosen. Choosing never changes the
/// worker list.
pub proof fn lemma_selected_worker_is_connected(v: DispatcherView, key: Option<Seq<char>>)
    ensures
        v.workers.len() == 0 ==> v.select(key).0 is None,
        v.workers.len() > 0 ==> v.select(key).0 is Some && v.workers.contains(v.select(key).0->0),
        v.select(key).1.workers == v.workers,
{
    let n = v.workers.len() as int;
    if n > 0 {
        let rr = v.rr_counter as int;
        assert(0 <= rr % n < n);
        match key {
            Some(k) => {
                let h = djb2(encode_utf8(k)) as int;
                assert(0 <= h % n < n);
                if v.affinity.contains_key(k) && v.workers.contains(v.affinity[k]) {
                } else {
                    match v.strategy {
                        LoadBalanceStrategy::RoundRobin => assert(v.workers.contains(v.workers[rr % n])),
                        LoadBalanceStrategy::LeastPending => {
                            lemma_least_pending_is_least(v.workers, v.pending);
                            assert(v.workers.contains(v.least_pending()));
                        },
                        LoadBalanceStrategy::HashAffinity => assert(v.workers.contains(v.workers[h % n])),
                    }
                }
            },
            None => {
                let h = djb2(decimal_digits(v.rr_counter as nat)) as int;
                assert(0 <= h % n < n);
                match v.strategy {
                    LoadBalanceStrategy::RoundRobin => assert(v.workers.contains(v.workers[rr % n])),
                    LoadBalanceStrategy::LeastPending => {
                            lemma_least_pending_is_least(v.workers, v.pending);
                            assert(v.workers.contains(v.least_pending()));
                        },
                    LoadBalanceStrategy::HashAffinity => assert(v.workers.contains(v.workers[h % n])),
                }
            },
        }
    }
}

/// Law (fragment affinity): once a message with key `k` has gone to a
/// worker, the next message with key `k` goes to the same worker and changes
/// nothing.
pub proof fn lemma_affinity_is_sticky(v: DispatcherView, k: Seq<char>)
    requires
        v.workers.len() > 0,
    ensures
        ({
            let (first, after) = v.select(Some(k));
            after.select(Some(k)) == (first, after)
        }),
{
    lemma_selected_worker_is_connected(v, Some(k));
}

/// Law (fragment affinity): a key pinned to a connected worker stays pinned
/// to it, and the worker stays connected, whatever other message is
/// dispatched and whichever worker connects.
pub proof fn lemma_pin_survives(v: DispatcherView, k: Seq<char>, other: Option<Seq<char>>, id: WorkerId)
    requires
        v.affinity.contains_key(k),
        v.workers.contains(v.affinity[k]),
    ensures
        v.select(other).1.affinity.contains_key(k),
        v.select(other).1.affinity[k] == v.affinity[k],
        v.select(other).1.workers == v.workers,
        v.register(id).affinity == v.affinity,
        v.register(id).workers.contains(v.affinity[k]),
{
    lemma_selected_worker_is_connected(v, other);
    let w = v.affinity[k];
    let i = choose|i: int| 0 <= i < v.workers.len() && v.workers[i] == w;
    if !v.workers.contains(id) {
        assert(v.workers.push(id)[i] == w);
    }
}

/// Law (disconnection): once worker `id` has disconnected, no key is pinned
/// to it and no message goes to it.
pub proof fn lemma_unregistered_worker_is_never_selected(
    v: DispatcherView,
    id: WorkerId,
    key: Option<Seq<char>>,
)
    ensures
        !v.unregister(id).workers.contains(id),
        forall|k: Seq<char>|
            #[trigger] v.unregister(id).affinity.contains_key(k) ==> v.unregister(id).affinity[k] != id,
        v.unregister(id).select(key).0 != Some(id),
{
    broadcast use vstd::seq_lib::group_filter_ensures;

    let after = v.unregister(id);
    if after.workers.contains(id) {
        let i = choose|i: int| 0 <= i < after.workers.len() && after.workers[i] == id;
        assert(other_than(id)(v.workers.filter(other_than(id))[i]));
    }
    lemma_selected_worker_is_connected(after, key);
}

/// `x % n` for `0 <= x < 2n`.
proof fn lemma_mod_below_twice(x: int, n: int)
    requires
        0 <= x < 2 * n,
    ensures
        x % n == (if x < n {
            x
        } else {
            x - n
        }),
{
    if x < n {
        vstd::arithmetic::div_mod::lemma_fundamental_div_mod_converse(x, n, 0, x);
    } else {
        vstd::arithmetic::div_mod::lemma_fundamental_div_mod_converse(x, n, 1, x - n);
    }
}

/// Law (least pending): under least-pending, a message without a key goes
/// to a connected worker with no more pending messages than any other, and
/// that worker then has one more pending message (unless already at the
/// largest count).
pub proof fn lemma_least_pending_dispatch(v: DispatcherView)
    requires
        v.strategy == LoadBalanceStrategy::LeastPending,
        v.workers.len() > 0,
    ensures
        ({
            let (action, after) = v.dispatch(None);
            &&& action == DispatchAction::Deliver(v.least_pending())
            &&& v.workers.contains(v.least_pending())
            &&& forall|x: WorkerId| #[trigger] v.workers.contains(x) ==> v.pending[v.least_pending()] <= v.pending[x]
            &&& after.pending[v.least_pending()] == saturating_inc(v.pending[v.least_pending()])
        }),
{
    lemma_least_pending_is_least(v.workers, v.pending);
    assert forall|x: WorkerId| #[trigger] v.workers.contains(x) implies v.pending[v.least_pending()] <= v.pending[x] by {
        let j = choose|j: int| 0 <= j < v.workers.len() && v.workers[j] == x;
        assert(v.pending[v.workers[j]] >= v.pending[v.least_pending()]);
    }
}

/// Law (connection): after `register(id)`, worker `id` is connected. A new
/// worker joins at the end of the list with no pending message; an already
/// connected worker leaves the state as it was. The other workers, the pins
/// and the round-robin counter are untouched.
pub proof fn lemma_register_connects(v: DispatcherView, id: WorkerId)
    ensures
        v.register(id).workers.contains(id),
        !v.workers.contains(id) ==> v.register(id).workers == v.workers.push(id),
        !v.workers.contains(id) ==> v.register(id).pending[id] == 0,
        v.workers.contains(id) ==> v.register(id) == v,
        forall|w: WorkerId| #[trigger] v.workers.contains(w) ==> v.register(id).workers.contains(w),
        v.register(id).affinity == v.affinity,
        v.register(id).rr_counter == v.rr_counter,
{
    if !v.workers.contains(id) {
        let ws = v.workers.push(id);
        assert(ws[ws.len() - 1] == id);
        assert forall|w: WorkerId| #[trigger] v.workers.contains(w) implies ws.contains(w) by {
            let i = choose|i: int| 0 <= i < v.workers.len() && v.workers[i] == w;
            assert(ws[i] == w);
        }
    }
}

/// Law (disconnection): unregistering worker `id` removes it, and only it,
/// from the workers, and removes the pins to it and only those: every
/// other worker stays connected and every key pinned to another worker
/// stays pinned to that worker.
pub proof fn lemma_unregister_keeps_others(v: DispatcherView, id: WorkerId)
    ensures
        forall|w: WorkerId|
            #[trigger] v.unregister(id).workers.contains(w) <==> (v.workers.contains(w) && w != id),
        forall|k: Seq<char>|
            #[trigger] v.unregister(id).affinity.contains_key(k) <==> (v.affinity.contains_key(k)
                && v.affinity[k] != id),
        forall|k: Seq<char>|
            v.affinity.contains_key(k) && v.affinity[k] != id ==> #[trigger] v.unregister(id).affinity[k]
                == v.affinity[k],
{
    broadcast use vstd::seq_lib::group_filter_ensures;

    let ws = v.unregister(id).workers;
    assert forall|w: WorkerId| #[trigger] ws.contains(w) <==> (v.workers.contains(w) && w != id) by {
        if ws.contains(w) {
            let i = choose|i: int| 0 <= i < ws.len() && ws[i] == w;
            assert(other_than(id)(v.workers.filter(other_than(id))[i]));
            v.workers.lemma_filter_contains_rev(other_than(id), w);
        }
        if v.workers.contains(w) && w != id {
            let i = choose|i: int| 0 <= i < v.workers.len() && v.workers[i] == w;
            assert(other_than(id)(v.workers[i]));
        }
    }
}

/// Law (disconnection): a key pinned to a connected worker still goes to
/// that worker after some other worker disconnects.
pub proof fn lemma_pin_survives_other_disconnect(v: DispatcherView, k: Seq<char>, id: WorkerId)
    requires
        v.affinity.contains_key(k),
        v.workers.contains(v.affinity[k]),
        v.affinity[k] != id,
    ensures
        v.unregister(id).select(Some(k)).0 == Some(v.affinity[k]),
{
    lemma_unregister_keeps_others(v, id);
    assert(v.unregister(id).workers.contains(v.affinity[k]));
}

/// Law (hash affinity): under hash affinity, a key that is not pinned to a
/// connected worker goes to the worker at the key's own hash modulo the
/// number of workers, whatever the round-robin counter.
pub proof fn lemma_hash_affinity_follows_key(v: DispatcherView, k: Seq<char>, rr: usize)
    requires
        v.strategy == LoadBalanceStrategy::HashAffinity,
        v.workers.len() > 0,
        !(v.affinity.contains_key(k) && v.workers.contains(v.affinity[k])),
    ensures
        v.select(Some(k)).0 == Some(v.workers[djb2(encode_utf8(k)) as int % v.workers.len() as int]),
        (DispatcherView { rr_counter: rr, ..v }).select(Some(k)).0 == v.select(Some(k)).0,
        v.select(Some(k)).1.affinity[k] == v.workers[djb2(encode_utf8(k)) as int % v.workers.len() as int],
        v.select(Some(k)).1.rr_counter == v.rr_counter,
{
}

/// Law (no consumer): with no worker connected, nothing is delivered and
/// the state is unchanged; buffering requeues the message, dropping drops
/// it, pausing drops it and pauses upstream, and exit terminates.
pub proof fn lemma_no_consumer(v: DispatcherView, key: Option<Seq<char>>)
    requires
        v.workers.len() == 0,
    ensures
        v.dispatch(key).1 == v,
        v.no_consumer_policy == NoConsumerPolicy::Buffer ==> v.dispatch(key).0 == DispatchAction::Requeue,
        v.no_consumer_policy == NoConsumerPolicy::Drop ==> v.dispatch(key).0 == DispatchAction::Drop,
        v.no_consumer_policy == NoConsumerPolicy::Pause ==> v.dispatch(key).0
            == DispatchAction::PauseAndDrop,
        v.no_consumer_policy == NoConsumerPolicy::Exit ==> v.dispatch(key).0 == DispatchAction::Exit,
{
}

/// Law (routing a new key): a key not pinned to a connected worker is pinned
/// to the worker chosen for it: under round robin the worker at the counter,
/// which then advances by one; under least-pending a worker with no more
/// pending messages than any other; under hash-affinity the worker at the
/// key's hash. Delivering it adds one pending message to that worker.
pub proof fn lemma_new_key_is_routed_and_pinned(v: DispatcherView, k: Seq<char>)
    requires
        0 < v.workers.len() <= usize::MAX,
        !(v.affinity.contains_key(k) && v.workers.contains(v.affinity[k])),
    ensures
        ({
            let n = v.workers.len() as int;
            let (w, after) = v.select(Some(k));
            let w = w->0;
            &&& v.workers.contains(w)
            &&& after.affinity == v.affinity.insert(k, w)
            &&& after.workers == v.workers
            &&& v.strategy == LoadBalanceStrategy::RoundRobin ==> w == v.workers[v.rr_counter as int % n]
                && after.rr_counter as int == (v.rr_counter + 1) % n
            &&& v.strategy == LoadBalanceStrategy::LeastPending ==> (forall|x: WorkerId|
                #[trigger] v.workers.contains(x) ==> v.pending[w] <= v.pending[x])
                && after.rr_counter == v.rr_counter
            &&& v.strategy == LoadBalanceStrategy::HashAffinity ==> w == v.workers[djb2(encode_utf8(k))
                as int % n] && after.rr_counter == v.rr_counter
            &&& v.dispatch(Some(k)) == (DispatchAction::Deliver(w), after.record_sent(w))
        }),
{
    lemma_selected_worker_is_connected(v, Some(k));
    let n = v.workers.len() as int;
    if v.strategy == LoadBalanceStrategy::RoundRobin {
        assert(0 <= (v.rr_counter + 1) % n < n);
    }
    if v.strategy == LoadBalanceStrategy::LeastPending {
        lemma_least_pending_dispatch(v);
    }
}

/// Law (keyless messages): a message without a key goes, under round robin,
/// to the worker at the counter, which advances by one; under least-pending
/// to a worker with no more pending messages than any other; under
/// hash-affinity to the worker at the hash of the counter's decimal text,
/// which then advances by one. No pin changes.
pub proof fn lemma_keyless_routing(v: DispatcherView)
    requires
        0 < v.workers.len() <= usize::MAX,
    ensures
        ({
            let n = v.workers.len() as int;
            let (w, after) = v.select(None);
            let w = w->0;
            &&& v.workers.contains(w)
            &&& after.affinity == v.affinity
            &&& after.workers == v.workers
            &&& v.strategy == LoadBalanceStrategy::RoundRobin ==> w == v.workers[v.rr_counter as int % n]
                && after.rr_counter as int == (v.rr_counter + 1) % n
            &&& v.strategy == LoadBalanceStrategy::LeastPending ==> (forall|x: WorkerId|
                #[trigger] v.workers.contains(x) ==> v.pending[w] <= v.pending[x])
                && after.rr_counter == v.rr_counter
            &&& v.strategy == LoadBalanceStrategy::HashAffinity ==> w == v.workers[djb2(
                decimal_digits(v.rr_counter as nat),
            ) as int % n] && after.rr_counter as int == (v.rr_counter + 1) % n
        }),
{
    lemma_selected_worker_is_connected(v, None);
    let n = v.workers.len() as int;
    assert(0 <= (v.rr_counter + 1) % n < n);
    if v.strategy == LoadBalanceStrategy::LeastPending {
        lemma_least_pending_dispatch(v);
    }
}

/// Law (pending counts): a worker taking a message lowers its count by one,
/// never below zero, and changes nothing else; a delivery raises the count
/// of the worker delivered to by one.
pub proof fn lemma_pending_counts(v: DispatcherView, id: WorkerId, key: Option<Seq<char>>)
    ensures
        v.pending.contains_key(id) && v.pending[id] > 0 ==> v.record_taken(id).pending[id] == v.pending[id] - 1,
        !(v.pending.contains_key(id) && v.pending[id] > 0) ==> v.record_taken(id) == v,
        forall|x: WorkerId| x != id && #[trigger] v.pending.contains_key(x) ==> v.record_taken(id).pending.contains_key(x)
            && v.record_taken(id).pending[x] == v.pending[x],
        v.workers.len() > 0 && v.pending[v.select(key).0->0] < usize::MAX ==> v.dispatch(key).1.pending[v.select(
            key,
        ).0->0] == v.pending[v.select(key).0->0] + 1,
{
}

/// The actions taken for successive messages with the affinity keys `keys`,
/// and the state afterwards.
pub open spec fn run(v: DispatcherView, keys: Seq<Option<Seq<char>>>) -> (
    Seq<DispatchAction>,
    DispatcherView,
)
    decreases keys.len(),
{
    if keys.len() == 0 {
        (Seq::empty(), v)
    } else {
        let (a, next) = v.dispatch(keys[0]);
        let (rest, last) = run(next, keys.drop_first());
        (seq![a] + rest, last)
    }
}

/// `count` messages without an affinity key.
pub open spec fn no_keys(count: nat) -> Seq<Option<Seq<char>>> {
    Seq::new(count, |i: int| None)
}

/// Law (fragment affinity): a key pinned to a connected worker stays pinned
/// to it through any run of dispatches, the worker list does not change, and
/// every message of the run with that key is delivered to that worker.
pub proof fn lemma_pin_holds_over_run(v: DispatcherView, k: Seq<char>, keys: Seq<Option<Seq<char>>>)
    requires
        v.affinity.contains_key(k),
        v.workers.contains(v.affinity[k]),
    ensures
        ({
            let (actions, after) = run(v, keys);
            &&& actions.len() == keys.len()
            &&& after.affinity.contains_key(k)
            &&& after.affinity[k] == v.affinity[k]
            &&& after.workers == v.workers
            &&& forall|i: int|
                0 <= i < keys.len() && keys[i] == Some(k) ==> actions[i] == DispatchAction::Deliver(
                    v.affinity[k],
                )
        }),
    decreases keys.len(),
{
    if keys.len() > 0 {
        lemma_pin_survives(v, k, keys[0], 0);
        let (a, next) = v.dispatch(keys[0]);
        let tail = keys.drop_first();
        lemma_pin_holds_over_run(next, k, tail);
        let (rest, last) = run(next, tail);
        let actions = seq![a] + rest;
        assert forall|i: int|
            0 <= i < keys.len() && keys[i] == Some(k) implies actions[i] == DispatchAction::Deliver(
                v.affinity[k],
            ) by {
            if i > 0 {
                assert(tail[i - 1] == keys[i]);
                assert(actions[i] == rest[i - 1]);
            }
        }
    }
}

/// Law (fragment affinity): the first message with key `k` goes to some
/// worker, and every later message with key `k` in any run of dispatches
/// goes to that same worker.
pub proof fn lemma_fragments_go_to_one_worker(v: DispatcherView, k: Seq<char>, keys: Seq<Option<Seq<char>>>)
    requires
        v.workers.len() > 0,
    ensures
        ({
            let (first, next) = v.dispatch(Some(k));
            let (actions, _) = run(next, keys);
            &&& first is Deliver
            &&& forall|i: int|
                0 <= i < keys.len() && keys[i] == Some(k) ==> actions[i] == first
        }),
{
    lemma_selected_worker_is_connected(v, Some(k));
    let (w, _) = v.select(Some(k));
    let next = v.dispatch(Some(k)).1;
    assert(next.affinity.contains_key(k) && next.affinity[k] == w->0);
    lemma_pin_holds_over_run(next, k, keys);
}

/// Under round robin, the `i`-th of successive keyless messages goes to the
/// worker `i` places after the counter, wrapping around, and the counter
/// advances by one per message.
proof fn lemma_round_robin_positions(v: DispatcherView, count: nat)
    requires
        v.strategy == LoadBalanceStrategy::RoundRobin,
        0 < v.workers.len() <= usize::MAX,
    ensures
        ({
            let n = v.workers.len() as int;
            let (actions, after) = run(v, no_keys(count));
            &&& actions.len() == count
            &&& forall|i: int|
                0 <= i < count ==> #[trigger] actions[i] == DispatchAction::Deliver(
                    v.workers[(v.rr_counter + i) % n],
                )
            &&& after.workers == v.workers
            &&& after.strategy == v.strategy
            &&& count > 0 ==> after.rr_counter == (v.rr_counter + count) % n
        }),
    decreases count,
{
    if count > 0 {
        let n = v.workers.len() as int;
        let next = v.dispatch(None).1;
        assert(no_keys(count).drop_first() =~= no_keys((count - 1) as nat));
        assert(0 <= (v.rr_counter + 1) % n < n);
        assert(next.rr_counter == (v.rr_counter + 1) % n);
        lemma_round_robin_positions(next, (count - 1) as nat);
        let (rest, last) = run(next, no_keys((count - 1) as nat));
        let actions = run(v, no_keys(count)).0;
        assert forall|i: int| 0 <= i < count implies #[trigger] actions[i] == DispatchAction::Deliver(
            v.workers[(v.rr_counter + i) % n],
        ) by {
            if i > 0 {
                assert(actions[i] == rest[i - 1]);
                vstd::arithmetic::div_mod::lemma_add_mod_noop_right(i - 1, v.rr_counter + 1, n);
                assert((next.rr_counter + (i - 1)) % n == (v.rr_counter + i) % n);
            }
        }
        if count > 1 {
            vstd::arithmetic::div_mod::lemma_add_mod_noop_right(count - 1, v.rr_counter + 1, n);
            assert((next.rr_counter + (count - 1)) % n == (v.rr_counter + count) % n);
        }
    }
}

/// Law (balanced distribution): under round robin, with the counter within
/// the worker list, the next `n` keyless messages for `n` connected workers
/// go to each worker exactly once, and the counter is back where it started.
pub proof fn lemma_round_robin_visits_each_worker_once(v: DispatcherView)
    requires
        v.strategy == LoadBalanceStrategy::RoundRobin,
        0 < v.workers.len() <= usize::MAX,
        v.valid(),
        v.rr_counter < v.workers.len(),
    ensures
        ({
            let (actions, after) = run(v, no_keys(v.workers.len()));
            &&& after.rr_counter == v.rr_counter
            &&& forall|w: WorkerId|
                #[trigger] v.workers.contains(w) ==> exists|i: int|
                    0 <= i < actions.len() && actions[i] == DispatchAction::Deliver(w) && forall|j: int|
                        0 <= j < actions.len() && j != i ==> actions[j] != DispatchAction::Deliver(w)
        }),
{
    let n = v.workers.len() as int;
    let rr = v.rr_counter as int;
    let actions = run(v, no_keys(n as nat)).0;
    lemma_round_robin_positions(v, n as nat);
    lemma_mod_below_twice(rr + n, n);
    assert forall|w: WorkerId| #[trigger] v.workers.contains(w) implies exists|i: int|
        0 <= i < actions.len() && actions[i] == DispatchAction::Deliver(w) && forall|j: int|
            0 <= j < actions.len() && j != i ==> actions[j] != DispatchAction::Deliver(w) by {
        let t = choose|t: int| 0 <= t < n && v.workers[t] == w;
        let i = if t >= rr { t - rr } else { t + n - rr };
        lemma_mod_below_twice(rr + i, n);
        assert(actions[i] == DispatchAction::Deliver(v.workers[(rr + i) % n]));
        assert forall|j: int| 0 <= j < actions.len() && j != i implies actions[j] != DispatchAction::Deliver(w) by {
            lemma_mod_below_twice(rr + j, n);
            assert(actions[j] == DispatchAction::Deliver(v.workers[(rr + j) % n]));
        }
    }
}

/// One row of the affinity table.
struct AffinityEntry {
    key: String,
    worker: WorkerId,
}

/// The dispatcher's state: connected workers with their pending counts, the
/// affinity table and the round-robin counter.
pub struct Dispatcher {
    workers: Vec<WorkerId>,
    counts: Vec<usize>,
    pending: Ghost<Map<WorkerId, usize>>,
    entries: Vec<AffinityEntry>,
    affinity: Ghost<Map<Seq<char>, WorkerId>>,
    rr_counter: usize,
    strategy: LoadBalanceStrategy,
    no_consumer_policy: NoConsumerPolicy,
}

impl View for Dispatcher {
    type V = DispatcherView;

    closed spec fn view(&self) -> DispatcherView {
        DispatcherView {
            workers: self.workers@,
            pending: self.pending@,
            affinity: self.affinity@,
            rr_counter: self.rr_counter,
            strategy: self.strategy,
            no_consumer_policy: self.no_consumer_policy,
        }
    }
}

/// No worker occurs twice in `s`.
pub open spec fn no_duplicates(s: Seq<WorkerId>) -> bool {
    forall|i: int, j: int| 0 <= i < j < s.len() ==> s[i] != s[j]
}

/// `counts[i]` is the pending count of worker `workers[i]`, and only
/// connected workers have one.
spec fn counts_match(workers: Seq<WorkerId>, counts: Seq<usize>, pending: Map<WorkerId, usize>) -> bool {
    &&& counts.len() == workers.len()
    &&& forall|i: int|
        0 <= i < workers.len() ==> pending.contains_key(#[trigger] workers[i]) && pending[workers[i]]
            == counts[i]
    &&& forall|w: WorkerId| #[trigger] pending.contains_key(w) ==> workers.contains(w)
}

/// The affinity rows `entries` hold exactly the pins of `m`, one row per key.
spec fn table_matches(entries: Seq<AffinityEntry>, m: Map<Seq<char>, WorkerId>) -> bool {
    &&& forall|i: int, j: int|
        0 <= i < j < entries.len() ==> (#[trigger] entries[i]).key@ != (#[trigger] entries[j]).key@
    &&& forall|i: int|
        0 <= i < entries.len() ==> {
            &&& m.contains_key((#[trigger] entries[i]).key@)
            &&& m[entries[i].key@] == entries[i].worker
        }
    &&& forall|k: Seq<char>|
        #[trigger] m.contains_key(k) ==> exists|i: int| 0 <= i < entries.len() && (#[trigger] entries[i]).key@ == k
    &&& m.dom().finite()
    &&& m.dom().len() == entries.len()
}

impl Dispatcher {
    /// The worker list has no duplicates, the affinity table has one row per
    /// pinned key and agrees with the abstract map, and the round-robin
    /// counter can be incremented.
    pub closed spec fn wf(&self) -> bool {
        &&& no_duplicates(self.workers@)
        &&& counts_match(self.workers@, self.counts@, self.pending@)
        &&& table_matches(self.entries@, self.affinity@)
        &&& self.rr_counter < usize::MAX
    }

    /// A well-formed dispatcher has a valid abstract state.
    pub proof fn lemma_valid(&self)
        requires
            self.wf(),
        ensures
            self@.valid(),
    {
        assert forall|w: WorkerId| #[trigger] self@.pending.contains_key(w) <==> self@.workers.contains(w) by {
            if self@.workers.contains(w) {
                let i = choose|i: int| 0 <= i < self.workers@.len() && self.workers@[i] == w;
                assert(self.pending@.contains_key(self.workers@[i]));
            }
        }
    }

    /// A dispatcher with no workers and an empty affinity table.
    pub fn new(strategy: LoadBalanceStrategy, no_consumer_policy: NoConsumerPolicy) -> (d: Self)
        ensures
            d.wf(),
            d@.workers == Seq::<WorkerId>::empty(),
            d@.pending == Map::<WorkerId, usize>::empty(),
            d@.affinity == Map::<Seq<char>, WorkerId>::empty(),
            d@.rr_counter == 0,
            d@.strategy == strategy,
            d@.no_consumer_policy == no_consumer_policy,
    {
        Dispatcher {
            workers: Vec::new(),
            counts: Vec::new(),
            pending: Ghost(Map::empty()),
            entries: Vec::new(),
            affinity: Ghost(Map::empty()),
            rr_counter: 0,
            strategy,
            no_consumer_policy,
        }
    }

    /// The number of connected workers.
    pub fn worker_count(&self) -> (n: usize)
        ensures
            n == self@.workers.len(),
    {
        self.workers.len()
    }

    /// The number of affinity keys currently pinned to a worker.
    pub fn affinity_groups(&self) -> (n: usize)
        requires
            self.wf(),
        ensures
            n == self@.affinity.dom().len(),
    {
        self.entries.len()
    }

    /// Whether worker `id` is connected.
    pub fn has_worker(&self, id: WorkerId) -> (r: bool)
        ensures
            r == self@.workers.contains(id),
    {
        let mut i: usize = 0;
        while i < self.workers.len()
            invariant
                i <= self.workers@.len(),
                forall|j: int| 0 <= j < i ==> self.workers@[j] != id,
            decreases self.workers@.len() - i,
        {
            if self.workers[i] == id {
                return true;
            }
            i = i + 1;
        }
        false
    }

    /// Worker `id` connects. A worker that is already connected stays where
    /// it is in the list.
    pub fn register(&mut self, id: WorkerId)
        requires
            old(self).wf(),
        ensures
            final(self).wf(),
            final(self)@ == old(self)@.register(id),
    {
        if !self.has_worker(id) {
            let ghost p0 = self.pending@;
            self.workers.push(id);
            self.counts.push(0);
            self.pending = Ghost(p0.insert(id, 0));
            assert(self.workers@.last() == id);
            assert forall|i: int, j: int| 0 <= i < j < self.workers@.len() implies self.workers@[i]
                != self.workers@[j] by {
                if j == self.workers@.len() - 1 {
                    assert(old(self).workers@[i] == self.workers@[i]);
                }
            }
            assert forall|i: int| 0 <= i < self.workers@.len() implies self.pending@.contains_key(
                #[trigger] self.workers@[i],
            ) && self.pending@[self.workers@[i]] == self.counts@[i] by {
                if i < self.workers@.len() - 1 {
                    assert(old(self).workers@[i] == self.workers@[i]);
                    assert(old(self).counts@[i] == self.counts@[i]);
                }
            }
            assert forall|w: WorkerId| #[trigger] self.pending@.contains_key(w) implies self.workers@.contains(w) by {
                if w == id {
                    assert(self.workers@[self.workers@.len() - 1] == w);
                } else {
                    let i = choose|i: int| 0 <= i < old(self).workers@.len() && old(self).workers@[i] == w;
                    assert(self.workers@[i] == w);
                }
            }
        }
    }

    /// Worker `id` disconnects: it is removed from the list and every key
    /// pinned to it is unpinned.
    pub fn unregister(&mut self, id: WorkerId)
        requires
            old(self).wf(),
        ensures
            final(self).wf(),
            final(self)@ == old(self)@.unregister(id),
    {
        self.remove_worker(id);
        self.unpin_worker(id);
    }

    fn remove_worker(&mut self, id: WorkerId)
        requires
            old(self).wf(),
        ensures
            final(self).wf(),
            final(self)@ == (DispatcherView {
                workers: old(self)@.workers.filter(other_than(id)),
                pending: old(self)@.pending.remove(id),
                ..old(self)@
            }),
    {
        broadcast use vstd::seq_lib::group_filter_ensures;

        let ghost s = self.workers@;
        let ghost p0 = self.pending@;
        let ghost pred = other_than(id);
        let mut kept: Vec<WorkerId> = Vec::new();
        let mut kept_counts: Vec<usize> = Vec::new();
        let mut i: usize = 0;
        while i < self.workers.len()
            invariant
                s == self.workers@,
                p0 == self.pending@,
                i <= s.len(),
                kept@ == s.take(i as int).filter(pred),
                kept_counts@.len() == kept@.len(),
                forall|a: int| 0 <= a < kept@.len() ==> kept_counts@[a] == p0[#[trigger] kept@[a]] && kept@[a] != id,
                pred == other_than(id),
                self.wf(),
                no_duplicates(s),
                no_duplicates(kept@),
                forall|a: int| 0 <= a < kept@.len() ==> s.take(i as int).contains(#[trigger] kept@[a]),
            decreases s.len() - i,
        {
            let w = self.workers[i];
            proof {
                reveal(Seq::filter);
                assert(s.take(i + 1).drop_last() =~= s.take(i as int));
                assert(s.take(i + 1).last() == w);
                if w != id {
                    assert(s.take(i + 1).filter(pred) == s.take(i as int).filter(pred).push(w));
                } else {
                    assert(s.take(i + 1).filter(pred) == s.take(i as int).filter(pred));
                }
            }
            if w != id {
                assert forall|a: int| 0 <= a < kept@.len() implies kept@[a] != w by {
                    let t = choose|t: int| 0 <= t < i && s.take(i as int)[t] == kept@[a];
                    assert(s[t] == kept@[a]);
                }
                kept.push(w);
                kept_counts.push(self.counts[i]);
                assert forall|a: int| 0 <= a < kept@.len() implies s.take(i + 1).contains(#[trigger] kept@[a]) by {
                    if a < kept@.len() - 1 {
                        let t = choose|t: int| 0 <= t < i && s.take(i as int)[t] == kept@[a];
                        assert(s.take(i + 1)[t] == kept@[a]);
                    } else {
                        assert(s.take(i + 1)[i as int] == kept@[a]);
                    }
                }
            } else {
                assert forall|a: int| 0 <= a < kept@.len() implies s.take(i + 1).contains(#[trigger] kept@[a]) by {
                    let t = choose|t: int| 0 <= t < i && s.take(i as int)[t] == kept@[a];
                    assert(s.take(i + 1)[t] == kept@[a]);
                }
            }
            i = i + 1;
        }
        assert(s.take(s.len() as int) =~= s);
        self.workers = kept;
        self.counts = kept_counts;
        self.pending = Ghost(p0.remove(id));
        assert forall|w: WorkerId| #[trigger] self.pending@.contains_key(w) implies self.workers@.contains(w) by {
            let t = choose|t: int| 0 <= t < s.len() && s[t] == w;
            assert(pred(s[t]));
        }
    }

    /// Removes every affinity row whose worker is `id`.
    fn unpin_worker(&mut self, id: WorkerId)
        requires
            old(self).wf(),
        ensures
            final(self).wf(),
            final(self)@ == (DispatcherView { affinity: unpinned(old(self)@.affinity, id), ..old(self)@ }),
    {
        let ghost m0 = self.affinity@;
        let ghost e0 = self.entries@;
        let mut rest: Vec<AffinityEntry> = Vec::new();
        std::mem::swap(&mut rest, &mut self.entries);
        self.affinity = Ghost(Map::empty());
        loop
            invariant_except_break
                rest@ == e0.take(rest@.len() as int),
            invariant
                rest@.len() <= e0.len(),
                table_matches(e0, m0),
                table_matches(self.entries@, self.affinity@),
                forall|k: Seq<char>|
                    #[trigger] self.affinity@.contains_key(k) ==> m0.contains_key(k) && m0[k] != id
                        && self.affinity@[k] == m0[k],
                forall|t: int|
                    rest@.len() <= t < e0.len() && m0[(#[trigger] e0[t]).key@] != id ==> self.affinity@.contains_key(
                        e0[t].key@,
                    ),
                forall|a: int, t: int|
                    0 <= a < self.entries@.len() && 0 <= t < rest@.len() ==> (#[trigger] self.entries@[a]).key@
                        != (#[trigger] e0[t]).key@,
                no_duplicates(self.workers@),
                self.rr_counter < usize::MAX,
                self.workers@ == old(self).workers@,
                self.counts@ == old(self).counts@,
                self.pending@ == old(self).pending@,
                counts_match(self.workers@, self.counts@, self.pending@),
                self.rr_counter == old(self).rr_counter,
                self.strategy == old(self).strategy,
                self.no_consumer_policy == old(self).no_consumer_policy,
            ensures
                rest@.len() == 0,
            decreases rest@.len(),
        {
            let ghost r = rest@.len();
            match rest.pop() {
                None => {
                    break;
                },
                Some(e) => {
                    let ghost t = r - 1;
                    assert(e == e0[t]);
                    assert(rest@ =~= e0.take(t));
                    if e.worker != id {
                        let ghost k = e.key@;
                        let ghost prev_entries = self.entries@;
                        let ghost prev_map = self.affinity@;
                        assert(!self.affinity@.contains_key(k));
                        self.affinity = Ghost(self.affinity@.insert(k, e.worker));
                        self.entries.push(e);
                        assert(self.entries@.last() == e0[t]);
                        assert forall|k2: Seq<char>| #[trigger] self.affinity@.contains_key(k2) implies exists|i: int|
                            0 <= i < self.entries@.len() && (#[trigger] self.entries@[i]).key@ == k2 by {
                            if k2 == k {
                                assert(self.entries@[self.entries@.len() - 1].key@ == k2);
                            } else {
                                assert(prev_map.contains_key(k2));
                                let i = choose|i: int| 0 <= i < prev_entries.len() && (#[trigger] prev_entries[i]).key@ == k2;
                                assert(self.entries@[i] == prev_entries[i]);
                            }
                        }
                    }
                },
            }
        }
        assert(self.affinity@ =~= unpinned(m0, id));
    }

    /// The row of the affinity table for `key`, if any.
    fn find_entry(&self, key: &String) -> (r: Option<usize>)
        requires
            self.wf(),
        ensures
            match r {
                Some(i) => i < self.entries@.len() && self.entries@[i as int].key@ == key@
                    && self@.affinity.contains_key(key@),
                None => !self@.affinity.contains_key(key@),
            },
    {
        let mut i: usize = 0;
        while i < self.entries.len()
            invariant
                self.wf(),
                i <= self.entries@.len(),
                forall|j: int| 0 <= j < i ==> (#[trigger] self.entries@[j]).key@ != key@,
            decreases self.entries@.len() - i,
        {
            if self.entries[i].key == *key {
                return Some(i);
            }
            i = i + 1;
        }
        None
    }

    /// Removes row `i` of the affinity table, unpinning its key.
    fn remove_entry(&mut self, i: usize)
        requires
            old(self).wf(),
            i < old(self).entries@.len(),
        ensures
            final(self).wf(),
            final(self)@ == (DispatcherView {
                affinity: old(self)@.affinity.remove(old(self).entries@[i as int].key@),
                ..old(self)@
            }),
    {
        let ghost e0 = self.entries@;
        let ghost m0 = self.affinity@;
        let ghost k = e0[i as int].key@;
        let removed = self.entries.remove(i);
        self.affinity = Ghost(m0.remove(k));
        assert(self.entries@ =~= e0.remove(i as int));
        assert forall|a: int, b: int| 0 <= a < b < self.entries@.len() implies (
        #[trigger] self.entries@[a]).key@ != (#[trigger] self.entries@[b]).key@ by {
            let a0 = if a < i { a } else { a + 1 };
            let b0 = if b < i { b } else { b + 1 };
            assert(self.entries@[a] == e0[a0] && self.entries@[b] == e0[b0]);
        }
        assert forall|a: int| 0 <= a < self.entries@.len() implies {
            &&& self.affinity@.contains_key((#[trigger] self.entries@[a]).key@)
            &&& self.affinity@[self.entries@[a].key@] == self.entries@[a].worker
        } by {
            let a0 = if a < i { a } else { a + 1 };
            assert(self.entries@[a] == e0[a0]);
        }
        assert forall|k2: Seq<char>| #[trigger] self.affinity@.contains_key(k2) implies exists|a: int|
            0 <= a < self.entries@.len() && (#[trigger] self.entries@[a]).key@ == k2 by {
            let a0 = choose|a0: int| 0 <= a0 < e0.len() && (#[trigger] e0[a0]).key@ == k2;
            let a = if a0 < i { a0 } else { a0 - 1 };
            assert(self.entries@[a] == e0[a0]);
        }
    }

    /// Pins `key` to worker `w`; `key` must not be pinned yet.
    fn insert_entry(&mut self, key: String, w: WorkerId)
        requires
            old(self).wf(),
            !old(self)@.affinity.contains_key(key@),
        ensures
            final(self).wf(),
            final(self)@ == (DispatcherView {
                affinity: old(self)@.affinity.insert(key@, w),
                ..old(self)@
            }),
    {
        let ghost e0 = self.entries@;
        let ghost m0 = self.affinity@;
        let ghost k = key@;
        self.entries.push(AffinityEntry { key, worker: w });
        self.affinity = Ghost(m0.insert(k, w));
        assert(self.entries@.last().key@ == k);
        assert forall|k2: Seq<char>| #[trigger] self.affinity@.contains_key(k2) implies exists|a: int|
            0 <= a < self.entries@.len() && (#[trigger] self.entries@[a]).key@ == k2 by {
            if k2 == k {
                assert(self.entries@[self.entries@.len() - 1].key@ == k2);
            } else {
                let a = choose|a: int| 0 <= a < e0.len() && (#[trigger] e0[a]).key@ == k2;
                assert(self.entries@[a] == e0[a]);
            }
        }
    }

    /// The next worker in round-robin order; advances the counter.
    fn next_round_robin(&mut self) -> (w: WorkerId)
        requires
            old(self).wf(),
            old(self)@.workers.len() > 0,
        ensures
            final(self).wf(),
            (w, final(self)@.rr_counter) == old(self)@.round_robin(),
            final(self)@ == (DispatcherView { rr_counter: final(self)@.rr_counter, ..old(self)@ }),
    {
        let n = self.workers.len();
        let w = self.workers[self.rr_counter % n];
        self.rr_counter = (self.rr_counter + 1) % n;
        w
    }

    /// The position of the first worker with the fewest pending messages.
    fn least_pending_position(&self) -> (i: usize)
        requires
            self.wf(),
            self@.workers.len() > 0,
        ensures
            i == least_pending_index(self@.workers, self@.pending),
            i < self@.workers.len(),
    {
        let ghost ws = self.workers@;
        let ghost p = self.pending@;
        let mut best: usize = 0;
        let mut i: usize = 1;
        assert(ws.take(1).len() == 1);
        while i < self.workers.len()
            invariant
                self.wf(),
                ws == self.workers@,
                p == self.pending@,
                1 <= i <= ws.len(),
                best < i,
                best == least_pending_index(ws.take(i as int), p),
            decreases ws.len() - i,
        {
            proof {
                let t = ws.take(i + 1);
                assert(t.drop_last() =~= ws.take(i as int));
                assert(t.last() == ws[i as int]);
                assert(t[best as int] == ws[best as int]);
                assert(p[ws[i as int]] == self.counts@[i as int]);
                assert(p[ws[best as int]] == self.counts@[best as int]);
            }
            if self.counts[i] < self.counts[best] {
                best = i;
            }
            i = i + 1;
        }
        assert(ws.take(ws.len() as int) =~= ws);
        best
    }

    /// The position of worker `id` in the list, if connected.
    fn find_worker(&self, id: WorkerId) -> (r: Option<usize>)
        requires
            self.wf(),
        ensures
            match r {
                Some(i) => i < self@.workers.len() && self@.workers[i as int] == id,
                None => !self@.workers.contains(id),
            },
    {
        let mut i: usize = 0;
        while i < self.workers.len()
            invariant
                i <= self.workers@.len(),
                forall|j: int| 0 <= j < i ==> self.workers@[j] != id,
            decreases self.workers@.len() - i,
        {
            if self.workers[i] == id {
                return Some(i);
            }
            i = i + 1;
        }
        None
    }

    /// Counts one more message sent to worker `w`.
    fn record_sent(&mut self, w: WorkerId)
        requires
            old(self).wf(),
            old(self)@.workers.contains(w),
        ensures
            final(self).wf(),
            final(self)@ == old(self)@.record_sent(w),
    {
        match self.find_worker(w) {
            Some(i) => {
                let ghost p0 = self.pending@;
                let c = self.counts[i];
                let c2 = if c < usize::MAX { c + 1 } else { c };
                self.counts.set(i, c2);
                self.pending = Ghost(p0.insert(w, c2));
                assert forall|j: int| 0 <= j < self.workers@.len() implies self.pending@.contains_key(
                    #[trigger] self.workers@[j],
                ) && self.pending@[self.workers@[j]] == self.counts@[j] by {
                    if j != i {
                        assert(self.workers@[j] != w);
                    }
                }
            },
            None => {},
        }
    }

    /// Worker `id` took one of the messages sent to it.
    pub fn message_taken(&mut self, id: WorkerId)
        requires
            old(self).wf(),
        ensures
            final(self).wf(),
            final(self)@ == old(self)@.record_taken(id),
    {
        proof {
            self.lemma_valid();
        }
        match self.find_worker(id) {
            Some(i) => {
                let ghost p0 = self.pending@;
                let c = self.counts[i];
                if c > 0 {
                    self.counts.set(i, c - 1);
                    self.pending = Ghost(p0.insert(id, (c - 1) as usize));
                    assert forall|j: int| 0 <= j < self.workers@.len() implies self.pending@.contains_key(
                        #[trigger] self.workers@[j],
                    ) && self.pending@[self.workers@[j]] == self.counts@[j] by {
                        if j != i {
                            assert(self.workers@[j] != id);
                        }
                    }
                }
            },
            None => {},
        }
    }

    /// The number of messages sent to worker `id` that it has not taken yet.
    pub fn pending_count(&self, id: WorkerId) -> (r: Option<usize>)
        requires
            self.wf(),
        ensures
            match r {
                Some(n) => self@.pending.contains_key(id) && self@.pending[id] == n,
                None => !self@.pending.contains_key(id),
            },
    {
        proof {
            self.lemma_valid();
        }
        match self.find_worker(id) {
            Some(i) => Some(self.counts[i]),
            None => None,
        }
    }

    /// Chooses the worker for `msg`; see [`DispatcherView::select`].
    pub fn select_worker(&mut self, msg: &Message) -> (r: Option<WorkerId>)
        requires
            old(self).wf(),
        ensures
            final(self).wf(),
            (r, final(self)@) == old(self)@.select(msg.key_view()),
    {
        let n = self.workers.len();
        if n == 0 {
            return None;
        }
        match &msg.affinity_key {
            Some(key) => {
                match self.find_entry(key) {
                    Some(i) => {
                        let w = self.entries[i].worker;
                        if self.has_worker(w) {
                            return Some(w);
                        }
                        self.remove_entry(i);
                    },
                    None => {},
                }
                let w = match self.strategy {
                    LoadBalanceStrategy::RoundRobin => self.next_round_robin(),
                    LoadBalanceStrategy::LeastPending => {
                        let i = self.least_pending_position();
                        self.workers[i]
                    },
                    LoadBalanceStrategy::HashAffinity => {
                        let h = simple_hash(key.as_str());
                        self.workers[h % n]
                    },
                };
                self.insert_entry(key.clone(), w);
                assert(self@.affinity =~= old(self)@.affinity.insert(key@, w));
                Some(w)
            },
            None => match self.strategy {
                LoadBalanceStrategy::RoundRobin => Some(self.next_round_robin()),
                LoadBalanceStrategy::LeastPending => {
                    let i = self.least_pending_position();
                    Some(self.workers[i])
                },
                LoadBalanceStrategy::HashAffinity => {
                    let digits = decimal_bytes(self.rr_counter);
                    let h = hash_bytes(digits.as_slice());
                    let w = self.workers[h % n];
                    self.rr_counter = (self.rr_counter + 1) % n;
                    Some(w)
                },
            },
        }
    }

    /// Decides what to do with a dequeued message; see
    /// [`DispatcherView::dispatch`].
    pub fn dispatch(&mut self, msg: &Message) -> (r: DispatchAction)
        requires
            old(self).wf(),
        ensures
            final(self).wf(),
            (r, final(self)@) == old(self)@.dispatch(msg.key_view()),
    {
        if self.workers.len() == 0 {
            return match self.no_consumer_policy {
                NoConsumerPolicy::Buffer => DispatchAction::Requeue,
                NoConsumerPolicy::Drop => DispatchAction::Drop,
                NoConsumerPolicy::Pause => DispatchAction::PauseAndDrop,
                NoConsumerPolicy::Exit => DispatchAction::Exit,
            };
        }
        proof {
            lemma_selected_worker_is_connected(self@, msg.key_view());
        }
        match self.select_worker(msg) {
            Some(w) => {
                self.record_sent(w);
                DispatchAction::Deliver(w)
            },
            None => DispatchAction::Requeue,
        }
    }
}

} // verus!
