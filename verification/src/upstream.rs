//! The decisions of the upstream reader: what message a line becomes, what
//! happens to it when the queue is full, and how long to wait before
//! reconnecting.
use vstd::prelude::*;
use vstd::utf8::{decode_utf8, encode_utf8_decode_utf8, encode_utf8_valid_utf8, valid_utf8};
use vstd::string::StringSliceAdditionalSpecFns;
use crate::buffers::{bytes_as_slice, bytes_view};
use crate::config::{BackpressurePolicy, MultipartMode};
use crate::message::Message;
use crate::multipart::{
    AisMultipartView, compute_affinity_key, parse_ais_multipart, spec_affinity_key, spec_parse_ais_multipart,
};
use crate::queue::{BoundedQueue, QueueView, lemma_drop_oldest_drops_fewest, total_bytes};

verus! {

/// `std::str::from_utf8`: the bytes read as text when they are valid UTF-8.
#[verifier::external_body]
fn str_from_utf8(b: &[u8]) -> (r: Option<&str>)
    ensures
        match r {
            Some(s) => s.spec_bytes() == b@,
            None => !valid_utf8(b@),
        },
{
    std::str::from_utf8(b).ok()
}

/// The text of a line: its bytes decoded as UTF-8, or nothing when they are
/// not valid UTF-8.
pub open spec fn line_text(b: Seq<u8>) -> Seq<char> {
    if valid_utf8(b) {
        decode_utf8(b)
    } else {
        Seq::empty()
    }
}

/// The affinity key of a line: that of the AIS multipart sentence it holds,
/// if any.
pub open spec fn line_affinity_key(b: Seq<u8>) -> Option<Seq<char>> {
    match spec_parse_ais_multipart(line_text(b)) {
        Some(info) => spec_affinity_key(info),
        None => None,
    }
}

/// The affinity key a message made of line `b` carries in multipart mode
/// `mode`.
pub open spec fn message_key(mode: MultipartMode, b: Seq<u8>) -> Option<Seq<char>> {
    if mode == MultipartMode::Affinity {
        line_affinity_key(b)
    } else {
        None
    }
}

/// Law (multipart modes): only affinity mode keys messages; in line and
/// reassemble modes every message is routed on its own.
pub proof fn lemma_only_affinity_mode_keys(b: Seq<u8>)
    ensures
        message_key(MultipartMode::Line, b) is None,
        message_key(MultipartMode::Reassemble, b) is None,
        message_key(MultipartMode::Affinity, b) == line_affinity_key(b),
{
}

/// Law (fragment affinity): the key a line gets in affinity mode is decided
/// by its AIS header alone: a sentence of more than one fragment with a
/// sequential id is keyed by that id followed by its channel, whichever
/// fragment it is; any other line gets no key.
pub proof fn lemma_line_key_from_header(b: Seq<u8>)
    ensures
        match spec_parse_ais_multipart(line_text(b)) {
            Some(info) => line_affinity_key(b) == (if info.sequential_id.len() > 0
                && info.total_fragments > 1 {
                Some(info.sequential_id + info.channel)
            } else {
                None
            }),
            None => line_affinity_key(b) is None,
        },
{
}

/// Law (fragment affinity): two lines that are fragments of one multipart
/// message (same sequential id and channel, more than one fragment, a
/// sequential id present) get the same key, whatever their fragment
/// numbers.
pub proof fn lemma_fragments_of_one_message_share_key(
    b1: Seq<u8>,
    b2: Seq<u8>,
    i1: AisMultipartView,
    i2: AisMultipartView,
)
    requires
        spec_parse_ais_multipart(line_text(b1)) == Some(i1),
        spec_parse_ais_multipart(line_text(b2)) == Some(i2),
        i1.sequential_id == i2.sequential_id,
        i1.channel == i2.channel,
        i1.sequential_id.len() > 0,
        i1.total_fragments > 1,
        i2.total_fragments > 1,
    ensures
        line_affinity_key(b1) == Some(i1.sequential_id + i1.channel),
        line_affinity_key(b1) == line_affinity_key(b2),
{
    lemma_line_key_from_header(b1);
    lemma_line_key_from_header(b2);
}

/// The message made of a framed line. In affinity mode it carries the
/// line's affinity key; in the other modes it carries none.
pub fn message_from_line(mode: MultipartMode, line: bytes::Bytes) -> (m: Message)
    ensures
        m.data == line,
        m.key_view() == message_key(mode, bytes_view(line)),
{
    let affinity_key = match mode {
        MultipartMode::Affinity => {
            let text: &str = match str_from_utf8(bytes_as_slice(&line)) {
                Some(s) => {
                    proof {
                        encode_utf8_decode_utf8(s@);
                        encode_utf8_valid_utf8(s@);
                    }
                    assert(s@ == line_text(bytes_view(line)));
                    s
                },
                None => {
                    proof {
                        reveal_strlit("");
                    }
                    assert(""@ =~= line_text(bytes_view(line)));
                    ""
                },
            };
            assert(text@ == line_text(bytes_view(line)));
            match parse_ais_multipart(text) {
                Some(info) => compute_affinity_key(&info),
                None => None,
            }
        },
        _ => None,
    };
    Message { data: line, affinity_key }
}

/// What became of a line offered to the queue under a backpressure policy.
pub enum EnqueueOutcome {
    /// The message was added to the queue.
    Queued,
    /// The queue was full and the message was discarded.
    DroppedNewest,
    /// The message was added after this many of the oldest queued messages
    /// were discarded.
    QueuedDroppingOldest(usize),
    /// The message alone exceeds the byte limit and was discarded.
    TooLarge,
    /// The queue is full; the message is handed back to be offered again
    /// once room has been made.
    MustWait(Message),
    /// The queue is full and the policy is to terminate the process.
    MustExit,
}

/// [`EnqueueOutcome`] with the dropped count as a number.
pub enum EnqueueView {
    Queued,
    DroppedNewest,
    QueuedDroppingOldest(nat),
    TooLarge,
    MustWait(Message),
    MustExit,
}

impl View for EnqueueOutcome {
    type V = EnqueueView;

    open spec fn view(&self) -> EnqueueView {
        match self {
            EnqueueOutcome::Queued => EnqueueView::Queued,
            EnqueueOutcome::DroppedNewest => EnqueueView::DroppedNewest,
            EnqueueOutcome::QueuedDroppingOldest(n) => EnqueueView::QueuedDroppingOldest(*n as nat),
            EnqueueOutcome::TooLarge => EnqueueView::TooLarge,
            EnqueueOutcome::MustWait(m) => EnqueueView::MustWait(*m),
            EnqueueOutcome::MustExit => EnqueueView::MustExit,
        }
    }
}

/// What becomes of message `m` offered to queue `q` under `policy`, and the
/// queue afterwards.
pub open spec fn spec_enqueue(policy: BackpressurePolicy, q: QueueView, m: Message) -> (
    EnqueueView,
    QueueView,
) {
    let fits = q.has_room_for(m.size());
    match policy {
        BackpressurePolicy::BlockUpstreamRead => if fits {
            (EnqueueView::Queued, q.with_pushed(m))
        } else {
            (EnqueueView::MustWait(m), q)
        },
        BackpressurePolicy::DropNewest => if fits {
            (EnqueueView::Queued, q.with_pushed(m))
        } else {
            (EnqueueView::DroppedNewest, q)
        },
        BackpressurePolicy::DropOldest => {
            let (n, after) = q.push_drop_oldest(m);
            match n {
                Some(k) => (EnqueueView::QueuedDroppingOldest(k), after),
                None => (EnqueueView::TooLarge, after),
            }
        },
        BackpressurePolicy::Exit => if fits {
            (EnqueueView::Queued, q.with_pushed(m))
        } else {
            (EnqueueView::MustExit, q)
        },
    }
}

/// Law (backpressure): when the queue has room for the message, every
/// policy adds it at the back and drops nothing.
pub proof fn lemma_enqueue_with_room(policy: BackpressurePolicy, q: QueueView, m: Message)
    requires
        q.messages.len() < q.max_messages,
        total_bytes(q.messages) + m.size() <= q.max_bytes,
    ensures
        spec_enqueue(policy, q, m).1.messages == q.messages.push(m),
        spec_enqueue(policy, q, m).0 is Queued || spec_enqueue(policy, q, m).0
            == EnqueueView::QueuedDroppingOldest(0),
{
    assert(q.messages.skip(0) =~= q.messages);
}

/// Law (backpressure): on a full queue, blocking hands the same message back
/// and drop-newest and exit discard it, all leaving the queue as it was;
/// drop-oldest keeps the newest messages in order and adds the new one
/// last, unless it alone exceeds the byte limit.
pub proof fn lemma_enqueue_when_full(policy: BackpressurePolicy, q: QueueView, m: Message)
    requires
        !(q.messages.len() < q.max_messages && total_bytes(q.messages) + m.size() <= q.max_bytes),
    ensures
        policy == BackpressurePolicy::BlockUpstreamRead ==> spec_enqueue(policy, q, m) == (
            EnqueueView::MustWait(m),
            q,
        ),
        policy == BackpressurePolicy::DropNewest ==> spec_enqueue(policy, q, m) == (
            EnqueueView::DroppedNewest,
            q,
        ),
        policy == BackpressurePolicy::Exit ==> spec_enqueue(policy, q, m) == (EnqueueView::MustExit, q),
        policy == BackpressurePolicy::DropOldest && m.size() <= q.max_bytes ==> exists|k: nat|
            k <= q.messages.len() && spec_enqueue(policy, q, m).0 == EnqueueView::QueuedDroppingOldest(k)
                && spec_enqueue(policy, q, m).1.messages == q.messages.skip(k as int).push(m),
        policy == BackpressurePolicy::DropOldest && m.size() > q.max_bytes ==> spec_enqueue(policy, q, m)
            == (EnqueueView::TooLarge, q),
{
    if policy == BackpressurePolicy::DropOldest && m.size() <= q.max_bytes {
        lemma_drop_oldest_drops_fewest(q, m);
        let k = q.push_drop_oldest(m).0->0;
        assert(spec_enqueue(policy, q, m).0 == EnqueueView::QueuedDroppingOldest(k));
    }
}

/// Offers `msg` to the queue under `policy`.
///
/// Blocking hands the message back while the queue is full; drop-newest
/// discards it; drop-oldest discards queued messages, oldest first, until it
/// fits; exit asks for termination.
pub fn enqueue(policy: BackpressurePolicy, queue: &mut BoundedQueue, msg: Message) -> (r:
    EnqueueOutcome)
    requires
        old(queue).wf(),
    ensures
        final(queue).wf(),
        (r@, final(queue)@) == spec_enqueue(policy, old(queue)@, msg),
{
    match policy {
        BackpressurePolicy::BlockUpstreamRead => match queue.push(msg) {
            Ok(()) => EnqueueOutcome::Queued,
            Err(m) => EnqueueOutcome::MustWait(m),
        },
        BackpressurePolicy::DropNewest => if queue.try_push(msg) {
            EnqueueOutcome::Queued
        } else {
            EnqueueOutcome::DroppedNewest
        },
        BackpressurePolicy::DropOldest => match queue.push_drop_oldest(msg) {
            Some(n) => EnqueueOutcome::QueuedDroppingOldest(n),
            None => EnqueueOutcome::TooLarge,
        },
        BackpressurePolicy::Exit => if queue.try_push(msg) {
            EnqueueOutcome::Queued
        } else {
            EnqueueOutcome::MustExit
        },
    }
}

/// Twice `delay`, but no more than `max`.
pub open spec fn doubled_delay(delay: int, max: int) -> int {
    if 2 * delay < max {
        2 * delay
    } else {
        max
    }
}

/// Law (reconnect backoff): the next delay is twice the current one when
/// that stays below the maximum, and the maximum otherwise; it never
/// exceeds either.
pub proof fn lemma_doubled_delay(delay: int, max: int)
    ensures
        doubled_delay(delay, max) <= max,
        doubled_delay(delay, max) <= 2 * delay,
        2 * delay < max ==> doubled_delay(delay, max) == 2 * delay,
        2 * delay >= max ==> doubled_delay(delay, max) == max,
{
}

/// The delay before reconnection attempt `attempt`: `min` at first, then
/// doubled after each failure, up to `max`.
pub open spec fn backoff_delay(min: int, max: int, attempt: nat) -> int
    decreases attempt,
{
    if attempt == 0 {
        min
    } else {
        doubled_delay(backoff_delay(min, max, (attempt - 1) as nat), max)
    }
}

/// Law (reconnect backoff): after the first attempt, the delay never exceeds
/// the maximum; and when the minimum does not exceed the maximum, the delay
/// never shrinks and always stays within both bounds.
pub proof fn lemma_backoff_bounded(min: int, max: int, attempt: nat)
    requires
        0 <= min,
    ensures
        attempt > 0 ==> backoff_delay(min, max, attempt) <= max,
        min <= max ==> min <= backoff_delay(min, max, attempt) <= max,
        min <= max ==> backoff_delay(min, max, attempt) <= backoff_delay(min, max, attempt + 1),
    decreases attempt,
{
    if attempt > 0 {
        lemma_backoff_bounded(min, max, (attempt - 1) as nat);
    }
}

/// The delay before the next reconnection attempt: twice the current one,
/// but no more than `max_ms`.
pub fn next_reconnect_delay(delay_ms: u64, max_ms: u64) -> (r: u64)
    ensures
        r == doubled_delay(delay_ms as int, max_ms as int),
{
    match delay_ms.checked_mul(2) {
        Some(d) => if d < max_ms {
            d
        } else {
            max_ms
        },
        None => max_ms,
    }
}

/// The reconnection delay of the upstream reader: the minimum after a
/// successful connection, doubled after each failed attempt up to the
/// maximum.
pub struct ReconnectBackoff {
    delay_ms: u64,
    min_ms: u64,
    max_ms: u64,
}

impl ReconnectBackoff {
    pub closed spec fn spec_delay(&self) -> u64 {
        self.delay_ms
    }

    pub closed spec fn spec_min(&self) -> u64 {
        self.min_ms
    }

    pub closed spec fn spec_max(&self) -> u64 {
        self.max_ms
    }

    /// Starts at the minimum delay.
    pub fn new(min_ms: u64, max_ms: u64) -> (b: Self)
        ensures
            b.spec_delay() == min_ms,
            b.spec_min() == min_ms,
            b.spec_max() == max_ms,
    {
        ReconnectBackoff { delay_ms: min_ms, min_ms, max_ms }
    }

    /// The delay to wait before the next attempt.
    pub fn delay_ms(&self) -> (d: u64)
        ensures
            d == self.spec_delay(),
    {
        self.delay_ms
    }

    /// A connection succeeded: the next wait is the minimum again.
    pub fn on_connected(&mut self)
        ensures
            final(self).spec_delay() == old(self).spec_min(),
            final(self).spec_min() == old(self).spec_min(),
            final(self).spec_max() == old(self).spec_max(),
    {
        self.delay_ms = self.min_ms;
    }

    /// An attempt failed: returns the delay to wait now, and doubles the
    /// next one, up to the maximum.
    pub fn on_retry(&mut self) -> (wait: u64)
        ensures
            wait == old(self).spec_delay(),
            final(self).spec_delay() == doubled_delay(old(self).spec_delay() as int, old(self).spec_max() as int),
            final(self).spec_min() == old(self).spec_min(),
            final(self).spec_max() == old(self).spec_max(),
    {
        let wait = self.delay_ms;
        self.delay_ms = next_reconnect_delay(self.delay_ms, self.max_ms);
        wait
    }
}

/// Law (reconnect backoff): after a successful connection and `k` failed
/// attempts, the next wait is `backoff_delay(min, max, k)`.
pub proof fn lemma_backoff_after_failures(b: ReconnectBackoff, k: nat)
    requires
        b.spec_delay() == backoff_delay(b.spec_min() as int, b.spec_max() as int, k),
    ensures
        doubled_delay(b.spec_delay() as int, b.spec_max() as int) == backoff_delay(
            b.spec_min() as int,
            b.spec_max() as int,
            k + 1,
        ),
{
}

} // verus!
