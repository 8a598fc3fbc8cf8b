//! The bounded FIFO queue between the upstream reader and the dispatcher.
use std::collections::VecDeque;
use vstd::prelude::*;
use crate::message::Message;

verus! {

/// The total number of bytes carried by the messages of `s`.
pub open spec fn total_bytes(s: Seq<Message>) -> nat
    decreases s.len(),
{
    if s.len() == 0 {
        0
    } else {
        total_bytes(s.drop_last()) + s.last().size()
    }
}

/// The abstract state of a [`BoundedQueue`]: the messages, oldest first, and
/// the two limits it was made with.
pub struct QueueView {
    pub messages: Seq<Message>,
    pub max_messages: usize,
    pub max_bytes: usize,
}

impl QueueView {
    /// The limits hold. The message limit may be exceeded by a single
    /// message, which only happens when the limit is zero and a message was
    /// forced in by dropping older ones.
    pub open spec fn within_limits(self) -> bool {
        &&& total_bytes(self.messages) <= self.max_bytes
        &&& (self.messages.len() <= self.max_messages || self.messages.len() <= 1)
    }

    /// Whether a message of `size` bytes can be added without exceeding a
    /// limit.
    pub open spec fn has_room_for(self, size: nat) -> bool {
        &&& self.messages.len() < self.max_messages
        &&& total_bytes(self.messages) + size <= self.max_bytes
    }

    pub open spec fn with_pushed(self, m: Message) -> QueueView {
        QueueView { messages: self.messages.push(m), ..self }
    }

    pub open spec fn with_messages(self, messages: Seq<Message>) -> QueueView {
        QueueView { messages, ..self }
    }

    /// The outcome of [`BoundedQueue::try_push`]: whether `m` was added, and
    /// the queue afterwards.
    pub open spec fn try_push(self, m: Message) -> (bool, QueueView) {
        if self.has_room_for(m.size()) {
            (true, self.with_pushed(m))
        } else {
            (false, self)
        }
    }

    /// The outcome of [`BoundedQueue::push_drop_oldest`]: `None` when `m`
    /// alone exceeds the byte limit (the queue is unchanged), otherwise the
    /// number of oldest messages dropped to make room, and the queue
    /// afterwards.
    pub open spec fn push_drop_oldest(self, m: Message) -> (Option<nat>, QueueView) {
        if m.size() > self.max_bytes {
            (None, self)
        } else {
            let n = drops_needed(self.messages, m.size(), self.max_messages, self.max_bytes);
            (Some(n), self.with_messages(self.messages.skip(n as int).push(m)))
        }
    }

    /// The outcome of [`BoundedQueue::pop`]: the oldest message, if any, and
    /// the queue afterwards.
    pub open spec fn pop(self) -> (Option<Message>, QueueView) {
        if self.messages.len() == 0 {
            (None, self)
        } else {
            (Some(self.messages[0]), self.with_messages(self.messages.drop_first()))
        }
    }
}

/// How many of the oldest messages of `s` must go before a message of
/// `size` bytes fits, or before `s` is empty.
pub open spec fn drops_needed(s: Seq<Message>, size: nat, max_messages: usize, max_bytes: usize) -> nat
    decreases s.len(),
{
    if s.len() == 0 || (s.len() < max_messages && total_bytes(s) + size <= max_bytes) {
        0
    } else {
        1 + drops_needed(s.drop_first(), size, max_messages, max_bytes)
    }
}

/// Removing the oldest message removes its bytes from the total.
pub proof fn lemma_total_bytes_drop_first(s: Seq<Message>)
    requires
        s.len() > 0,
    ensures
        total_bytes(s) == s[0].size() + total_bytes(s.drop_first()),
    decreases s.len(),
{
    if s.len() == 1 {
        assert(s.drop_last().len() == 0);
        assert(s.drop_first().len() == 0);
        assert(total_bytes(s.drop_last()) == 0);
        assert(total_bytes(s.drop_first()) == 0);
        assert(s.last() == s[0]);
    } else {
        lemma_total_bytes_drop_first(s.drop_last());
        assert(s.drop_last().drop_first() =~= s.drop_first().drop_last());
        assert(s.drop_first().last() == s.last());
        assert(s.drop_last()[0] == s[0]);
        assert(total_bytes(s.drop_first()) == total_bytes(s.drop_first().drop_last()) + s.drop_first().last().size());
    }
}

/// `drops_needed` never exceeds the number of messages.
proof fn lemma_drops_needed_bounded(s: Seq<Message>, size: nat, max_messages: usize, max_bytes: usize)
    ensures
        drops_needed(s, size, max_messages, max_bytes) <= s.len(),
    decreases s.len(),
{
    if s.len() > 0 {
        lemma_drops_needed_bounded(s.drop_first(), size, max_messages, max_bytes);
    }
}

/// After dropping `drops_needed` of the oldest messages, either nothing is
/// left or a message of `size` bytes fits.
proof fn lemma_drops_needed_makes_room(s: Seq<Message>, size: nat, max_messages: usize, max_bytes: usize)
    ensures
        ({
            let rest = s.skip(drops_needed(s, size, max_messages, max_bytes) as int);
            rest.len() == 0 || (rest.len() < max_messages && total_bytes(rest) + size <= max_bytes)
        }),
    decreases s.len(),
{
    lemma_drops_needed_bounded(s, size, max_messages, max_bytes);
    if s.len() == 0 || (s.len() < max_messages && total_bytes(s) + size <= max_bytes) {
        assert(s.skip(0) =~= s);
    } else {
        lemma_drops_needed_makes_room(s.drop_first(), size, max_messages, max_bytes);
        let n = drops_needed(s.drop_first(), size, max_messages, max_bytes);
        lemma_drops_needed_bounded(s.drop_first(), size, max_messages, max_bytes);
        assert(s.skip(n + 1 as int) =~= s.drop_first().skip(n as int));
    }
}

/// Law: no operation takes a queue beyond its limits. The byte limit always
/// holds; the message limit holds except that drop-oldest on a queue whose
/// message limit is zero leaves the one message it was given.
pub proof fn lemma_operations_keep_limits(q: QueueView, m: Message)
    requires
        q.within_limits(),
    ensures
        q.try_push(m).1.within_limits(),
        q.push_drop_oldest(m).1.within_limits(),
        q.pop().1.within_limits(),
        q.max_messages > 0 ==> q.push_drop_oldest(m).1.messages.len() <= q.max_messages,
{
    let s = q.messages;
    assert(s.push(m).drop_last() =~= s);
    if m.size() <= q.max_bytes {
        let n = drops_needed(s, m.size(), q.max_messages, q.max_bytes);
        lemma_drops_needed_makes_room(s, m.size(), q.max_messages, q.max_bytes);
        let rest = s.skip(n as int);
        assert(rest.push(m).drop_last() =~= rest);
        if rest.len() == 0 {
            assert(total_bytes(rest) == 0);
        }
    }
    if s.len() > 0 {
        lemma_total_bytes_drop_first(s);
    }
}

/// Law: a message pushed onto an empty queue with room for it is the
/// message the next pop returns, and that pop leaves the queue empty again.
pub proof fn lemma_push_then_pop_round_trip(q: QueueView, m: Message)
    requires
        q.messages.len() == 0,
        q.has_room_for(m.size()),
    ensures
        q.try_push(m).0,
        q.try_push(m).1.pop() == (Some(m), q),
{
    assert(q.messages.push(m).drop_first() =~= q.messages);
}

/// Law (first in, first out): pushing a message onto a non-empty queue does
/// not change which message the next pop returns, and popping then pushing
/// gives the same queue as pushing then popping.
pub proof fn lemma_push_does_not_overtake(q: QueueView, m: Message)
    requires
        q.messages.len() > 0,
        q.has_room_for(m.size()),
    ensures
        q.try_push(m).1.pop().0 == q.pop().0,
        q.try_push(m).1.pop().1 == q.pop().1.with_pushed(m),
{
    assert(q.messages.push(m).drop_first() =~= q.messages.drop_first().push(m));
}

/// Law: drop-oldest discards only from the front. What it keeps of the old
/// messages is a suffix of them, in order, and the new message comes last.
pub proof fn lemma_drop_oldest_keeps_newest(q: QueueView, m: Message)
    requires
        m.size() <= q.max_bytes,
    ensures
        ({
            let (n, after) = q.push_drop_oldest(m);
            &&& n is Some
            &&& n->0 <= q.messages.len()
            &&& after.messages == q.messages.subrange(n->0 as int, q.messages.len() as int).push(m)
        }),
{
    lemma_drops_needed_bounded(q.messages, m.size(), q.max_messages, q.max_bytes);
}

/// The bytes of two runs of messages add up.
pub proof fn lemma_total_bytes_concat(a: Seq<Message>, b: Seq<Message>)
    ensures
        total_bytes(a + b) == total_bytes(a) + total_bytes(b),
    decreases b.len(),
{
    if b.len() == 0 {
        assert(a + b =~= a);
    } else {
        lemma_total_bytes_concat(a, b.drop_last());
        assert((a + b).drop_last() =~= a + b.drop_last());
        assert((a + b).last() == b.last());
    }
}

/// The outcomes of offering the messages `ms`, in order, with `try_push`,
/// and the queue afterwards.
pub open spec fn push_all(q: QueueView, ms: Seq<Message>) -> (Seq<bool>, QueueView)
    decreases ms.len(),
{
    if ms.len() == 0 {
        (Seq::empty(), q)
    } else {
        let (ok, next) = q.try_push(ms[0]);
        let (oks, last) = push_all(next, ms.drop_first());
        (seq![ok] + oks, last)
    }
}

/// The messages returned by `k` successive pops, and the queue afterwards.
pub open spec fn pop_n(q: QueueView, k: nat) -> (Seq<Option<Message>>, QueueView)
    decreases k,
{
    if k == 0 {
        (Seq::empty(), q)
    } else {
        let (m, next) = q.pop();
        let (ms, last) = pop_n(next, (k - 1) as nat);
        (seq![m] + ms, last)
    }
}

/// Pushing messages that all fit appends them, in order.
proof fn lemma_push_all_appends(q: QueueView, ms: Seq<Message>)
    requires
        q.messages.len() + ms.len() <= q.max_messages,
        total_bytes(q.messages) + total_bytes(ms) <= q.max_bytes,
    ensures
        push_all(q, ms).0 == Seq::new(ms.len(), |i: int| true),
        push_all(q, ms).1 == q.with_messages(q.messages + ms),
    decreases ms.len(),
{
    if ms.len() == 0 {
        assert(q.messages + ms =~= q.messages);
        assert(push_all(q, ms).0 =~= Seq::new(ms.len(), |i: int| true));
    } else {
        let m = ms[0];
        let rest = ms.drop_first();
        assert(ms =~= seq![m] + rest);
        lemma_total_bytes_concat(seq![m], rest);
        assert(seq![m].drop_last() =~= Seq::<Message>::empty());
        assert(total_bytes(Seq::<Message>::empty()) == 0);
        assert(seq![m].last() == m);
        assert(total_bytes(seq![m]) == m.size());
        let next = q.with_pushed(m);
        lemma_total_bytes_concat(q.messages, seq![m]);
        assert(q.messages + seq![m] =~= q.messages.push(m));
        lemma_push_all_appends(next, rest);
        assert(next.messages + rest =~= q.messages + ms);
        assert(push_all(q, ms).0 =~= Seq::new(ms.len(), |i: int| true));
    }
}

/// `k` pops take the first `k` messages, oldest first.
proof fn lemma_pop_n_takes_front(q: QueueView, k: nat)
    requires
        k <= q.messages.len(),
    ensures
        pop_n(q, k).0 == Seq::new(k, |i: int| Some(q.messages[i])),
        pop_n(q, k).1 == q.with_messages(q.messages.skip(k as int)),
    decreases k,
{
    if k == 0 {
        assert(q.messages.skip(0) =~= q.messages);
        assert(pop_n(q, k).0 =~= Seq::new(k, |i: int| Some(q.messages[i])));
    } else {
        let next = q.pop().1;
        lemma_pop_n_takes_front(next, (k - 1) as nat);
        assert(next.messages.skip(k - 1) =~= q.messages.skip(k as int));
        assert(pop_n(q, k).0 =~= Seq::new(k, |i: int| Some(q.messages[i])));
    }
}

/// Law (first in, first out): messages pushed with room onto an empty
/// queue are all accepted, come back from as many pops in the order they
/// were pushed, and leave the queue empty, holding no bytes.
pub proof fn lemma_fifo(q: QueueView, ms: Seq<Message>)
    requires
        q.messages.len() == 0,
        ms.len() <= q.max_messages,
        total_bytes(ms) <= q.max_bytes,
    ensures
        ({
            let (oks, full) = push_all(q, ms);
            let (out, emptied) = pop_n(full, ms.len());
            &&& forall|i: int| 0 <= i < ms.len() ==> #[trigger] oks[i]
            &&& out == Seq::new(ms.len(), |i: int| Some(ms[i]))
            &&& emptied.messages.len() == 0
            &&& total_bytes(emptied.messages) == 0
        }),
{
    lemma_push_all_appends(q, ms);
    assert(q.messages + ms =~= ms);
    let full = push_all(q, ms).1;
    lemma_pop_n_takes_front(full, ms.len());
    assert(full.messages.skip(ms.len() as int).len() == 0);
    assert(pop_n(full, ms.len()).0 =~= Seq::new(ms.len(), |i: int| Some(ms[i])));
}

/// Law (empty queue): popping an empty queue returns nothing and changes
/// nothing.
pub proof fn lemma_pop_empty(q: QueueView)
    requires
        q.messages.len() == 0,
    ensures
        q.pop() == (None::<Message>, q),
{
}

/// Law (room for waiting producers): a pop that returns a message removes
/// exactly its bytes and one message, so every message that fitted before
/// still fits, and one as large as the popped message fits where the queue
/// was full only by bytes.
pub proof fn lemma_pop_makes_room(q: QueueView, size: nat)
    requires
        q.messages.len() > 0,
    ensures
        ({
            let (m, after) = q.pop();
            &&& m == Some(q.messages[0])
            &&& after.messages.len() + 1 == q.messages.len()
            &&& total_bytes(after.messages) + q.messages[0].size() == total_bytes(q.messages)
            &&& q.has_room_for(size) ==> after.has_room_for(size)
            &&& (q.messages.len() <= q.max_messages && total_bytes(q.messages) + size
                <= q.max_bytes + q.messages[0].size()) ==> after.has_room_for(size)
        }),
{
    lemma_total_bytes_drop_first(q.messages);
}

/// Law (admission): `try_push` accepts a message exactly when the queue
/// holds fewer messages than its limit and the message's bytes fit under the
/// byte limit; an accepted message goes to the back, a refused one leaves the
/// queue as it was.
pub proof fn lemma_try_push_admits_exactly_what_fits(q: QueueView, m: Message)
    ensures
        q.try_push(m).0 <==> (q.messages.len() < q.max_messages && total_bytes(q.messages) + m.size()
            <= q.max_bytes),
        q.try_push(m).0 ==> q.try_push(m).1.messages == q.messages.push(m),
        !q.try_push(m).0 ==> q.try_push(m).1 == q,
        q.try_push(m).1.max_messages == q.max_messages,
        q.try_push(m).1.max_bytes == q.max_bytes,
{
}

/// Law (drop-oldest): a message no larger than the byte limit is always
/// added, at the back, after dropping the fewest oldest messages that makes
/// it fit: after dropping fewer, messages would remain and it would not fit.
/// A larger message is refused and the queue is left as it was.
pub proof fn lemma_drop_oldest_drops_fewest(q: QueueView, m: Message)
    ensures
        m.size() > q.max_bytes ==> q.push_drop_oldest(m) == (None::<nat>, q),
        m.size() <= q.max_bytes ==> ({
            let n = q.push_drop_oldest(m).0->0;
            let kept = q.messages.skip(n as int);
            &&& q.push_drop_oldest(m).0 is Some
            &&& n <= q.messages.len()
            &&& q.push_drop_oldest(m).1.messages == kept.push(m)
            &&& (kept.len() == 0 || (kept.len() < q.max_messages && total_bytes(kept) + m.size()
                <= q.max_bytes))
            &&& forall|k: int|
                0 <= k < n ==> q.messages.skip(k).len() > 0 && !(q.messages.skip(k).len()
                    < q.max_messages && total_bytes(#[trigger] q.messages.skip(k)) + m.size()
                    <= q.max_bytes)
        }),
{
    if m.size() <= q.max_bytes {
        lemma_drops_needed_makes_room(q.messages, m.size(), q.max_messages, q.max_bytes);
        lemma_drops_needed_bounded(q.messages, m.size(), q.max_messages, q.max_bytes);
        lemma_drops_needed_minimal(q.messages, m.size(), q.max_messages, q.max_bytes);
    }
}

/// Before `drops_needed` messages are gone, messages remain and the new one
/// does not fit.
proof fn lemma_drops_needed_minimal(s: Seq<Message>, size: nat, max_messages: usize, max_bytes: usize)
    ensures
        forall|k: int|
            0 <= k < drops_needed(s, size, max_messages, max_bytes) ==> s.skip(k).len() > 0 && !(
            s.skip(k).len() < max_messages && total_bytes(#[trigger] s.skip(k)) + size <= max_bytes),
    decreases s.len(),
{
    if s.len() > 0 && !(s.len() < max_messages && total_bytes(s) + size <= max_bytes) {
        let t = s.drop_first();
        lemma_drops_needed_minimal(t, size, max_messages, max_bytes);
        lemma_drops_needed_bounded(t, size, max_messages, max_bytes);
        assert forall|k: int|
            0 <= k < drops_needed(s, size, max_messages, max_bytes) implies s.skip(k).len() > 0 && !(
            s.skip(k).len() < max_messages && total_bytes(#[trigger] s.skip(k)) + size <= max_bytes) by {
            if k == 0 {
                assert(s.skip(0) =~= s);
            } else {
                assert(s.skip(k) =~= t.skip(k - 1));
            }
        }
    }
}

/// A FIFO queue of messages, bounded both in number of messages and in
/// total bytes.
pub struct BoundedQueue {
    inner: VecDeque<Message>,
    current_bytes: usize,
    max_messages: usize,
    max_bytes: usize,
}

impl View for BoundedQueue {
    type V = QueueView;

    closed spec fn view(&self) -> QueueView {
        QueueView {
            messages: self.inner@,
            max_messages: self.max_messages,
            max_bytes: self.max_bytes,
        }
    }
}

impl BoundedQueue {
    /// The queue's internal bookkeeping is consistent and its limits hold.
    pub closed spec fn wf(&self) -> bool {
        &&& self.current_bytes == total_bytes(self.inner@)
        &&& self@.within_limits()
    }

    /// An empty queue with the given limits.
    pub fn new(max_messages: usize, max_bytes: usize) -> (q: Self)
        ensures
            q.wf(),
            q@.messages == Seq::<Message>::empty(),
            q@.max_messages == max_messages,
            q@.max_bytes == max_bytes,
    {
        let q = BoundedQueue { inner: VecDeque::new(), current_bytes: 0, max_messages, max_bytes };
        assert(q.inner@.len() == 0);
        q
    }

    /// Whether a message of `size` bytes can be added now.
    pub fn has_room_for(&self, size: usize) -> (r: bool)
        requires
            self.wf(),
        ensures
            r == self@.has_room_for(size as nat),
    {
        self.inner.len() < self.max_messages && size <= self.max_bytes && self.current_bytes
            <= self.max_bytes - size
    }

    /// Adds `msg` at the back if there is room; otherwise hands it back
    /// unchanged, for the caller to retry once room has been made.
    pub fn push(&mut self, msg: Message) -> (r: Result<(), Message>)
        requires
            old(self).wf(),
        ensures
            final(self).wf(),
            match r {
                Ok(()) => old(self)@.try_push(msg) == (true, final(self)@),
                Err(m) => m == msg && !old(self)@.has_room_for(msg.size()) && final(self)@ == old(
                    self,
                )@,
            },
    {
        let size = msg.data_len();
        if self.has_room_for(size) {
            self.inner.push_back(msg);
            self.current_bytes = self.current_bytes + size;
            proof {
                assert(self.inner@.drop_last() =~= old(self).inner@);
            }
            Ok(())
        } else {
            Err(msg)
        }
    }

    /// Adds `msg` at the back if there is room, and reports whether it did;
    /// a message that does not fit is discarded.
    pub fn try_push(&mut self, msg: Message) -> (r: bool)
        requires
            old(self).wf(),
        ensures
            final(self).wf(),
            (r, final(self)@) == old(self)@.try_push(msg),
    {
        match self.push(msg) {
            Ok(()) => true,
            Err(_) => false,
        }
    }

    /// Adds `msg` at the back, first dropping as many of the oldest messages
    /// as it takes for it to fit. Returns the number dropped, or `None`
    /// (and leaves the queue as it was) when `msg` alone exceeds the byte
    /// limit.
    pub fn push_drop_oldest(&mut self, msg: Message) -> (r: Option<usize>)
        requires
            old(self).wf(),
        ensures
            final(self).wf(),
            ({
                let (n, after) = old(self)@.push_drop_oldest(msg);
                &&& final(self)@ == after
                &&& match r {
                    Some(k) => n == Some(k as nat),
                    None => n is None,
                }
            }),
    {
        let size = msg.data_len();
        if size > self.max_bytes {
            return None;
        }
        let ghost s0 = self.inner@;
        let len0 = self.inner.len();
        let mut dropped: usize = 0;
        proof {
            lemma_drops_needed_bounded(s0, size as nat, self.max_messages, self.max_bytes);
        }
        while self.inner.len() > 0 && (self.inner.len() >= self.max_messages || self.current_bytes
            > self.max_bytes - size)
            invariant
                size == msg.size(),
                size <= self.max_bytes,
                self.max_messages == old(self).max_messages,
                self.max_bytes == old(self).max_bytes,
                s0 == old(self).inner@,
                self.current_bytes == total_bytes(self.inner@),
                total_bytes(self.inner@) <= self.max_bytes,
                dropped <= s0.len(),
                s0.len() == len0,
                self.inner@ == s0.skip(dropped as int),
                drops_needed(s0, size as nat, self.max_messages, self.max_bytes) == dropped
                    + drops_needed(self.inner@, size as nat, self.max_messages, self.max_bytes),
            decreases self.inner@.len(),
        {
            let ghost before = self.inner@;
            proof {
                lemma_total_bytes_drop_first(before);
            }
            let oldest = self.inner.pop_front();
            match oldest {
                Some(m) => {
                    let n = m.data_len();
                    self.current_bytes = self.current_bytes - n;
                },
                None => {},
            }
            assert(self.inner@ =~= before.drop_first());
            assert(s0.skip(dropped + 1) =~= before.drop_first());
            dropped = dropped + 1;
        }
        let ghost kept = self.inner@;
        assert(drops_needed(kept, size as nat, self.max_messages, self.max_bytes) == 0);
        self.inner.push_back(msg);
        self.current_bytes = self.current_bytes + size;
        proof {
            assert(self.inner@.drop_last() =~= kept);
        }
        Some(dropped)
    }

    /// Removes and returns the oldest message, if any.
    pub fn pop(&mut self) -> (r: Option<Message>)
        requires
            old(self).wf(),
        ensures
            final(self).wf(),
            (r, final(self)@) == old(self)@.pop(),
    {
        proof {
            if self.inner@.len() > 0 {
                lemma_total_bytes_drop_first(self.inner@);
            }
        }
        let r = self.inner.pop_front();
        match &r {
            Some(m) => {
                let n = m.data_len();
                self.current_bytes = self.current_bytes - n;
                assert(self.inner@ =~= old(self).inner@.drop_first());
            },
            None => {},
        }
        r
    }

    /// The number of queued messages.
    pub fn len(&self) -> (n: usize)
        ensures
            n == self@.messages.len(),
    {
        self.inner.len()
    }

    /// Whether no message is queued.
    pub fn is_empty(&self) -> (r: bool)
        ensures
            r == (self@.messages.len() == 0),
    {
        self.inner.len() == 0
    }

    /// The number of bytes carried by the queued messages.
    pub fn current_bytes(&self) -> (n: usize)
        requires
            self.wf(),
        ensures
            n == total_bytes(self@.messages),
            n <= self@.max_bytes,
    {
        self.current_bytes
    }

    /// A well-formed queue is within its limits.
    pub proof fn lemma_within_limits(&self)
        requires
            self.wf(),
        ensures
            self@.within_limits(),
            self.current_bytes_spec() == total_bytes(self@.messages),
    {
    }

    /// The byte count the queue keeps.
    pub closed spec fn current_bytes_spec(&self) -> usize {
        self.current_bytes
    }
}

} // verus!
