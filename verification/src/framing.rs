//! Line framing of the upstream byte stream.
use vstd::prelude::*;
use crate::buffers::{
    bytes_mut_view, bytes_view, bytes_mut_as_slice, bytes_mut_split_to, bytes_mut_clear,
    bytes_mut_freeze,
};

verus! {

/// The newline byte that ends every frame.
pub const NEWLINE: u8 = 10u8;

/// Index of the first newline in `s`, if any.
pub open spec fn first_newline(s: Seq<u8>) -> Option<int>
    decreases s.len(),
{
    if s.len() == 0 {
        None
    } else if s[0] == NEWLINE {
        Some(0)
    } else {
        match first_newline(s.drop_first()) {
            Some(p) => Some(p + 1),
            None => None,
        }
    }
}

/// `s` holds no newline.
pub open spec fn no_newline(s: Seq<u8>) -> bool {
    forall|j: int| 0 <= j < s.len() ==> s[j] != NEWLINE
}

/// A complete line: it ends in its only newline.
pub open spec fn is_complete_line(line: Seq<u8>) -> bool {
    line.len() > 0 && line.last() == NEWLINE && no_newline(line.drop_last())
}

/// `first_newline` finds the earliest newline, and finds none only when
/// there is none.
proof fn lemma_first_newline(s: Seq<u8>)
    ensures
        match first_newline(s) {
            Some(p) => 0 <= p < s.len() && s[p] == NEWLINE && forall|j: int| 0 <= j < p ==> s[j] != NEWLINE,
            None => no_newline(s),
        },
    decreases s.len(),
{
    if s.len() > 0 && s[0] != NEWLINE {
        let t = s.drop_first();
        lemma_first_newline(t);
        match first_newline(t) {
            Some(q) => {
                assert(s[q + 1] == t[q]);
                assert forall|j: int| 0 <= j < q + 1 implies s[j] != NEWLINE by {
                    if j > 0 {
                        assert(s[j] == t[j - 1]);
                    }
                }
            },
            None => {
                assert forall|j: int| 0 <= j < s.len() implies s[j] != NEWLINE by {
                    if j > 0 {
                        assert(s[j] == t[j - 1]);
                    }
                }
            },
        }
    }
}

/// Law (framing): when the buffer begins with a complete line, that line,
/// with its line ending, is what the next decode takes off the front, and
/// exactly what follows it stays buffered; so lines that arrive together in
/// one read come out one by one, in order.
pub proof fn lemma_complete_line_comes_first(line: Seq<u8>, rest: Seq<u8>)
    requires
        is_complete_line(line),
    ensures
        first_newline(line + rest) == Some(line.len() - 1),
        (line + rest).take(line.len() as int) == line,
        (line + rest).skip(line.len() as int) == rest,
{
    let s = line + rest;
    let p = line.len() - 1;
    assert(s[p] == NEWLINE);
    lemma_first_newline(s);
    assert(forall|j: int| 0 <= j < p ==> s[j] == line.drop_last()[j]);
    assert(s.take(line.len() as int) =~= line);
    assert(s.skip(line.len() as int) =~= rest);
}

/// Law (framing): bytes of a line that has not been completed yet stay at the
/// front of the buffer, so a line split across reads is found whole once its
/// newline arrives.
pub proof fn lemma_partial_line_is_kept(partial: Seq<u8>, more: Seq<u8>)
    requires
        no_newline(partial),
    ensures
        first_newline(partial + more) == (match first_newline(more) {
            Some(p) => Some(partial.len() + p),
            None => None,
        }),
    decreases partial.len(),
{
    if partial.len() == 0 {
        assert(partial + more =~= more);
    } else {
        let s = partial + more;
        assert(s[0] == partial[0]);
        assert(s.drop_first() =~= partial.drop_first() + more);
        lemma_partial_line_is_kept(partial.drop_first(), more);
    }
}

/// What one call of [`LineCodec::decode`] found in the buffer.
pub enum LineDecode {
    /// A complete line, newline included, taken off the front of the buffer.
    Line(bytes::Bytes),
    /// A complete line longer than the limit was taken off the front of the
    /// buffer and discarded; the payload is its length, newline included.
    Oversized(usize),
    /// No newline was buffered and the buffer exceeded the limit, so it was
    /// emptied, and the rest of that line, up to its newline, will be
    /// discarded too; the payload is how many bytes were discarded.
    Overflow(usize),
    /// Bytes of a line already cut short by an overflow were discarded, up
    /// to and including its newline if it has arrived; the payload is how
    /// many bytes were discarded.
    TailDiscarded(usize),
    /// No complete line yet; the buffer is unchanged.
    Incomplete,
}

/// [`LineDecode`] with the line taken as its bytes.
pub enum DecodeView {
    Line(Seq<u8>),
    Oversized(nat),
    Overflow(nat),
    TailDiscarded(nat),
    Incomplete,
}

impl View for LineDecode {
    type V = DecodeView;

    open spec fn view(&self) -> DecodeView {
        match self {
            LineDecode::Line(b) => DecodeView::Line(bytes_view(*b)),
            LineDecode::Oversized(n) => DecodeView::Oversized(*n as nat),
            LineDecode::Overflow(n) => DecodeView::Overflow(*n as nat),
            LineDecode::TailDiscarded(n) => DecodeView::TailDiscarded(*n as nat),
            LineDecode::Incomplete => DecodeView::Incomplete,
        }
    }
}

/// One decoding step on buffer `s`, for a codec with limit `max` that is
/// (`discarding`) or is not skipping the rest of an overflowed line: what is
/// found, the buffer afterwards, and whether the codec is then skipping.
pub open spec fn decode_step(discarding: bool, max: usize, s: Seq<u8>) -> (DecodeView, Seq<u8>, bool) {
    if discarding {
        match first_newline(s) {
            Some(p) => (DecodeView::TailDiscarded((p + 1) as nat), s.skip(p + 1), false),
            None => (DecodeView::TailDiscarded(s.len()), Seq::empty(), true),
        }
    } else {
        match first_newline(s) {
            Some(p) => if p > max {
                (DecodeView::Oversized((p + 1) as nat), s.skip(p + 1), false)
            } else {
                (DecodeView::Line(s.take(p + 1)), s.skip(p + 1), false)
            },
            None => if s.len() > max {
                (DecodeView::Overflow(s.len()), Seq::empty(), true)
            } else {
                (DecodeView::Incomplete, s, false)
            },
        }
    }
}

/// Law (framing): a complete line of at most `max` bytes before its newline
/// at the front of the buffer is passed on whole, line ending included, and
/// what follows it stays buffered.
pub proof fn lemma_short_line_is_passed_on(line: Seq<u8>, rest: Seq<u8>, max: usize)
    requires
        is_complete_line(line),
        line.len() <= max + 1,
    ensures
        decode_step(false, max, line + rest) == (DecodeView::Line(line), rest, false),
{
    lemma_complete_line_comes_first(line, rest);
}

/// Law (framing): a complete line of more than `max` bytes before its
/// newline is dropped whole, and what follows it stays buffered.
pub proof fn lemma_long_line_is_dropped(line: Seq<u8>, rest: Seq<u8>, max: usize)
    requires
        is_complete_line(line),
        line.len() > max + 1,
    ensures
        decode_step(false, max, line + rest) == (DecodeView::Oversized(line.len()), rest, false),
{
    lemma_complete_line_comes_first(line, rest);
}

/// Law (framing): without a newline, a buffer of at most `max` bytes waits
/// for more, and a longer one is dropped and the codec then skips the rest of
/// that line.
pub proof fn lemma_unfinished_line(s: Seq<u8>, max: usize)
    requires
        no_newline(s),
    ensures
        s.len() <= max ==> decode_step(false, max, s) == (DecodeView::Incomplete, s, false),
        s.len() > max ==> decode_step(false, max, s) == (DecodeView::Overflow(s.len()), Seq::<u8>::empty(), true),
{
    lemma_first_newline(s);
    if first_newline(s) is Some {
        let p = first_newline(s)->0;
        assert(s[p] == NEWLINE);
    }
}

/// Law (framing): while skipping an overflowed line, its bytes are dropped
/// up to and including its newline, no line is passed on, and the codec then
/// frames normally again.
pub proof fn lemma_overflowed_line_tail_is_dropped(tail: Seq<u8>, rest: Seq<u8>, max: usize)
    requires
        is_complete_line(tail),
    ensures
        decode_step(true, max, tail + rest) == (DecodeView::TailDiscarded(tail.len()), rest, false),
        forall|s: Seq<u8>| !(#[trigger] decode_step(true, max, s).0 is Line),
{
    lemma_complete_line_comes_first(tail, rest);
}

/// Law (framing): a line passed on is a complete line of at most `max`
/// bytes before its newline, taken from the front of the buffer: it and the
/// buffer afterwards make up the buffer before.
pub proof fn lemma_passed_line_is_complete(discarding: bool, max: usize, s: Seq<u8>)
    ensures
        decode_step(discarding, max, s).0 matches DecodeView::Line(line) ==> {
            &&& is_complete_line(line)
            &&& line.len() <= max + 1
            &&& line + decode_step(discarding, max, s).1 == s
            &&& !discarding
        },
{
    lemma_first_newline(s);
    if let DecodeView::Line(line) = decode_step(discarding, max, s).0 {
        let p = first_newline(s)->0;
        assert(line == s.take(p + 1));
        assert(line.drop_last() =~= s.take(p));
        assert forall|j: int| 0 <= j < line.drop_last().len() implies line.drop_last()[j] != NEWLINE by {
            assert(line.drop_last()[j] == s[j]);
        }
        assert(line + s.skip(p + 1) =~= s);
    }
}

/// Splits a byte stream into newline-terminated lines of bounded length.
#[derive(Clone)]
pub struct LineCodec {
    max_line_bytes: usize,
    discarding: bool,
}

impl LineCodec {
    /// The longest line, newline excluded, that is passed on.
    pub closed spec fn spec_max_line_bytes(&self) -> usize {
        self.max_line_bytes
    }

    /// Whether the codec is skipping the rest of a line that overflowed.
    pub closed spec fn spec_discarding(&self) -> bool {
        self.discarding
    }

    pub fn new(max_line_bytes: usize) -> (r: Self)
        ensures
            r.spec_max_line_bytes() == max_line_bytes,
            !r.spec_discarding(),
    {
        Self { max_line_bytes, discarding: false }
    }

    /// Takes the next line off the front of `src`.
    ///
    /// A line of at most `max_line_bytes` bytes before its newline is returned
    /// with its newline (and any `\r` before it) intact; a longer line is
    /// discarded. Without a newline, a buffer longer than `max_line_bytes` is
    /// discarded whole, and so is the rest of that line when it arrives, so
    /// that no fragment of it is passed on as a line.
    pub fn decode(&mut self, src: &mut bytes::BytesMut) -> (r: LineDecode)
        ensures
            final(self).spec_max_line_bytes() == old(self).spec_max_line_bytes(),
            (r@, bytes_mut_view(*final(src)), final(self).spec_discarding()) == decode_step(
                old(self).spec_discarding(),
                old(self).spec_max_line_bytes(),
                bytes_mut_view(*old(src)),
            ),
    {
        let buf = bytes_mut_as_slice(src);
        let n = buf.len();
        let mut i: usize = 0;
        while i < n && buf[i] != NEWLINE
            invariant
                n == buf@.len(),
                buf@ == bytes_mut_view(*src),
                i <= n,
                no_newline(buf@.take(i as int)),
            decreases n - i,
        {
            assert(buf@.take(i + 1) =~= buf@.take(i as int).push(buf@[i as int]));
            i = i + 1;
        }
        proof {
            let s = buf@;
            lemma_partial_line_is_kept(s.take(i as int), s.skip(i as int));
            assert(s.take(i as int) + s.skip(i as int) =~= s);
            if i == n {
                assert(s.skip(i as int).len() == 0);
            }
        }
        if self.discarding {
            if i < n {
                let _dropped = bytes_mut_split_to(src, i + 1);
                self.discarding = false;
                return LineDecode::TailDiscarded(i + 1);
            }
            bytes_mut_clear(src);
            return LineDecode::TailDiscarded(n);
        }
        if i < n {
            let line_len = i + 1;
            if i > self.max_line_bytes {
                let _dropped = bytes_mut_split_to(src, line_len);
                return LineDecode::Oversized(line_len);
            }
            let line = bytes_mut_split_to(src, line_len);
            return LineDecode::Line(bytes_mut_freeze(line));
        }
        if n > self.max_line_bytes {
            bytes_mut_clear(src);
            self.discarding = true;
            return LineDecode::Overflow(n);
        }
        LineDecode::Incomplete
    }
}

} // verus!
