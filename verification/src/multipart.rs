//! Recognising AIS multipart sentences and the key that keeps their
//! fragments together.
use vstd::prelude::*;
use vstd::string::{StrSliceExecFns, StringExecFns};

verus! {

/// The header fields of an AIS `!..VDM` / `!..VDO` sentence.
pub struct AisMultipartInfo {
    pub total_fragments: u8,
    pub fragment_number: u8,
    pub sequential_id: String,
    pub channel: String,
}

/// [`AisMultipartInfo`] with its text fields taken as character sequences.
pub struct AisMultipartView {
    pub total_fragments: u8,
    pub fragment_number: u8,
    pub sequential_id: Seq<char>,
    pub channel: Seq<char>,
}

impl View for AisMultipartInfo {
    type V = AisMultipartView;

    open spec fn view(&self) -> AisMultipartView {
        AisMultipartView {
            total_fragments: self.total_fragments,
            fragment_number: self.fragment_number,
            sequential_id: self.sequential_id@,
            channel: self.channel@,
        }
    }
}

pub open spec fn is_line_end(c: char) -> bool {
    c == '\r' || c == '\n'
}

/// `s` without its trailing run of `\r` and `\n` characters.
pub open spec fn trim_line_end(s: Seq<char>) -> Seq<char>
    decreases s.len(),
{
    if s.len() > 0 && is_line_end(s.last()) {
        trim_line_end(s.drop_last())
    } else {
        s
    }
}

/// The positions of the commas among the first `n` characters of `s`, in
/// increasing order.
pub open spec fn comma_positions(s: Seq<char>, n: nat) -> Seq<int>
    decreases n,
{
    if n == 0 {
        Seq::empty()
    } else if s[n - 1] == ',' {
        comma_positions(s, (n - 1) as nat).push(n - 1)
    } else {
        comma_positions(s, (n - 1) as nat)
    }
}

/// The `k`-th comma-separated field of `s`, where `cs` are the positions of
/// all commas in `s`.
pub open spec fn field(s: Seq<char>, cs: Seq<int>, k: int) -> Seq<char> {
    let start = if k == 0 { 0 } else { cs[k - 1] + 1 };
    let end = if k < cs.len() { cs[k] } else { s.len() as int };
    s.subrange(start, end)
}

pub open spec fn is_decimal_digit(c: char) -> bool {
    '0' <= c && c <= '9'
}

/// The number that the decimal digits `d` spell.
pub open spec fn digits_value(d: Seq<char>) -> nat
    decreases d.len(),
{
    if d.len() == 0 {
        0
    } else {
        digits_value(d.drop_last()) * 10 + (d.last() as nat - '0' as nat) as nat
    }
}

/// The digits of an unsigned decimal: `s` without one leading `+`.
pub open spec fn unsigned_digits(s: Seq<char>) -> Seq<char> {
    if s.len() > 0 && s[0] == '+' {
        s.skip(1)
    } else {
        s
    }
}

/// What `str::parse::<u8>` gives for `s`: an optional `+`, then at least one
/// decimal digit, and a value of at most 255.
pub open spec fn parse_u8(s: Seq<char>) -> Option<u8> {
    let d = unsigned_digits(s);
    if d.len() > 0 && (forall|i: int| 0 <= i < d.len() ==> is_decimal_digit(#[trigger] d[i]))
        && digits_value(d) <= 255 {
        Some(digits_value(d) as u8)
    } else {
        None
    }
}

/// Whether a sentence identifier such as `AIVDM` ends in `VDM` or `VDO`.
pub open spec fn is_ais_sentence(f: Seq<char>) -> bool {
    f.len() >= 3 && (f.skip(f.len() - 3) == seq!['V', 'D', 'M'] || f.skip(f.len() - 3) == seq![
        'V',
        'D',
        'O',
    ])
}

/// The header of the AIS sentence on `line`, if it is one: after trailing
/// line ends are removed, the line starts with `!`, has at least seven
/// comma-separated fields, and its first field ends in `VDM` or `VDO`.
/// Fragment counts that do not parse as `u8` count as 1.
pub open spec fn spec_parse_ais_multipart(line: Seq<char>) -> Option<AisMultipartView> {
    let t = trim_line_end(line);
    if t.len() == 0 || t[0] != '!' {
        None
    } else {
        let body = t.skip(1);
        let cs = comma_positions(body, body.len());
        if cs.len() < 6 || !is_ais_sentence(field(body, cs, 0)) {
            None
        } else {
            Some(
                AisMultipartView {
                    total_fragments: match parse_u8(field(body, cs, 1)) {
                        Some(v) => v,
                        None => 1,
                    },
                    fragment_number: match parse_u8(field(body, cs, 2)) {
                        Some(v) => v,
                        None => 1,
                    },
                    sequential_id: field(body, cs, 3),
                    channel: field(body, cs, 4),
                },
            )
        }
    }
}

/// The affinity key of a sentence: its sequential id followed by its channel,
/// for messages of more than one fragment that carry a sequential id.
pub open spec fn spec_affinity_key(info: AisMultipartView) -> Option<Seq<char>> {
    if info.sequential_id.len() == 0 || info.total_fragments <= 1 {
        None
    } else {
        Some(info.sequential_id + info.channel)
    }
}

/// Law (fragment affinity): the fragments of one multipart message, which
/// share its sequential id and channel, get one and the same key; single
/// fragment messages and messages without a sequential id get none.
pub proof fn lemma_fragments_share_key(a: AisMultipartView, b: AisMultipartView)
    requires
        a.sequential_id == b.sequential_id,
        a.channel == b.channel,
        a.total_fragments > 1,
        b.total_fragments > 1,
    ensures
        spec_affinity_key(a) == spec_affinity_key(b),
        a.sequential_id.len() > 0 ==> spec_affinity_key(a) == Some(a.sequential_id + a.channel),
        a.sequential_id.len() == 0 ==> spec_affinity_key(a) is None,
{
}

/// Law (fragment affinity): a message of a single fragment (or a count of
/// zero) needs no affinity and gets no key, whatever its sequential id.
pub proof fn lemma_single_fragment_has_no_key(a: AisMultipartView)
    requires
        a.total_fragments <= 1,
    ensures
        spec_affinity_key(a) is None,
{
}

/// Law (fragment counts): a count is read like `str::parse::<u8>`: a run
/// of decimal digits, optionally after one `+`, is its value when that is
/// at most 255; anything else (empty, a lone `+`, a sign `-`, another
/// character, or a larger value) does not parse.
pub proof fn lemma_parse_u8(d: Seq<char>)
    ensures
        parse_u8(Seq::empty()) is None,
        parse_u8(seq!['+']) is None,
        d.len() > 0 && d[0] != '+' ==> parse_u8(seq!['+'] + d) == parse_u8(d),
        d.len() > 0 && d[0] == '-' ==> parse_u8(d) is None,
        (forall|i: int| 0 <= i < d.len() ==> is_decimal_digit(#[trigger] d[i])) && d.len() > 0 ==> parse_u8(d)
            == (if digits_value(d) <= 255 {
            Some(digits_value(d) as u8)
        } else {
            None
        }),
        d.len() == 1 && is_decimal_digit(d[0]) ==> parse_u8(d) == Some((d[0] as nat - '0' as nat) as u8),
{
    assert((seq!['+'] + d).skip(1) =~= d);
    assert(seq!['+'].skip(1) =~= Seq::<char>::empty());
    if d.len() > 0 && d[0] == '-' {
        assert(!is_decimal_digit(unsigned_digits(d)[0]));
    }
    if d.len() == 1 {
        assert(d.drop_last() =~= Seq::<char>::empty());
    }
}

/// The fields `fs` joined with commas.
pub open spec fn join_fields(fs: Seq<Seq<char>>) -> Seq<char>
    decreases fs.len(),
{
    if fs.len() <= 1 {
        if fs.len() == 0 {
            Seq::empty()
        } else {
            fs[0]
        }
    } else {
        join_fields(fs.drop_last()) + seq![','] + fs.last()
    }
}

pub open spec fn no_comma(f: Seq<char>) -> bool {
    forall|i: int| 0 <= i < f.len() ==> f[i] != ','
}

/// Counting commas in a prefix of `a + b` counts them in `a`.
proof fn lemma_comma_positions_prefix(a: Seq<char>, b: Seq<char>, n: nat)
    requires
        n <= a.len(),
    ensures
        comma_positions(a + b, n) == comma_positions(a, n),
    decreases n,
{
    if n > 0 {
        lemma_comma_positions_prefix(a, b, (n - 1) as nat);
        assert((a + b)[n - 1] == a[n - 1]);
    }
}

/// The commas of `a + b` are those of `a`, then those of `b` shifted.
proof fn lemma_comma_positions_concat(a: Seq<char>, b: Seq<char>, m: nat)
    requires
        m <= b.len(),
    ensures
        comma_positions(a + b, a.len() + m) == comma_positions(a, a.len()) + comma_positions(
            b,
            m,
        ).map_values(|x: int| x + a.len()),
    decreases m,
{
    if m == 0 {
        lemma_comma_positions_prefix(a, b, a.len());
        assert(comma_positions(a, a.len()) + comma_positions(b, 0).map_values(|x: int| x + a.len())
            =~= comma_positions(a, a.len()));
    } else {
        lemma_comma_positions_concat(a, b, (m - 1) as nat);
        assert((a + b)[a.len() + m - 1] == b[m - 1]);
        let prev = comma_positions(b, (m - 1) as nat);
        if b[m - 1] == ',' {
            assert(comma_positions(b, m).map_values(|x: int| x + a.len()) =~= prev.map_values(
                |x: int| x + a.len(),
            ).push(a.len() + m - 1));
        } else {
            assert(comma_positions(b, m) == prev);
        }
        assert(comma_positions(a + b, a.len() + m) =~= comma_positions(a, a.len()) + comma_positions(
            b,
            m,
        ).map_values(|x: int| x + a.len()));
    }
}

/// A comma-free text has no comma positions.
proof fn lemma_no_comma_positions(f: Seq<char>, n: nat)
    requires
        no_comma(f),
        n <= f.len(),
    ensures
        comma_positions(f, n) == Seq::<int>::empty(),
    decreases n,
{
    if n > 0 {
        lemma_no_comma_positions(f, (n - 1) as nat);
    }
}

/// Joining comma-free fields gives one comma between each two, and the
/// `k`-th comma-separated field of the result is `fs[k]`.
proof fn lemma_join_fields(fs: Seq<Seq<char>>)
    requires
        fs.len() > 0,
        forall|i: int| 0 <= i < fs.len() ==> no_comma(#[trigger] fs[i]),
    ensures
        ({
            let j = join_fields(fs);
            let cs = comma_positions(j, j.len());
            &&& cs.len() == fs.len() - 1
            &&& forall|k: int| 0 <= k < fs.len() ==> #[trigger] field(j, cs, k) == fs[k]
        }),
    decreases fs.len(),
{
    if fs.len() == 1 {
        lemma_no_comma_positions(fs[0], fs[0].len());
        assert(field(fs[0], Seq::<int>::empty(), 0) =~= fs[0]);
    } else {
        let init = fs.drop_last();
        lemma_join_fields(init);
        let jj = join_fields(init);
        let csj = comma_positions(jj, jj.len());
        let tail = seq![','] + fs.last();
        let j = join_fields(fs);
        assert(j == jj + tail);
        lemma_comma_positions_concat(jj, tail, tail.len());
        lemma_no_comma_positions(fs.last(), fs.last().len());
        assert(comma_positions(tail, 1) =~= seq![0int]) by {
            assert(tail[0] == ',');
            assert(comma_positions(tail, 0) =~= Seq::<int>::empty());
        }
        lemma_comma_positions_concat(seq![','], fs.last(), fs.last().len());
        assert(tail =~= seq![','] + fs.last());
        let one: Seq<char> = seq![','];
        assert(comma_positions(one, 0) =~= Seq::<int>::empty());
        assert(comma_positions(one, 1) =~= seq![0int]);
        assert(comma_positions(fs.last(), fs.last().len()).map_values(|x: int| x + one.len()) =~= Seq::<int>::empty());
        let cs = comma_positions(j, j.len());
        assert(comma_positions(tail, tail.len()) =~= seq![0int]);
        lemma_comma_positions_increasing(jj, jj.len());
        assert(cs =~= csj.push(jj.len() as int));
        assert forall|k: int| 0 <= k < fs.len() implies #[trigger] field(j, cs, k) == fs[k] by {
            if k < fs.len() - 1 {
                assert(field(jj, csj, k) == init[k]);
                if k > 0 {
                    assert(cs[k - 1] == csj[k - 1]);
                }
                if k < csj.len() {
                    assert(cs[k] == csj[k]);
                }
                assert(field(j, cs, k) =~= field(jj, csj, k));
            } else {
                assert(field(j, cs, k) =~= fs.last());
            }
        }
    }
}

/// `s` followed by line ends, trimmed, is `s` when `s` does not itself end in
/// a line end.
proof fn lemma_trim_line_end(s: Seq<char>, eol: Seq<char>)
    requires
        s.len() == 0 || !is_line_end(s.last()),
        forall|i: int| 0 <= i < eol.len() ==> is_line_end(#[trigger] eol[i]),
    ensures
        trim_line_end(s + eol) == s,
    decreases eol.len(),
{
    if eol.len() == 0 {
        assert(s + eol =~= s);
    } else {
        assert((s + eol).drop_last() =~= s + eol.drop_last());
        assert((s + eol).last() == eol.last());
        lemma_trim_line_end(s, eol.drop_last());
    }
}

/// Law (sentence header): a line made of `!`, at least seven comma-free
/// fields joined by commas, and any trailing line ends is read field by
/// field: when the first field ends in `VDM` or `VDO`, the fragment counts
/// come from the second and third fields (1 when they do not parse), the
/// sequential id is the fourth field and the channel the fifth; otherwise the
/// line is no AIS sentence.
pub proof fn lemma_header_fields(fs: Seq<Seq<char>>, eol: Seq<char>)
    requires
        fs.len() >= 7,
        forall|i: int| 0 <= i < fs.len() ==> no_comma(#[trigger] fs[i]),
        fs.last().len() == 0 || !is_line_end(fs.last().last()),
        forall|i: int| 0 <= i < eol.len() ==> is_line_end(#[trigger] eol[i]),
    ensures
        spec_parse_ais_multipart(seq!['!'] + join_fields(fs) + eol) == (if is_ais_sentence(fs[0]) {
            Some(
                AisMultipartView {
                    total_fragments: match parse_u8(fs[1]) {
                        Some(v) => v,
                        None => 1,
                    },
                    fragment_number: match parse_u8(fs[2]) {
                        Some(v) => v,
                        None => 1,
                    },
                    sequential_id: fs[3],
                    channel: fs[4],
                },
            )
        } else {
            None
        }),
{
    let j = join_fields(fs);
    lemma_join_fields(fs);
    let body = seq!['!'] + j;
    assert(j.len() > 0 && j.last() == fs.last().last() || fs.last().len() == 0) by {
        let init = fs.drop_last();
        assert(j == join_fields(init) + seq![','] + fs.last());
        if fs.last().len() > 0 {
            assert(j.last() == fs.last().last());
        }
    }
    if fs.last().len() == 0 {
        let init = fs.drop_last();
        assert(j == join_fields(init) + seq![','] + fs.last());
        assert(j.last() == ',');
    }
    assert(body.last() == j.last());
    lemma_trim_line_end(body, eol);
    assert((seq!['!'] + j + eol) == body + eol);
    assert(body.skip(1) =~= j);
    assert(body[0] == '!');
}

/// Law (sentence header): a line that does not start with `!` is no AIS
/// sentence.
pub proof fn lemma_header_needs_bang(line: Seq<char>)
    requires
        line.len() == 0 || line[0] != '!',
    ensures
        spec_parse_ais_multipart(line) is None,
    decreases line.len(),
{
    if line.len() > 0 && is_line_end(line.last()) {
        lemma_header_needs_bang(line.drop_last());
        if line.drop_last().len() > 0 {
            assert(line.drop_last()[0] == line[0]);
        }
    }
}

fn char_is_decimal_digit(c: char) -> (r: bool)
    ensures
        r == is_decimal_digit(c),
{
    '0' <= c && c <= '9'
}

/// `parse::<u8>` of the characters `chars[start..end]`.
fn parse_u8_chars(chars: &Vec<char>, start: usize, end: usize) -> (r: Option<u8>)
    requires
        start <= end <= chars@.len(),
    ensures
        r == parse_u8(chars@.subrange(start as int, end as int)),
{
    let ghost s = chars@.subrange(start as int, end as int);
    let mut i = start;
    if start < end && chars[start] == '+' {
        i = start + 1;
    }
    let ghost d = unsigned_digits(s);
    assert(d == chars@.subrange(i as int, end as int));
    if i == end {
        return None;
    }
    // The value of the digits read so far, capped at 256.
    let mut v: u32 = 0;
    let mut k = i;
    while k < end
        invariant
            i <= k <= end <= chars@.len(),
            d == chars@.subrange(i as int, end as int),
            d == unsigned_digits(chars@.subrange(start as int, end as int)),
            forall|j: int| 0 <= j < k - i ==> is_decimal_digit(#[trigger] d[j]),
            v == if digits_value(d.take(k - i)) < 256 {
                digits_value(d.take(k - i))
            } else {
                256
            },
        decreases end - k,
    {
        let c = chars[k];
        if !char_is_decimal_digit(c) {
            assert(d[k - i] == c);
            return None;
        }
        assert(d.take(k - i + 1).drop_last() =~= d.take(k - i));
        assert(d.take(k - i + 1).last() == c);
        let digit = (c as u32) - ('0' as u32);
        if v >= 256 {
            v = 256;
        } else {
            v = v * 10 + digit;
            if v > 256 {
                v = 256;
            }
        }
        k = k + 1;
    }
    assert(d.take(end - i) =~= d);
    if v > 255 {
        None
    } else {
        Some(v as u8)
    }
}

/// Whether `chars[start..end]` ends in `V`, `D`, `M` or `V`, `D`, `O`.
fn chars_are_ais_sentence(chars: &Vec<char>, start: usize, end: usize) -> (r: bool)
    requires
        start <= end <= chars@.len(),
    ensures
        r == is_ais_sentence(chars@.subrange(start as int, end as int)),
{
    let ghost f = chars@.subrange(start as int, end as int);
    if end - start < 3 {
        return false;
    }
    let ghost tail = f.skip(f.len() - 3);
    assert(tail[0] == chars@[end - 3] && tail[1] == chars@[end - 2] && tail[2] == chars@[end - 1]);
    let r = chars[end - 3] == 'V' && chars[end - 2] == 'D' && (chars[end - 1] == 'M' || chars[end
        - 1] == 'O');
    assert(r ==> tail =~= seq!['V', 'D', 'M'] || tail =~= seq!['V', 'D', 'O']);
    assert(tail == seq!['V', 'D', 'M'] ==> tail[2] == 'M');
    assert(tail == seq!['V', 'D', 'O'] ==> tail[2] == 'O');
    r
}

/// The characters of `line`, in order.
fn collect_chars(line: &str) -> (chars: Vec<char>)
    ensures
        chars@ == line@,
{
    let mut chars: Vec<char> = Vec::new();
    for c in it: line.chars()
        invariant
            chars@ == it.seq().take(it.index() as int),
            it.seq() == line@,
    {
        chars.push(c);
    }
    assert(chars@ =~= line@);
    chars
}

/// The length of `chars` without its trailing line ends.
fn trimmed_len(chars: &Vec<char>) -> (m: usize)
    ensures
        m <= chars@.len(),
        trim_line_end(chars@) == chars@.take(m as int),
{
    let mut m = chars.len();
    assert(chars@ =~= chars@.take(chars@.len() as int));
    while m > 0 && (chars[m - 1] == '\r' || chars[m - 1] == '\n')
        invariant
            m <= chars@.len(),
            trim_line_end(chars@.take(m as int)) == trim_line_end(chars@),
        decreases m,
    {
        assert(chars@.take(m as int).drop_last() =~= chars@.take(m - 1));
        m = m - 1;
    }
    m
}

/// The positions of the commas in `chars[from..to]`, counted from `from`.
fn comma_indices(chars: &Vec<char>, from: usize, to: usize) -> (commas: Vec<usize>)
    requires
        from <= to <= chars@.len(),
    ensures
        commas@.len() == comma_positions(chars@.subrange(from as int, to as int), (to - from) as nat).len(),
        forall|k: int|
            0 <= k < commas@.len() ==> commas@[k] as int == #[trigger] comma_positions(
                chars@.subrange(from as int, to as int),
                (to - from) as nat,
            )[k],
{
    let ghost body = chars@.subrange(from as int, to as int);
    let mut commas: Vec<usize> = Vec::new();
    let mut j: usize = from;
    while j < to
        invariant
            from <= j <= to <= chars@.len(),
            body == chars@.subrange(from as int, to as int),
            commas@.len() == comma_positions(body, (j - from) as nat).len(),
            forall|k: int|
                0 <= k < commas@.len() ==> commas@[k] as int == #[trigger] comma_positions(
                    body,
                    (j - from) as nat,
                )[k],
        decreases to - j,
    {
        assert(body[j - from] == chars@[j as int]);
        if chars[j] == ',' {
            commas.push(j - from);
        }
        j = j + 1;
    }
    commas
}

/// Reads the header of an AIS `!..VDM` or `!..VDO` sentence.
///
/// Returns `None` for lines that are not such sentences (see
/// [`spec_parse_ais_multipart`]).
pub fn parse_ais_multipart(line: &str) -> (r: Option<AisMultipartInfo>)
    ensures
        match r {
            Some(info) => spec_parse_ais_multipart(line@) == Some(info@),
            None => spec_parse_ais_multipart(line@) is None,
        },
{
    let chars = collect_chars(line);
    let m = trimmed_len(&chars);
    let ghost t = chars@.take(m as int);
    if m == 0 || chars[0] != '!' {
        return None;
    }
    let ghost body = t.skip(1);
    assert(body =~= chars@.subrange(1, m as int));
    let commas = comma_indices(&chars, 1, m);
    let ghost cs = comma_positions(body, body.len());
    if commas.len() < 6 {
        return None;
    }
    proof {
        lemma_comma_positions_increasing(body, body.len());
    }
    // Field k of the body spans body[start_k..end_k], that is
    // chars[start_k + 1..end_k + 1].
    let c0 = commas[0];
    let c1 = commas[1];
    let c2 = commas[2];
    let c3 = commas[3];
    let c4 = commas[4];
    assert(c0 == cs[0] && c1 == cs[1] && c2 == cs[2] && c3 == cs[3] && c4 == cs[4]);
    assert(field(body, cs, 0) =~= chars@.subrange(1, c0 + 1));
    if !chars_are_ais_sentence(&chars, 1, c0 + 1) {
        return None;
    }
    assert(field(body, cs, 1) =~= chars@.subrange(c0 + 2, c1 + 1));
    assert(field(body, cs, 2) =~= chars@.subrange(c1 + 2, c2 + 1));
    assert(field(body, cs, 3) =~= line@.subrange(c2 + 2, c3 + 1));
    assert(field(body, cs, 4) =~= line@.subrange(c3 + 2, c4 + 1));
    let total_fragments = match parse_u8_chars(&chars, c0 + 2, c1 + 1) {
        Some(v) => v,
        None => 1,
    };
    let fragment_number = match parse_u8_chars(&chars, c1 + 2, c2 + 1) {
        Some(v) => v,
        None => 1,
    };
    let sequential_id = line.substring_char(c2 + 2, c3 + 1).to_owned();
    let channel = line.substring_char(c3 + 2, c4 + 1).to_owned();
    Some(AisMultipartInfo { total_fragments, fragment_number, sequential_id, channel })
}

/// Comma positions are strictly increasing and lie inside the counted prefix.
proof fn lemma_comma_positions_increasing(s: Seq<char>, n: nat)
    requires
        n <= s.len(),
    ensures
        forall|a: int, b: int|
            0 <= a < b < comma_positions(s, n).len() ==> comma_positions(s, n)[a] < comma_positions(
                s,
                n,
            )[b],
        forall|a: int|
            0 <= a < comma_positions(s, n).len() ==> 0 <= comma_positions(s, n)[a] < n && s[comma_positions(s, n)[a]] == ',',
    decreases n,
{
    if n > 0 {
        lemma_comma_positions_increasing(s, (n - 1) as nat);
        let prev = comma_positions(s, (n - 1) as nat);
        let cur = comma_positions(s, n);
        if s[n - 1] == ',' {
            assert(cur == prev.push(n - 1));
            assert forall|a: int| 0 <= a < prev.len() implies cur[a] == prev[a] && prev[a] < n - 1 by {}
        } else {
            assert(cur == prev);
        }
    }
}

/// The key that routes all fragments of one multipart message to the same
/// consumer, or `None` when the message needs no such routing.
pub fn compute_affinity_key(info: &AisMultipartInfo) -> (r: Option<String>)
    ensures
        match r {
            Some(k) => spec_affinity_key(info@) == Some(k@),
            None => spec_affinity_key(info@) is None,
        },
{
    if info.sequential_id.as_str().is_empty() || info.total_fragments <= 1 {
        return None;
    }
    Some(info.sequential_id.clone().concat(info.channel.as_str()))
}

} // verus!
