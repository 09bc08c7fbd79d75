//! Incremental decoder of the Server-Sent Events wire format.
//!
//! Lines end with `\n` (a `\r` before it is dropped); a blank line ends a frame.
//! Within a frame, `data:` lines are joined with `\n`, and the last `event:` and
//! `id:` lines win. Lines starting with `:` are comments. A `retry:` line whose
//! value is all ASCII digits and fits in a `u64` sets the reconnection time that
//! the decoder reports; other fields are ignored. A frame with a field that is
//! not valid UTF-8 is malformed and dropped. A lone `\r` is not taken as a line
//! ending.
use vstd::prelude::*;
use vstd::string::*;
use vstd::utf8::{decode_utf8, valid_utf8};

verus! {

pub const LF: u8 = 10;

pub const CR: u8 = 13;

pub const COLON: u8 = 58;

pub const SPACE: u8 = 32;

/// The field name `event`.
pub open spec fn event_word() -> Seq<u8> {
    seq![101u8, 118u8, 101u8, 110u8, 116u8]
}

/// The field name `data`.
pub open spec fn data_word() -> Seq<u8> {
    seq![100u8, 97u8, 116u8, 97u8]
}

/// The field name `id`.
pub open spec fn id_word() -> Seq<u8> {
    seq![105u8, 100u8]
}

/// The field name `retry`.
pub open spec fn retry_word() -> Seq<u8> {
    seq![114u8, 101u8, 116u8, 114u8, 121u8]
}

/// The fields read so far: those of the frame being read, and the last
/// reconnection time (in milliseconds) that the stream asked for.
pub struct FrameFields {
    pub event: Option<Seq<u8>>,
    pub data: Option<Seq<u8>>,
    pub id: Option<Seq<u8>>,
    pub retry: Option<nat>,
}

/// Whether `s` is a non-empty run of ASCII digits.
pub open spec fn all_digits(s: Seq<u8>) -> bool {
    &&& s.len() > 0
    &&& forall|i: int| 0 <= i < s.len() ==> 48 <= #[trigger] s[i] <= 57
}

/// The number that a run of ASCII digits writes in base ten.
pub open spec fn digits_value(s: Seq<u8>) -> nat
    decreases s.len(),
{
    if s.len() == 0 {
        0
    } else {
        digits_value(s.drop_last()) * 10 + (s.last() - 48) as nat
    }
}

/// The abstract state of a decoder: the bytes of the unfinished line, and the
/// fields of the unfinished frame.
pub struct DecoderView {
    pub line: Seq<u8>,
    pub frame: FrameFields,
}

/// An event as bytes, before it is turned into text. `event` is `None` when the
/// frame named no type.
pub struct RawEvent {
    pub event: Option<Seq<u8>>,
    pub data: Seq<u8>,
    pub id: Option<Seq<u8>>,
}

pub open spec fn empty_frame() -> FrameFields {
    FrameFields { event: None, data: None, id: None, retry: None }
}

/// The state of a decoder that has read nothing.
pub open spec fn fresh_view() -> DecoderView {
    DecoderView { line: Seq::empty(), frame: empty_frame() }
}

/// A line without its trailing `\r`, if it has one.
pub open spec fn strip_cr(line: Seq<u8>) -> Seq<u8> {
    if line.len() > 0 && line.last() == CR {
        line.drop_last()
    } else {
        line
    }
}

/// Index of the first byte `b` at or after `k`, or the length when there is none.
pub open spec fn first_from(l: Seq<u8>, b: u8, k: nat) -> nat
    decreases l.len() - k,
{
    if k >= l.len() {
        l.len()
    } else if l[k as int] == b {
        k
    } else {
        first_from(l, b, k + 1)
    }
}

pub proof fn lemma_first_from_bound(l: Seq<u8>, b: u8, k: nat)
    ensures
        first_from(l, b, k) <= l.len(),
    decreases l.len() - k,
{
    if k < l.len() && l[k as int] != b {
        lemma_first_from_bound(l, b, k + 1);
    }
}

/// Where the value of a field line starts: after the first `:` and one optional
/// space; a line without `:` has an empty value.
pub open spec fn value_start(l: Seq<u8>) -> nat {
    let c = first_from(l, COLON, 0);
    if c < l.len() {
        if c + 1 < l.len() && l[c + 1 as int] == SPACE {
            c + 2
        } else {
            c + 1
        }
    } else {
        l.len()
    }
}

pub open spec fn field_name(l: Seq<u8>) -> Seq<u8> {
    l.take(first_from(l, COLON, 0) as int)
}

pub open spec fn field_value(l: Seq<u8>) -> Seq<u8> {
    l.subrange(value_start(l) as int, l.len() as int)
}

/// Whether an optional field is absent or valid UTF-8.
pub open spec fn valid_field(v: Option<Seq<u8>>) -> bool {
    match v {
        Some(b) => valid_utf8(b),
        None => true,
    }
}

/// The event that a finished frame yields, if any. A frame without data yields
/// none, unless `keep_dataless` is set and it named an event type. A malformed
/// frame, one with a field that is not valid UTF-8, yields none.
pub open spec fn dispatch(f: FrameFields, keep_dataless: bool) -> Option<RawEvent> {
    let candidate = match f.data {
        Some(d) => Some(RawEvent { event: f.event, data: d, id: f.id }),
        None => if keep_dataless && f.event is Some {
            Some(RawEvent { event: f.event, data: Seq::empty(), id: f.id })
        } else {
            None
        },
    };
    match candidate {
        Some(e) => if valid_field(e.event) && valid_utf8(e.data) && valid_field(e.id) {
            Some(e)
        } else {
            None
        },
        None => None,
    }
}

/// The frame after one field line (already without `\r`, not blank, not a comment).
pub open spec fn apply_field(f: FrameFields, l: Seq<u8>) -> FrameFields {
    let name = field_name(l);
    let value = field_value(l);
    if name == event_word() {
        FrameFields { event: Some(value), ..f }
    } else if name == data_word() {
        FrameFields {
            data: Some(
                match f.data {
                    None => value,
                    Some(d) => d.push(LF) + value,
                },
            ),
            ..f
        }
    } else if name == id_word() {
        FrameFields { id: Some(value), ..f }
    } else if name == retry_word() && all_digits(value) && digits_value(value) <= u64::MAX {
        FrameFields { retry: Some(digits_value(value)), ..f }
    } else {
        f
    }
}

/// The frame, and the event dispatched if any, after one complete line.
pub open spec fn apply_line(f: FrameFields, line: Seq<u8>, keep_dataless: bool) -> (
    FrameFields,
    Option<RawEvent>,
) {
    let l = strip_cr(line);
    if l.len() == 0 {
        (FrameFields { event: None, data: None, id: None, ..f }, dispatch(f, keep_dataless))
    } else if l[0] == COLON {
        (f, None)
    } else {
        (apply_field(f, l), None)
    }
}

/// The state, and the event dispatched if any, after one more byte.
pub open spec fn step(s: DecoderView, b: u8, keep_dataless: bool) -> (DecoderView, Option<RawEvent>) {
    if b == LF {
        let (f, e) = apply_line(s.frame, s.line, keep_dataless);
        (DecoderView { line: Seq::empty(), frame: f }, e)
    } else {
        (DecoderView { line: s.line.push(b), frame: s.frame }, None)
    }
}

pub open spec fn opt_seq(e: Option<RawEvent>) -> Seq<RawEvent> {
    match e {
        Some(x) => seq![x],
        None => Seq::empty(),
    }
}

/// The state after reading `bytes`, and the events dispatched on the way, in order.
pub open spec fn run(s: DecoderView, bytes: Seq<u8>, keep_dataless: bool) -> (
    DecoderView,
    Seq<RawEvent>,
)
    decreases bytes.len(),
{
    if bytes.len() == 0 {
        (s, Seq::empty())
    } else {
        let (a, e1) = run(s, bytes.drop_last(), keep_dataless);
        let (b, e2) = step(a, bytes.last(), keep_dataless);
        (b, e1 + opt_seq(e2))
    }
}

/// Relies on `String::from_utf8`: it succeeds exactly on valid UTF-8, and the
/// string then holds the characters that the bytes encode.
#[verifier::external_body]
fn text_of(b: &Vec<u8>) -> (r: Option<String>)
    ensures
        r is Some <==> valid_utf8(b@),
        r is Some ==> r->0@ == decode_utf8(b@),
{
    String::from_utf8(b.clone()).ok()
}

/// One decoded event. `event_type` is `"message"` when the frame named none.
#[derive(Clone, Debug, PartialEq, Eq)]
pub struct SseEvent {
    pub event_type: String,
    pub data: String,
    pub id: Option<String>,
}

impl SseEvent {
    /// This event is the text form of `raw`.
    pub open spec fn decodes(&self, raw: RawEvent) -> bool {
        &&& self.event_type@ == match raw.event {
            None => "message"@,
            Some(e) => decode_utf8(e),
        }
        &&& self.data@ == decode_utf8(raw.data)
        &&& match (self.id, raw.id) {
            (None, None) => true,
            (Some(t), Some(i)) => t@ == decode_utf8(i),
            _ => false,
        }
    }
}

/// `bytes` repeated `k` times.
pub open spec fn repeat(bytes: Seq<u8>, k: nat) -> Seq<u8>
    decreases k,
{
    if k == 0 {
        Seq::empty()
    } else {
        repeat(bytes, (k - 1) as nat) + bytes
    }
}

/// Chunk boundaries do not matter: reading `a` and then `b` ends in the same state,
/// with the same events in the same order, as reading `a + b` at once.
pub proof fn lemma_run_concat(s: DecoderView, a: Seq<u8>, b: Seq<u8>, keep_dataless: bool)
    ensures
        run(s, a + b, keep_dataless) == (
            run(run(s, a, keep_dataless).0, b, keep_dataless).0,
            run(s, a, keep_dataless).1 + run(run(s, a, keep_dataless).0, b, keep_dataless).1,
        ),
    decreases b.len(),
{
    let mid = run(s, a, keep_dataless);
    if b.len() == 0 {
        assert(a + b =~= a);
        assert(mid.1 + Seq::<RawEvent>::empty() =~= mid.1);
    } else {
        assert((a + b).drop_last() =~= a + b.drop_last());
        assert((a + b).last() == b.last());
        lemma_run_concat(s, a, b.drop_last(), keep_dataless);
        let inner = run(mid.0, b.drop_last(), keep_dataless);
        let last = step(inner.0, b.last(), keep_dataless);
        assert(mid.1 + inner.1 + opt_seq(last.1) =~= mid.1 + (inner.1 + opt_seq(last.1)));
    }
}

/// Bytes without a line feed only extend the unfinished line.
proof fn lemma_run_partial_line(s: DecoderView, c: Seq<u8>, keep_dataless: bool)
    requires
        forall|i: int| 0 <= i < c.len() ==> c[i] != LF,
    ensures
        run(s, c, keep_dataless) == (
            DecoderView { line: s.line + c, frame: s.frame },
            Seq::<RawEvent>::empty(),
        ),
    decreases c.len(),
{
    if c.len() == 0 {
        assert(s.line + c =~= s.line);
    } else {
        assert(c[c.len() - 1] != LF);
        lemma_run_partial_line(s, c.drop_last(), keep_dataless);
        assert((s.line + c.drop_last()).push(c.last()) =~= s.line + c);
        assert(Seq::<RawEvent>::empty() + Seq::<RawEvent>::empty() =~= Seq::<RawEvent>::empty());
    }
}

/// A state between frames: no unfinished line, and no field of a frame read yet.
pub open spec fn at_boundary(s: DecoderView) -> bool {
    &&& s.line.len() == 0
    &&& s.frame.event is None
    &&& s.frame.data is None
    &&& s.frame.id is None
}

/// Comment frames (a comment line `c`, such as `: keepalive`, then a blank line),
/// any number of them, read between frames, yield no event and leave the decoder
/// as it was.
pub proof fn lemma_comment_frames_yield_nothing(
    st: DecoderView,
    c: Seq<u8>,
    k: nat,
    keep_dataless: bool,
)
    requires
        at_boundary(st),
        c.len() >= 1,
        c[0] == COLON,
        forall|i: int| 0 <= i < c.len() ==> c[i] != LF,
    ensures
        run(st, repeat(c + seq![LF, LF], k), keep_dataless) == (st, Seq::<RawEvent>::empty()),
    decreases k,
{
    let frame = c + seq![LF, LF];
    if k == 0 {
        assert(repeat(frame, 0) =~= Seq::<u8>::empty());
    } else {
        lemma_comment_frames_yield_nothing(st, c, (k - 1) as nat, keep_dataless);
        lemma_run_concat(st, repeat(frame, (k - 1) as nat), frame, keep_dataless);
        lemma_run_concat(st, c, seq![LF, LF], keep_dataless);
        lemma_run_partial_line(st, c, keep_dataless);
        let after_c = DecoderView { line: st.line + c, frame: st.frame };
        assert(st.line + c =~= c);
        assert(strip_cr(c)[0] == COLON);
        assert(seq![LF, LF].drop_last() =~= seq![LF]);
        assert(seq![LF].drop_last() =~= Seq::<u8>::empty());
        assert(strip_cr(Seq::<u8>::empty()) =~= Seq::<u8>::empty());
        assert(st.line =~= Seq::<u8>::empty());
        reveal_with_fuel(run, 3);
        assert(run(after_c, seq![LF, LF], keep_dataless).0 == st);
        assert(run(after_c, seq![LF, LF], keep_dataless).1 =~= Seq::<RawEvent>::empty());
        assert(Seq::<RawEvent>::empty() + Seq::<RawEvent>::empty() =~= Seq::<RawEvent>::empty());
        assert(run(st, frame, keep_dataless).1 =~= Seq::<RawEvent>::empty());
    }
}

/// Comment frames inserted between the frames of a body change nothing: reading
/// `a`, any number of comment frames, then `b` ends in the same state, with the
/// same events, as reading `a` then `b`, when `a` ends between frames.
pub proof fn lemma_comment_frames_change_nothing(
    s: DecoderView,
    a: Seq<u8>,
    c: Seq<u8>,
    k: nat,
    b: Seq<u8>,
    keep_dataless: bool,
)
    requires
        at_boundary(run(s, a, keep_dataless).0),
        c.len() >= 1,
        c[0] == COLON,
        forall|i: int| 0 <= i < c.len() ==> c[i] != LF,
    ensures
        run(s, a + repeat(c + seq![LF, LF], k) + b, keep_dataless) == run(s, a + b, keep_dataless),
{
    let mid = run(s, a, keep_dataless);
    let comments = repeat(c + seq![LF, LF], k);
    lemma_comment_frames_yield_nothing(mid.0, c, k, keep_dataless);
    lemma_run_concat(s, a, comments, keep_dataless);
    lemma_run_concat(s, a + comments, b, keep_dataless);
    lemma_run_concat(s, a, b, keep_dataless);
    assert(mid.1 + Seq::<RawEvent>::empty() =~= mid.1);
}

/// Every event of `out` is the text form of the raw event at the same place.
pub open spec fn decodes_all(out: Seq<SseEvent>, raws: Seq<RawEvent>) -> bool {
    &&& out.len() == raws.len()
    &&& forall|k: int| 0 <= k < out.len() ==> #[trigger] out[k].decodes(raws[k])
}

pub open spec fn opt_vec_view(o: Option<Vec<u8>>) -> Option<Seq<u8>> {
    match o {
        Some(v) => Some(v@),
        None => None,
    }
}

/// A decoder that can be fed the body of one response in chunks of any size.
pub struct Decoder {
    line: Vec<u8>,
    event: Option<Vec<u8>>,
    data: Option<Vec<u8>>,
    id: Option<Vec<u8>>,
    retry: Option<u64>,
    keep_dataless: bool,
}

impl View for Decoder {
    type V = DecoderView;

    closed spec fn view(&self) -> DecoderView {
        DecoderView {
            line: self.line@,
            frame: FrameFields {
                event: opt_vec_view(self.event),
                data: opt_vec_view(self.data),
                id: opt_vec_view(self.id),
                retry: match self.retry {
                    Some(r) => Some(r as nat),
                    None => None,
                },
            },
        }
    }
}

/// Copies `v[start..end]`.
fn copy_range(v: &Vec<u8>, start: usize, end: usize) -> (r: Vec<u8>)
    requires
        start <= end <= v@.len(),
    ensures
        r@ == v@.subrange(start as int, end as int),
{
    let mut r: Vec<u8> = Vec::new();
    let mut i: usize = start;
    while i < end
        invariant
            start <= i <= end <= v@.len(),
            r@ == v@.subrange(start as int, i as int),
        decreases end - i,
    {
        r.push(v[i]);
        i = i + 1;
        assert(r@ =~= v@.subrange(start as int, i as int));
    }
    r
}

/// Whether `v[..n]` is exactly `word`.
fn prefix_is(v: &Vec<u8>, n: usize, word: &Vec<u8>) -> (r: bool)
    requires
        n <= v@.len(),
    ensures
        r == (v@.take(n as int) == word@),
{
    if n != word.len() {
        assert(v@.take(n as int).len() != word@.len());
        return false;
    }
    let mut i: usize = 0;
    while i < n
        invariant
            n <= v@.len(),
            n == word@.len(),
            i <= n,
            forall|k: int| 0 <= k < i ==> v@[k] == word@[k],
        decreases n - i,
    {
        if v[i] != word[i] {
            assert(v@.take(n as int)[i as int] != word@[i as int]);
            return false;
        }
        i = i + 1;
    }
    assert(v@.take(n as int) =~= word@);
    true
}

/// Index of the first byte `b` in `v[..n]`, or `n` when there is none.
pub fn find_byte(v: &[u8], n: usize, b: u8) -> (r: usize)
    requires
        n <= v@.len(),
    ensures
        r == first_from(v@.take(n as int), b, 0),
{
    let ghost l = v@.take(n as int);
    let mut j: usize = 0;
    while j < n && v[j] != b
        invariant
            j <= n <= v@.len(),
            l == v@.take(n as int),
            first_from(l, b, j as nat) == first_from(l, b, 0),
        decreases n - j,
    {
        assert(l[j as int] == v@[j as int]);
        j = j + 1;
    }
    j
}

proof fn lemma_digits_value_grows(s: Seq<u8>, i: int, j: int)
    requires
        0 <= i <= j <= s.len(),
        all_digits(s),
    ensures
        digits_value(s.take(i)) <= digits_value(s.take(j)),
    decreases j - i,
{
    if i < j {
        lemma_digits_value_grows(s, i, j - 1);
        assert(s.take(j).drop_last() =~= s.take(j - 1));
    }
}

/// The number that `v` writes, if it is a run of ASCII digits that fits in a `u64`.
fn parse_digits(v: &Vec<u8>) -> (r: Option<u64>)
    ensures
        r is Some <==> (all_digits(v@) && digits_value(v@) <= u64::MAX),
        r is Some ==> r->0 as nat == digits_value(v@),
{
    let n = v.len();
    if n == 0 {
        return None;
    }
    let mut acc: u64 = 0;
    let mut i: usize = 0;
    assert(v@.take(0) =~= Seq::<u8>::empty());
    while i < n
        invariant
            n == v@.len(),
            i <= n,
            acc as nat == digits_value(v@.take(i as int)),
            forall|k: int| 0 <= k < i ==> 48 <= #[trigger] v@[k] <= 57,
        decreases n - i,
    {
        let b = v[i];
        if b < 48 || b > 57 {
            return None;
        }
        let d = (b - 48) as u64;
        assert(v@.take(i + 1).drop_last() =~= v@.take(i as int));
        if acc > (u64::MAX - d) / 10 {
            proof {
                assert(acc * 10 + d > u64::MAX) by (nonlinear_arith)
                    requires
                        acc > (u64::MAX - d) / 10,
                        d <= 9,
                ;
                assert(all_digits(v@) ==> digits_value(v@.take(i + 1)) > u64::MAX);
                if all_digits(v@) {
                    lemma_digits_value_grows(v@, i + 1, n as int);
                    assert(v@.take(n as int) =~= v@);
                }
            }
            return None;
        }
        assert(acc * 10 + d <= u64::MAX) by (nonlinear_arith)
            requires
                acc <= (u64::MAX - d) / 10,
                d <= 9,
        ;
        acc = acc * 10 + d;
        i = i + 1;
    }
    assert(v@.take(n as int) =~= v@);
    Some(acc)
}

/// `d`, a line feed, then `value`.
fn join_data(d: &Vec<u8>, value: Vec<u8>) -> (r: Vec<u8>)
    ensures
        r@ == d@.push(LF) + value@,
{
    let mut r = copy_range(d, 0, d.len());
    r.push(LF);
    let mut v = value;
    r.append(&mut v);
    assert(d@.subrange(0, d@.len() as int) =~= d@);
    r
}

impl Decoder {
    /// Whether a frame with an event type and no data is emitted, with empty data.
    pub closed spec fn keeps_dataless(&self) -> bool {
        self.keep_dataless
    }

    /// The reconnection time, in milliseconds, that the stream last asked for.
    pub fn reconnection_time(&self) -> (r: Option<u64>)
        ensures
            r is None <==> self@.frame.retry is None,
            r is Some ==> self@.frame.retry == Some(r->0 as nat),
    {
        self.retry
    }

    /// A decoder that drops frames without data.
    pub fn new() -> (r: Decoder)
        ensures
            r@ == fresh_view(),
            !r.keeps_dataless(),
    {
        Decoder {
            line: Vec::new(),
            event: None,
            data: None,
            id: None,
            retry: None,
            keep_dataless: false,
        }
    }

    /// A decoder that, when `keep_dataless` is set, also emits a frame that has an
    /// `event:` line and no data, with empty data.
    pub fn with_dataless_events(keep_dataless: bool) -> (r: Decoder)
        ensures
            r@ == fresh_view(),
            r.keeps_dataless() == keep_dataless,
    {
        Decoder { line: Vec::new(), event: None, data: None, id: None, retry: None, keep_dataless }
    }

    /// Ends the current frame: the event it yields, if any, and an empty frame.
    fn finish_frame(&mut self) -> (r: Option<SseEvent>)
        ensures
            final(self)@ == (DecoderView {
                line: old(self)@.line,
                frame: FrameFields { event: None, data: None, id: None, ..old(self)@.frame },
            }),
            final(self).keep_dataless == old(self).keep_dataless,
            r is None <==> dispatch(old(self)@.frame, old(self).keep_dataless) is None,
            r is Some ==> r->0.decodes(dispatch(old(self)@.frame, old(self).keep_dataless)->0),
    {
        let emit = match &self.data {
            Some(_) => true,
            None => self.keep_dataless && self.event.is_some(),
        };
        let r = if emit {
            let event_type = match &self.event {
                Some(e) => text_of(e),
                None => Some(String::from_str("message")),
            };
            let data = match &self.data {
                Some(d) => text_of(d),
                None => {
                    let empty: Vec<u8> = Vec::new();
                    assert(empty@ =~= Seq::<u8>::empty());
                    text_of(&empty)
                },
            };
            let id = match &self.id {
                Some(i) => match text_of(i) {
                    Some(t) => Some(Some(t)),
                    None => None,
                },
                None => Some(None),
            };
            match (event_type, data, id) {
                (Some(event_type), Some(data), Some(id)) => Some(SseEvent { event_type, data, id }),
                _ => None,
            }
        } else {
            None
        };
        self.event = None;
        self.data = None;
        self.id = None;
        r
    }

    /// Handles the complete line held in `line`, then empties it.
    fn end_line(&mut self) -> (r: Option<SseEvent>)
        ensures
            final(self)@ == (DecoderView {
                line: Seq::empty(),
                frame: apply_line(old(self)@.frame, old(self)@.line, old(self).keep_dataless).0,
            }),
            final(self).keep_dataless == old(self).keep_dataless,
            r is None <==> apply_line(
                old(self)@.frame,
                old(self)@.line,
                old(self).keep_dataless,
            ).1 is None,
            r is Some ==> r->0.decodes(
                apply_line(old(self)@.frame, old(self)@.line, old(self).keep_dataless).1->0,
            ),
    {
        let ghost line = self.line@;
        let mut n = self.line.len();
        if n > 0 && self.line[n - 1] == CR {
            n = n - 1;
        }
        let ghost l = strip_cr(line);
        assert(l =~= line.take(n as int));
        let r = if n == 0 {
            self.finish_frame()
        } else if self.line[0] == COLON {
            None
        } else {
            let c = find_byte(self.line.as_slice(), n, COLON);
            proof {
                lemma_first_from_bound(l, COLON, 0);
            }
            let start = if c < n {
                if c + 1 < n && self.line[c + 1] == SPACE {
                    c + 2
                } else {
                    c + 1
                }
            } else {
                n
            };
            assert(start == value_start(l));
            let value = copy_range(&self.line, start, n);
            assert(value@ =~= field_value(l));
            assert(field_name(l) =~= line.take(c as int));
            let event_w: Vec<u8> = vec![101u8, 118u8, 101u8, 110u8, 116u8];
            let data_w: Vec<u8> = vec![100u8, 97u8, 116u8, 97u8];
            let id_w: Vec<u8> = vec![105u8, 100u8];
            let retry_w: Vec<u8> = vec![114u8, 101u8, 116u8, 114u8, 121u8];
            assert(retry_w@ =~= retry_word());
            assert(event_w@ =~= event_word());
            assert(data_w@ =~= data_word());
            assert(id_w@ =~= id_word());
            if prefix_is(&self.line, c, &event_w) {
                self.event = Some(value);
            } else if prefix_is(&self.line, c, &data_w) {
                let joined = match &self.data {
                    Some(d) => join_data(d, value),
                    None => value,
                };
                self.data = Some(joined);
            } else if prefix_is(&self.line, c, &id_w) {
                self.id = Some(value);
            } else if prefix_is(&self.line, c, &retry_w) {
                match parse_digits(&value) {
                    Some(ms) => {
                        self.retry = Some(ms);
                    },
                    None => {},
                }
            }
            None
        };
        self.line = Vec::new();
        r
    }

    /// Reads one more chunk of the body and returns the events that it completes,
    /// in order. An unfinished line or frame is kept for the next chunk.
    pub fn feed(&mut self, chunk: &[u8]) -> (r: Vec<SseEvent>)
        ensures
            final(self)@ == run(old(self)@, chunk@, old(self).keeps_dataless()).0,
            decodes_all(r@, run(old(self)@, chunk@, old(self).keeps_dataless()).1),
            final(self).keeps_dataless() == old(self).keeps_dataless(),
    {
        let ghost keep = self.keep_dataless;
        let ghost start = self@;
        let mut out: Vec<SseEvent> = Vec::new();
        let ghost mut raws: Seq<RawEvent> = Seq::empty();
        let mut i: usize = 0;
        assert(chunk@.take(0) =~= Seq::<u8>::empty());
        while i < chunk.len()
            invariant
                i <= chunk@.len(),
                self.keep_dataless == keep,
                keep == old(self).keep_dataless,
                start == old(self)@,
                (self@, raws) == run(start, chunk@.take(i as int), keep),
                decodes_all(out@, raws),
            decreases chunk@.len() - i,
        {
            let b = chunk[i];
            let ghost before = self@;
            let ghost before_raws = raws;
            let ghost before_out = out@;
            assert(chunk@.take(i + 1).drop_last() =~= chunk@.take(i as int));
            assert(chunk@.take(i + 1).last() == b);
            if b == LF {
                let e = self.end_line();
                proof {
                    raws = raws + opt_seq(apply_line(before.frame, before.line, keep).1);
                }
                match e {
                    Some(x) => {
                        out.push(x);
                    },
                    None => {},
                }
                assert(decodes_all(out@, raws)) by {
                    assert forall|k: int| 0 <= k < out@.len() implies #[trigger] out@[k].decodes(
                        raws[k],
                    ) by {
                        if k < before_out.len() {
                            assert(out@[k] == before_out[k]);
                            assert(raws[k] == before_raws[k]);
                        }
                    }
                }
            } else {
                self.line.push(b);
                assert(raws =~= before_raws + opt_seq(None));
            }
            i = i + 1;
        }
        assert(chunk@.take(chunk@.len() as int) =~= chunk@);
        out
    }
}

} // verus!
