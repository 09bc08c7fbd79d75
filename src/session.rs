//! What one connection attempt checks before it streams events.
use vstd::prelude::*;
use crate::decoder::{find_byte, first_from, lemma_first_from_bound};

verus! {

pub const SEMICOLON: u8 = 59;

/// The media type `text/event-stream`, in lower case.
pub open spec fn event_stream_type() -> Seq<u8> {
    seq![
        116u8, 101u8, 120u8, 116u8, 47u8, 101u8, 118u8, 101u8, 110u8, 116u8, 45u8, 115u8,
        116u8, 114u8, 101u8, 97u8, 109u8,
    ]
}

/// A byte with ASCII upper case turned to lower case.
pub open spec fn ascii_lower(b: u8) -> u8 {
    if 65 <= b <= 90 {
        (b + 32) as u8
    } else {
        b
    }
}

/// Whether a byte is a space or a horizontal tab.
pub open spec fn is_blank(b: u8) -> bool {
    b == 32 || b == 9
}

/// Index of the first byte at or after `k` that is not blank, or the length.
pub open spec fn skip_blanks(s: Seq<u8>, k: nat) -> nat
    decreases s.len() - k,
{
    if k >= s.len() {
        s.len()
    } else if is_blank(s[k as int]) {
        skip_blanks(s, k + 1)
    } else {
        k
    }
}

/// The length of `s.take(k)` without its trailing blanks.
pub open spec fn trim_end(s: Seq<u8>, k: nat) -> nat
    decreases k,
{
    if k == 0 || k > s.len() {
        k
    } else if is_blank(s[k - 1]) {
        trim_end(s, (k - 1) as nat)
    } else {
        k
    }
}

/// `s` without leading and trailing spaces and tabs.
pub open spec fn trim_blanks(s: Seq<u8>) -> Seq<u8> {
    let start = skip_blanks(s, 0);
    let end = trim_end(s, s.len());
    if start < end {
        s.subrange(start as int, end as int)
    } else {
        Seq::empty()
    }
}

/// The media type of a `Content-Type` value: what stands before the first `;`,
/// without surrounding spaces and tabs.
pub open spec fn media_type(content_type: Seq<u8>) -> Seq<u8> {
    trim_blanks(content_type.take(first_from(content_type, SEMICOLON, 0) as int))
}

/// Whether a `Content-Type` value names `text/event-stream`, in any letter case,
/// with or without parameters.
pub open spec fn is_event_stream(content_type: Seq<u8>) -> bool {
    let m = media_type(content_type);
    &&& m.len() == event_stream_type().len()
    &&& forall|i: int| 0 <= i < m.len() ==> ascii_lower(#[trigger] m[i]) == event_stream_type()[i]
}

/// Whether an HTTP status is a success (2xx).
pub open spec fn is_success(status: u16) -> bool {
    200 <= status < 300
}

/// How a response to the subscription request is judged.
#[derive(Clone, Copy, Debug, PartialEq, Eq, Structural)]
pub enum ResponseCheck {
    /// The connection is open: events follow.
    Accepted,
    /// The status was not a success.
    InvalidStatus,
    /// The body is not an event stream, or says nothing of its type.
    InvalidContentType,
}

pub open spec fn spec_check_response(status: u16, content_type: Option<Seq<u8>>) -> ResponseCheck {
    if !is_success(status) {
        ResponseCheck::InvalidStatus
    } else {
        match content_type {
            Some(c) => if is_event_stream(c) {
                ResponseCheck::Accepted
            } else {
                ResponseCheck::InvalidContentType
            },
            None => ResponseCheck::InvalidContentType,
        }
    }
}

fn lower_byte(b: u8) -> (r: u8)
    ensures
        r == ascii_lower(b),
{
    if 65 <= b && b <= 90 {
        b + 32
    } else {
        b
    }
}

/// Whether `content_type` names `text/event-stream`.
pub fn names_event_stream(content_type: &[u8]) -> (r: bool)
    ensures
        r == is_event_stream(content_type@),
{
    let semi = find_byte(content_type, content_type.len(), SEMICOLON);
    proof {
        assert(content_type@.take(content_type@.len() as int) =~= content_type@);
        lemma_first_from_bound(content_type@, SEMICOLON, 0);
    }
    let ghost t = content_type@.take(semi as int);
    let mut start: usize = 0;
    while start < semi && (content_type[start] == 32 || content_type[start] == 9)
        invariant
            start <= semi <= content_type@.len(),
            t == content_type@.take(semi as int),
            skip_blanks(t, start as nat) == skip_blanks(t, 0),
        decreases semi - start,
    {
        assert(t[start as int] == content_type@[start as int]);
        start = start + 1;
    }
    let mut end: usize = semi;
    while end > 0 && (content_type[end - 1] == 32 || content_type[end - 1] == 9)
        invariant
            end <= semi <= content_type@.len(),
            t == content_type@.take(semi as int),
            t.len() == semi,
            trim_end(t, end as nat) == trim_end(t, t.len()),
        decreases end,
    {
        assert(t[end - 1] == content_type@[end - 1]);
        end = end - 1;
    }
    if start < semi {
        assert(t[start as int] == content_type@[start as int]);
    }
    if end > 0 {
        assert(t[end - 1] == content_type@[end - 1]);
    }
    assert(start as nat == skip_blanks(t, 0));
    assert(end as nat == trim_end(t, t.len()));
    let ghost m = media_type(content_type@);
    let word: Vec<u8> = vec![
        116u8, 101u8, 120u8, 116u8, 47u8, 101u8, 118u8, 101u8, 110u8, 116u8, 45u8, 115u8,
        116u8, 114u8, 101u8, 97u8, 109u8,
    ];
    assert(word@ =~= event_stream_type());
    if start >= end {
        assert(m.len() == 0);
        return false;
    }
    assert(m =~= content_type@.subrange(start as int, end as int));
    if end - start != word.len() {
        return false;
    }
    let mut i: usize = 0;
    while i < word.len()
        invariant
            start < end <= content_type@.len(),
            end - start == word@.len(),
            m == content_type@.subrange(start as int, end as int),
            m == media_type(content_type@),
            word@ == event_stream_type(),
            i <= word@.len(),
            forall|k: int| 0 <= k < i ==> ascii_lower(#[trigger] m[k]) == event_stream_type()[k],
        decreases word@.len() - i,
    {
        assert(m[i as int] == content_type@[start + i]);
        if lower_byte(content_type[start + i]) != word[i] {
            assert(ascii_lower(m[i as int]) != event_stream_type()[i as int]);
            return false;
        }
        i = i + 1;
    }
    true
}

/// Judges the response to a subscription request from its status and its
/// `Content-Type` header, if it has one.
pub fn check_response(status: u16, content_type: Option<&[u8]>) -> (r: ResponseCheck)
    ensures
        r == spec_check_response(
            status,
            match content_type {
                Some(c) => Some(c@),
                None => None,
            },
        ),
{
    if !(200 <= status && status < 300) {
        return ResponseCheck::InvalidStatus;
    }
    match content_type {
        Some(c) => if names_event_stream(c) {
            ResponseCheck::Accepted
        } else {
            ResponseCheck::InvalidContentType
        },
        None => ResponseCheck::InvalidContentType,
    }
}

} // verus!
