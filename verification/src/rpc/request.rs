//! Reads what a client sent, mending what shells do to quotes.

use vstd::prelude::*;
use vstd::slice::{slice_subrange, slice_to_vec};

verus! {

/// The largest body of a request.
pub const MAX_REQUEST_BODY: usize = 1_048_576;

/// Whether a byte is white space, or zero.
pub open spec fn is_blank(b: u8) -> bool {
    b == 0x20 || b == 0x09 || b == 0x0a || b == 0x0c || b == 0x0d || b == 0
}

/// What follows the blanks at the front.
pub open spec fn without_front(body: Seq<u8>) -> Seq<u8>
    decreases body.len(),
{
    if body.len() > 0 && is_blank(body[0]) {
        without_front(body.skip(1))
    } else {
        body
    }
}

/// What stands before the blanks at the end.
pub open spec fn without_back(body: Seq<u8>) -> Seq<u8>
    decreases body.len(),
{
    if body.len() > 0 && is_blank(body.last()) {
        without_back(body.drop_last())
    } else {
        body
    }
}

/// A body without blanks around it.
pub open spec fn trimmed(body: Seq<u8>) -> Seq<u8> {
    without_back(without_front(body))
}

/// A body without zero bytes.
pub open spec fn without_zeros(body: Seq<u8>) -> Seq<u8>
    decreases body.len(),
{
    if body.len() == 0 {
        Seq::empty()
    } else {
        let rest = without_zeros(body.drop_last());
        if body.last() == 0 {
            rest
        } else {
            rest.push(body.last())
        }
    }
}

/// Whether the first name in an object, or in the first object of a list, has its quote
/// escaped.
pub open spec fn looks_escaped(body: Seq<u8>) -> bool {
    ||| body.len() >= 3 && body[0] == 0x7b && body[1] == 0x5c && body[2] == 0x22
    ||| body.len() >= 4 && body[0] == 0x5b && body[1] == 0x7b && body[2] == 0x5c && body[3] == 0x22
}

/// A body from `i` on with plain quotes for escaped ones.
pub open spec fn unescaped_from(body: Seq<u8>, i: int) -> Seq<u8>
    decreases body.len() - i,
{
    if i < 0 || i >= body.len() {
        Seq::empty()
    } else if body[i] == 0x5c && i + 1 < body.len() && body[i + 1] == 0x22 {
        seq![0x22u8] + unescaped_from(body, i + 2)
    } else {
        seq![body[i]] + unescaped_from(body, i + 1)
    }
}

/// What a body whose quotes are escaped is meant to be.
pub open spec fn unescaped(body: Seq<u8>) -> Option<Seq<u8>> {
    let t = trimmed(body);
    if looks_escaped(t) {
        Some(unescaped_from(t, 0))
    } else {
        None
    }
}

/// What a body with backslashes in place of quotes is meant to be.
pub open spec fn requoted(body: Seq<u8>) -> Option<Seq<u8>> {
    if body.contains(0x22u8) || !body.contains(0x5cu8) {
        None
    } else {
        Some(
            Seq::new(
                body.len(),
                |i: int|
                    if body[i] == 0x5c {
                        0x22u8
                    } else {
                        body[i]
                    },
            ),
        )
    }
}

/// Whether a byte opens an object or a list.
pub open spec fn opens(b: u8) -> bool {
    b == 0x7b || b == 0x5b
}

/// Whether a byte closes an object or a list.
pub open spec fn closes(b: u8) -> bool {
    b == 0x7d || b == 0x5d
}

/// Whether the first byte that opens something is at `start`.
pub open spec fn first_opening(body: Seq<u8>, start: int) -> bool {
    0 <= start < body.len() && opens(body[start]) && forall|i: int|
        0 <= i < start ==> !opens(#[trigger] body[i])
}

/// Whether the last byte that closes something is at `end`.
pub open spec fn last_closing(body: Seq<u8>, end: int) -> bool {
    0 <= end < body.len() && closes(body[end]) && forall|i: int|
        end < i < body.len() ==> !closes(#[trigger] body[i])
}

/// Whether a part of a body reaches from the first byte that opens something to the last
/// that closes something.
pub open spec fn is_extract(body: Seq<u8>, part: Seq<u8>) -> bool {
    exists|start: int, end: int|
        start < end && first_opening(body, start) && last_closing(body, end) && part
            == #[trigger] body.subrange(start, end + 1)
}

/// The part of a body from the first byte that opens something to the last that closes
/// something.
pub open spec fn extracted(body: Seq<u8>) -> Option<Seq<u8>> {
    if exists|part: Seq<u8>| is_extract(body, part) {
        Some(choose|part: Seq<u8>| is_extract(body, part))
    } else {
        None
    }
}

/// There is one such part.
pub proof fn lemma_extract_once(body: Seq<u8>, a: Seq<u8>, b: Seq<u8>)
    requires
        is_extract(body, a),
        is_extract(body, b),
    ensures
        a == b,
{
    let (s, e) = choose|s: int, e: int|
        s < e && first_opening(body, s) && last_closing(body, e) && a == #[trigger] body.subrange(
            s,
            e + 1,
        );
    let (t, f) = choose|t: int, f: int|
        t < f && first_opening(body, t) && last_closing(body, f) && b == #[trigger] body.subrange(
            t,
            f + 1,
        );
    if s < t {
        assert(!opens(body[s]));
    } else if t < s {
        assert(!opens(body[t]));
    }
    if e < f {
        assert(!closes(body[f]));
    } else if f < e {
        assert(!closes(body[e]));
    }
}

/// What a text is as JSON, as `serde_json` reads it: nothing where it is none; where it is
/// a string, the bytes of that string.
pub uninterp spec fn json_shape(text: Seq<u8>) -> Option<Option<Seq<u8>>>;

/// The outcome of reading a text.
pub enum ReadingView {
    /// This is the request.
    Request(Seq<u8>),
    /// There is no request.
    Fault,
    /// Another text may be tried.
    Unread,
}

/// A text with a shape is the request; a string holds the request; `inner` says whether
/// the string is JSON.
pub open spec fn settled(
    text: Seq<u8>,
    shape: Option<Option<Seq<u8>>>,
    inner: bool,
) -> ReadingView {
    match shape {
        None => ReadingView::Unread,
        Some(None) => ReadingView::Request(text),
        Some(Some(string)) => if inner {
            ReadingView::Request(string)
        } else {
            ReadingView::Fault
        },
    }
}

/// What reading a text leads to.
pub open spec fn reading(text: Seq<u8>) -> ReadingView {
    settled(
        text,
        json_shape(text),
        json_shape(text) matches Some(Some(string)) && json_shape(string) is Some,
    )
}

/// A text, if it is there and is JSON.
pub open spec fn if_json(text: Option<Seq<u8>>) -> Option<Seq<u8>> {
    match text {
        Some(t) => if json_shape(t) is Some {
            Some(t)
        } else {
            None
        },
        None => None,
    }
}

/// The first of two that is there.
pub open spec fn or_else(a: Option<Seq<u8>>, b: Option<Seq<u8>>) -> Option<Seq<u8>> {
    if a is Some {
        a
    } else {
        b
    }
}

/// A text that is mended, if it is JSON then.
pub open spec fn mended(text: Seq<u8>) -> Option<Seq<u8>> {
    or_else(if_json(unescaped(text)), if_json(requoted(text)))
}

/// The request in the body of a message: the body, or what it is once it is mended.
pub open spec fn request_in(body: Seq<u8>) -> Option<Seq<u8>> {
    let first = trimmed(body);
    match reading(first) {
        ReadingView::Request(text) => Some(text),
        ReadingView::Fault => None,
        ReadingView::Unread => {
            let second = without_zeros(first);
            match reading(second) {
                ReadingView::Request(text) => Some(text),
                ReadingView::Fault => None,
                ReadingView::Unread => or_else(
                    mended(second),
                    match extracted(second) {
                        Some(part) => or_else(if_json(Some(part)), mended(part)),
                        None => None,
                    },
                ),
            }
        },
    }
}

/// A body that is JSON, and no string, is the request as it stands.
pub proof fn lemma_json_is_taken_as_it_stands(body: Seq<u8>)
    requires
        trimmed(body) == body,
        json_shape(body) == Some(None::<Seq<u8>>),
    ensures
        request_in(body) == Some(body),
{
}

/// A request is JSON.
pub proof fn lemma_request_is_json(body: Seq<u8>)
    ensures
        request_in(body) matches Some(text) ==> json_shape(text) is Some,
{
}

/// The outcome of reading a text.
pub enum Reading {
    /// This is the request.
    Request(Vec<u8>),
    /// There is no request.
    Fault,
    /// Another text may be tried.
    Unread,
}

impl View for Reading {
    type V = ReadingView;

    open spec fn view(&self) -> ReadingView {
        match self {
            Reading::Request(text) => ReadingView::Request(text@),
            Reading::Fault => ReadingView::Fault,
            Reading::Unread => ReadingView::Unread,
        }
    }
}

/// The bytes in an optional text.
pub open spec fn text_of(r: Option<Vec<u8>>) -> Option<Seq<u8>> {
    match r {
        Some(v) => Some(v@),
        None => None,
    }
}

/// The bytes in a shape.
pub open spec fn shape_of(r: Option<Option<Vec<u8>>>) -> Option<Option<Seq<u8>>> {
    match r {
        Some(s) => Some(text_of(s)),
        None => None,
    }
}

/// `serde_json::from_slice` into a `serde_json::Value`: whether the text is JSON, and the
/// bytes of the string where it is a string. What counts as JSON is left to that function.
#[verifier::external_body]
fn read_json(text: &[u8]) -> (r: Option<Option<Vec<u8>>>)
    ensures
        shape_of(r) == json_shape(text@),
{
    match serde_json::from_slice::<serde_json::Value>(text) {
        Ok(serde_json::Value::String(s)) => Some(Some(s.into_bytes())),
        Ok(_) => Some(None),
        Err(_) => None,
    }
}

/// Says what a text with a shape leads to.
pub fn settle(text: &[u8], shape: Option<Option<Vec<u8>>>, inner: bool) -> (r: Reading)
    ensures
        r@ == settled(text@, shape_of(shape), inner),
{
    match shape {
        None => Reading::Unread,
        Some(None) => Reading::Request(slice_to_vec(text)),
        Some(Some(string)) => {
            if inner {
                Reading::Request(string)
            } else {
                Reading::Fault
            }
        },
    }
}

fn read(text: &[u8]) -> (r: Reading)
    ensures
        r@ == reading(text@),
{
    let shape = read_json(text);
    let inner: bool = match &shape {
        Some(Some(string)) => read_json(string.as_slice()).is_some(),
        _ => false,
    };
    settle(text, shape, inner)
}

fn blank(b: u8) -> (r: bool)
    ensures
        r == is_blank(b),
{
    b == 0x20 || b == 0x09 || b == 0x0a || b == 0x0c || b == 0x0d || b == 0
}

/// The body without blanks around it.
pub fn trim_body(body: &[u8]) -> (r: &[u8])
    ensures
        r@ == trimmed(body@),
{
    let mut start: usize = 0;
    let len: usize = body.len();
    assert(body@.skip(0) =~= body@);
    while start < len && blank(body[start])
        invariant
            start <= len == body@.len(),
            without_front(body@) == without_front(body@.skip(start as int)),
        decreases len - start,
    {
        assert(body@.skip(start as int).skip(1) =~= body@.skip(start + 1));
        start += 1;
    }
    let ghost front = without_front(body@);
    assert(front == body@.skip(start as int));
    let mut end: usize = len;
    assert(body@.subrange(start as int, end as int) =~= front);
    while end > start && blank(body[end - 1])
        invariant
            start <= end <= len == body@.len(),
            without_back(front) == without_back(body@.subrange(start as int, end as int)),
        decreases end,
    {
        assert(body@.subrange(start as int, end as int).drop_last() =~= body@.subrange(
            start as int,
            end - 1,
        ));
        end -= 1;
    }
    slice_subrange(body, start, end)
}

/// The body without zero bytes.
pub fn remove_zeros(body: &[u8]) -> (r: Vec<u8>)
    ensures
        r@ == without_zeros(body@),
{
    let mut out: Vec<u8> = Vec::new();
    let mut i: usize = 0;
    let len: usize = body.len();
    while i < len
        invariant
            i <= len == body@.len(),
            out@ == without_zeros(body@.take(i as int)),
        decreases len - i,
    {
        assert(body@.take(i + 1).drop_last() =~= body@.take(i as int));
        if body[i] != 0 {
            out.push(body[i]);
        }
        i += 1;
    }
    assert(body@.take(i as int) =~= body@);
    out
}

/// Mends a body whose quotes are escaped.
pub fn unescape_quotes(body: &[u8]) -> (r: Option<Vec<u8>>)
    ensures
        text_of(r) == unescaped(body@),
{
    let t = trim_body(body);
    let len: usize = t.len();
    let object: bool = len >= 3 && t[0] == 0x7b && t[1] == 0x5c && t[2] == 0x22;
    let list: bool = len >= 4 && t[0] == 0x5b && t[1] == 0x7b && t[2] == 0x5c && t[3] == 0x22;
    if !object && !list {
        return None;
    }
    let mut cleaned: Vec<u8> = Vec::new();
    let mut i: usize = 0;
    assert(cleaned@ + unescaped_from(t@, 0) =~= unescaped_from(t@, 0));
    while i < len
        invariant
            i <= len == t@.len(),
            cleaned@ + unescaped_from(t@, i as int) == unescaped_from(t@, 0),
        decreases len - i,
    {
        let ghost before = cleaned@;
        let ghost k = i as int;
        if t[i] == 0x5c && i + 1 < len && t[i + 1] == 0x22 {
            cleaned.push(0x22);
            i += 2;
            assert(cleaned@ + unescaped_from(t@, k + 2) =~= before + unescaped_from(t@, k));
        } else {
            cleaned.push(t[i]);
            i += 1;
            assert(cleaned@ + unescaped_from(t@, k + 1) =~= before + unescaped_from(t@, k));
        }
    }
    assert(cleaned@ =~= cleaned@ + unescaped_from(t@, i as int));
    Some(cleaned)
}

fn has_byte(body: &[u8], b: u8) -> (r: bool)
    ensures
        r == body@.contains(b),
{
    let mut i: usize = 0;
    let len: usize = body.len();
    while i < len
        invariant
            i <= len == body@.len(),
            forall|k: int| 0 <= k < i ==> body@[k] != b,
        decreases len - i,
    {
        if body[i] == b {
            assert(body@[i as int] == b);
            return true;
        }
        i += 1;
    }
    false
}

/// Mends a body with backslashes in place of quotes.
pub fn requote(body: &[u8]) -> (r: Option<Vec<u8>>)
    ensures
        text_of(r) == requoted(body@),
{
    if has_byte(body, 0x22) || !has_byte(body, 0x5c) {
        return None;
    }
    let mut cleaned: Vec<u8> = Vec::new();
    let mut i: usize = 0;
    let len: usize = body.len();
    while i < len
        invariant
            i <= len == body@.len(),
            cleaned@.len() == i,
            forall|k: int|
                0 <= k < i ==> #[trigger] cleaned@[k] == (if body@[k] == 0x5c {
                    0x22u8
                } else {
                    body@[k]
                }),
        decreases len - i,
    {
        cleaned.push(
            if body[i] == 0x5c {
                0x22
            } else {
                body[i]
            },
        );
        i += 1;
    }
    assert(Some(cleaned@) =~~= requoted(body@));
    Some(cleaned)
}

fn find_opening(body: &[u8]) -> (r: Option<usize>)
    ensures
        match r {
            Some(i) => first_opening(body@, i as int),
            None => forall|i: int| 0 <= i < body@.len() ==> !opens(#[trigger] body@[i]),
        },
{
    let mut i: usize = 0;
    let len: usize = body.len();
    while i < len
        invariant
            i <= len == body@.len(),
            forall|k: int| 0 <= k < i ==> !opens(#[trigger] body@[k]),
        decreases len - i,
    {
        if body[i] == 0x7b || body[i] == 0x5b {
            return Some(i);
        }
        i += 1;
    }
    None
}

fn find_closing(body: &[u8]) -> (r: Option<usize>)
    ensures
        match r {
            Some(i) => last_closing(body@, i as int),
            None => forall|i: int| 0 <= i < body@.len() ==> !closes(#[trigger] body@[i]),
        },
{
    let mut i: usize = body.len();
    while i > 0
        invariant
            i <= body@.len(),
            forall|k: int| i <= k < body@.len() ==> !closes(#[trigger] body@[k]),
        decreases i,
    {
        if body[i - 1] == 0x7d || body[i - 1] == 0x5d {
            return Some(i - 1);
        }
        i -= 1;
    }
    None
}

/// The part of a body from the first byte that opens something to the last that closes
/// something.
pub fn extract(body: &[u8]) -> (r: Option<&[u8]>)
    ensures
        match r {
            Some(part) => extracted(body@) == Some(part@),
            None => extracted(body@) is None,
        },
{
    let start: usize = match find_opening(body) {
        Some(i) => i,
        None => return None,
    };
    let end: usize = match find_closing(body) {
        Some(i) => i,
        None => return None,
    };
    if end <= start {
        proof {
            if exists|part: Seq<u8>| is_extract(body@, part) {
                let part = choose|part: Seq<u8>| is_extract(body@, part);
                let (s, e) = choose|s: int, e: int|
                    s < e && first_opening(body@, s) && last_closing(body@, e) && part
                        == #[trigger] body@.subrange(s, e + 1);
                if s < start {
                    assert(!opens(body@[s]));
                } else if start < s {
                    assert(!opens(body@[start as int]));
                }
                if e < end {
                    assert(!closes(body@[end as int]));
                } else if end < e {
                    assert(!closes(body@[e]));
                }
            }
        }
        return None;
    }
    let len: usize = body.len();
    assert(end < len);
    let part = slice_subrange(body, start, end + 1);
    proof {
        assert(part@ == body@.subrange(start as int, end as int + 1));
        assert(is_extract(body@, part@));
        lemma_extract_once(body@, part@, choose|p: Seq<u8>| is_extract(body@, p));
    }
    Some(part)
}

fn keep_json(text: Option<Vec<u8>>) -> (r: Option<Vec<u8>>)
    ensures
        text_of(r) == if_json(text_of(text)),
{
    match text {
        Some(t) => {
            if read_json(t.as_slice()).is_some() {
                Some(t)
            } else {
                None
            }
        },
        None => None,
    }
}

fn mend(text: &[u8]) -> (r: Option<Vec<u8>>)
    ensures
        text_of(r) == mended(text@),
{
    match keep_json(unescape_quotes(text)) {
        Some(t) => Some(t),
        None => keep_json(requote(text)),
    }
}

/// Finds the request in the body of a message.
pub fn find_request(body: &[u8]) -> (r: Option<Vec<u8>>)
    ensures
        text_of(r) == request_in(body@),
{
    let first = trim_body(body);
    match read(first) {
        Reading::Request(text) => return Some(text),
        Reading::Fault => return None,
        Reading::Unread => {},
    }
    let second = remove_zeros(first);
    let second = second.as_slice();
    match read(second) {
        Reading::Request(text) => return Some(text),
        Reading::Fault => return None,
        Reading::Unread => {},
    }
    match mend(second) {
        Some(text) => return Some(text),
        None => {},
    }
    match extract(second) {
        Some(part) => {
            if read_json(part).is_some() {
                Some(slice_to_vec(part))
            } else {
                mend(part)
            }
        },
        None => None,
    }
}

} // verus!
