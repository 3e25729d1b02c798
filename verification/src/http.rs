//! Requests and responses on a connection: as much of HTTP/1.1 as the service needs.
//!
//! Of a request only the target, the `Content-Length` and the body count. Bytes behind a request
//! belong to the next one on the same connection.

use vstd::prelude::*;
use crate::text;
use crate::wire;

verus! {

/// Whether the blank line that ends a head begins at position `p`.
pub open spec fn head_ends(b: Seq<u8>, p: int) -> bool {
    &&& 0 <= p
    &&& p + 4 <= b.len()
    &&& b[p] == '\r' as u8
    &&& b[p + 1] == '\n' as u8
    &&& b[p + 2] == '\r' as u8
    &&& b[p + 3] == '\n' as u8
}

/// The first position at or behind `i` where a head ends; the length if there is none.
pub open spec fn blank_line(b: Seq<u8>, i: int) -> int
    decreases b.len() - i,
{
    if 0 <= i < b.len() {
        if head_ends(b, i) {
            i
        } else {
            blank_line(b, i + 1)
        }
    } else {
        b.len() as int
    }
}

pub proof fn lemma_blank_line(b: Seq<u8>, i: int)
    requires
        0 <= i <= b.len(),
    ensures
        i <= blank_line(b, i) <= b.len(),
        blank_line(b, i) < b.len() ==> head_ends(b, blank_line(b, i)),
        forall|p: int| i <= p < blank_line(b, i) ==> !head_ends(b, p),
    decreases b.len() - i,
{
    if i < b.len() && !head_ends(b, i) {
        lemma_blank_line(b, i + 1);
    }
}

/// Finds the blank line that ends a head, where the bytes in front of `from` were searched before:
/// no more than its first three bytes can stand there.
pub fn find_crlf2(b: &[u8], from: usize) -> (p: Option<usize>)
    requires
        b@.len() >= 4 ==> from <= b@.len() + 3,
    ensures
        ({
            let start: int = if from < 3 {
                0
            } else {
                from - 3
            };
            let at = blank_line(b@, start);
            match p {
                Some(p) => p == at && head_ends(b@, at),
                None => at == b@.len(),
            }
        }),
        p matches Some(p) ==> {
            &&& p + 4 <= b@.len()
            &&& p + 3 >= from
            &&& b@[p as int] == 13 && b@[p + 1] == 10 && b@[p + 2] == 13 && b@[p + 3] == 10
        },
        forall|q: int|
            0 <= q && from <= q + 3 && q + 3 < b@.len() && #[trigger] b@[q] == 13 && b@[q + 1] == 10
                && b@[q + 2] == 13 && b@[q + 3] == 10 ==> p is Some && p->0 <= q,
{
    if b.len() < 4 {
        proof {
            if from < 3 || from - 3 <= b@.len() {
                lemma_blank_line(
                    b@,
                    if from < 3 {
                        0
                    } else {
                        from - 3
                    },
                );
            }
        }
        return None;
    }
    let start: usize = if from < 3 {
        0
    } else {
        from - 3
    };
    let mut i: usize = start;
    while i < b.len()
        invariant
            start == (if from < 3 {
                0
            } else {
                from - 3
            }),
            start <= i <= b@.len(),
            forall|q: int| start <= q < i ==> !head_ends(b@, q),
            blank_line(b@, start as int) == blank_line(b@, i as int),
        decreases b@.len() - i,
    {
        if b.len() - i >= 4 && b[i] == '\r' as u8 && b[i + 1] == '\n' as u8 && b[i + 2]
            == '\r' as u8 && b[i + 3] == '\n' as u8 {
            assert forall|q: int|
                0 <= q && from <= q + 3 && q + 3 < b@.len() && #[trigger] b@[q] == 13 && b@[q + 1]
                    == 10 && b@[q + 2] == 13 && b@[q + 3] == 10 implies i <= q by {
                assert(head_ends(b@, q));
            }
            return Some(i);
        }
        i = i + 1;
    }
    assert forall|q: int|
        0 <= q && from <= q + 3 && q + 3 < b@.len() && #[trigger] b@[q] == 13 && b@[q + 1] == 10
            && b@[q + 2] == 13 && b@[q + 3] == 10 implies false by {
        assert(head_ends(b@, q));
    }
    None
}

/// The first position at or behind `i` that holds neither a space nor a tab.
pub open spec fn past_blanks(b: Seq<u8>, i: int) -> int
    decreases b.len() - i,
{
    if 0 <= i < b.len() && (b[i] == ' ' as u8 || b[i] == '\t' as u8) {
        past_blanks(b, i + 1)
    } else {
        i
    }
}

/// Whether a `Content-Length` header, in capitals or not, begins behind the line end at position
/// `i`.
pub open spec fn declares_length(head: Seq<u8>, i: int) -> bool {
    &&& 0 <= i
    &&& i + 15 < head.len()
    &&& head[i] == '\n' as u8
    &&& head.subrange(i + 1, i + 15).map_values(|c: u8| text::lower(c)) == text::bytes_of(
        "content-length",
    )
    &&& head[i + 15] == ':' as u8
}

/// The first position at or behind `i` with such a header; the length if there is none.
pub open spec fn length_header(head: Seq<u8>, i: int) -> int
    decreases head.len() - i,
{
    if 0 <= i < head.len() {
        if declares_length(head, i) {
            i
        } else {
            length_header(head, i + 1)
        }
    } else {
        head.len() as int
    }
}

/// The length that a head declares: that of the first such header, and zero without one.
pub open spec fn declared_length(head: Seq<u8>) -> nat {
    let i = length_header(head, 0);
    if i < head.len() {
        let j = past_blanks(head, i + 16);
        wire::decimal(head.subrange(j, wire::past_digits(head, j)))
    } else {
        0
    }
}

/// Compares `head[s..s + key.len()]` with `key` without regard to case.
fn matches_without_case(head: &[u8], s: usize, key: &[u8]) -> (same: bool)
    requires
        s + key@.len() <= head@.len(),
    ensures
        same == (head@.subrange(s as int, s + key@.len()).map_values(|c: u8| text::lower(c))
            == key@),
{
    let ghost part = head@.subrange(s as int, s + key@.len()).map_values(|c: u8| text::lower(c));
    assert(head.len() == head@.len());
    let end: usize = s + key.len();
    let mut k: usize = 0;
    while k < key.len()
        invariant
            s + key@.len() == end <= head@.len(),
            k <= key@.len(),
            part == head@.subrange(s as int, s + key@.len()).map_values(|c: u8| text::lower(c)),
            forall|j: int| 0 <= j < k ==> part[j] == key@[j],
        decreases key@.len() - k,
    {
        let c: u8 = head[s + k];
        let small: u8 = if 'A' as u8 <= c && c <= 'Z' as u8 {
            c + 32
        } else {
            c
        };
        assert(part[k as int] == small);
        if small != key[k] {
            return false;
        }
        k = k + 1;
    }
    assert(part =~= key@);
    true
}

/// The position of the `Content-Length` header in a head; the length if there is none.
fn find_length_header(head: &[u8]) -> (i: usize)
    ensures
        i == length_header(head@, 0),
        i <= head@.len(),
        i < head@.len() ==> declares_length(head@, i as int),
{
    let key: &[u8] = "content-length".as_bytes();
    proof {
        reveal_strlit("content-length");
        vstd::string::is_ascii_spec_bytes("content-length");
    }
    let mut i: usize = 0;
    while i < head.len()
        invariant
            i <= head@.len(),
            key@ == text::bytes_of("content-length"),
            key@.len() == 14,
            length_header(head@, 0) == length_header(head@, i as int),
        decreases head@.len() - i,
    {
        if head.len() - i > 15 && head[i] == '\n' as u8 && matches_without_case(head, i + 1, key)
            && head[i + 15] == ':' as u8 {
            return i;
        }
        i = i + 1;
    }
    i
}

/// The length of the body that a head declares, if it fits.
pub fn try_content_length(head: &[u8]) -> (length: Option<usize>)
    ensures
        match length {
            Some(n) => n == declared_length(head@),
            None => declared_length(head@) > usize::MAX,
        },
{
    let at: usize = find_length_header(head);
    if at == head.len() {
        return Some(0);
    }
    let mut j: usize = at + 16;
    while j < head.len() && (head[j] == ' ' as u8 || head[j] == '\t' as u8)
        invariant
            at + 16 <= j <= head@.len(),
            past_blanks(head@, j as int) == past_blanks(head@, at + 16),
        decreases head@.len() - j,
    {
        j = j + 1;
    }
    let start: usize = j;
    let ghost end = wire::past_digits(head@, start as int);
    let mut v: usize = 0;
    proof {
        wire::lemma_past_digits(head@, start as int);
        assert(head@.subrange(start as int, start as int) =~= Seq::<u8>::empty());
    }
    while j < head.len() && '0' as u8 <= head[j] && head[j] <= '9' as u8
        invariant
            start <= j <= end <= head@.len(),
            end == wire::past_digits(head@, start as int),
            end == wire::past_digits(head@, j as int),
            forall|k: int| start <= k < end ==> wire::is_digit(#[trigger] head@[k]),
            v == wire::decimal(head@.subrange(start as int, j as int)),
            declared_length(head@) == wire::decimal(head@.subrange(start as int, end)),
        decreases head@.len() - j,
    {
        proof {
            assert(head@.subrange(start as int, j + 1).drop_last() =~= head@.subrange(
                start as int,
                j as int,
            ));
            wire::lemma_past_digits(head@, j + 1);
            wire::lemma_decimal_grows(head@, start as int, j + 1, end);
        }
        let digit: usize = (head[j] - '0' as u8) as usize;
        v = match v.checked_mul(10) {
            None => {
                return None;
            },
            Some(x) => match x.checked_add(digit) {
                None => {
                    return None;
                },
                Some(y) => y,
            },
        };
        j = j + 1;
    }
    Some(v)
}

/// The length of the body that a head declares.
pub fn content_length(head: &[u8]) -> (length: usize)
    requires
        declared_length(head@) <= usize::MAX,
    ensures
        length == declared_length(head@),
{
    match try_content_length(head) {
        Some(n) => n,
        None => 0,
    }
}

/// What a request asks for.
#[derive(Clone, Copy, Debug, PartialEq, Eq, Structural)]
pub enum Route {
    Order,
    Batch,
    BatchBin,
    Stats,
    Reset,
    Unknown,
}

/// The target of a request line: what stands between its first space and the next one, or the end
/// of the line.
pub open spec fn target(line: Seq<u8>) -> Option<Seq<u8>> {
    let sp = text::find(line, ' ' as u8, 0);
    if sp < line.len() {
        Some(line.subrange(sp + 1, text::find(line, ' ' as u8, sp + 1)))
    } else {
        None
    }
}

/// The target of each route.
pub open spec fn path_of(route: Route) -> Option<Seq<u8>> {
    match route {
        Route::Order => Some(text::bytes_of("/order")),
        Route::Batch => Some(text::bytes_of("/batch")),
        Route::BatchBin => Some(text::bytes_of("/batch/bin")),
        Route::Stats => Some(text::bytes_of("/stats")),
        Route::Reset => Some(text::bytes_of("/reset")),
        Route::Unknown => None,
    }
}

/// The route of a request line.
pub open spec fn route(line: Seq<u8>) -> Route {
    let t = target(line);
    if t == path_of(Route::Order) {
        Route::Order
    } else if t == path_of(Route::Batch) {
        Route::Batch
    } else if t == path_of(Route::BatchBin) {
        Route::BatchBin
    } else if t == path_of(Route::Stats) {
        Route::Stats
    } else if t == path_of(Route::Reset) {
        Route::Reset
    } else {
        Route::Unknown
    }
}

/// The route of a request line.
pub fn route_of(line: &[u8]) -> (r: Route)
    ensures
        r == route(line@),
{
    proof {
        text::lemma_find(line@, ' ' as u8, 0);
    }
    let sp: usize = text::position(line, ' ' as u8, 0);
    if sp == line.len() {
        return Route::Unknown;
    }
    let end: usize = text::position(line, ' ' as u8, sp + 1);
    let t: &[u8] = &line[sp + 1..end];
    if text::same_bytes(t, "/order".as_bytes()) {
        Route::Order
    } else if text::same_bytes(t, "/batch".as_bytes()) {
        Route::Batch
    } else if text::same_bytes(t, "/batch/bin".as_bytes()) {
        Route::BatchBin
    } else if text::same_bytes(t, "/stats".as_bytes()) {
        Route::Stats
    } else if text::same_bytes(t, "/reset".as_bytes()) {
        Route::Reset
    } else {
        Route::Unknown
    }
}

/// How far the bytes received on a connection go.
pub enum Frame {
    /// They end before the request does.
    Incomplete,
    /// The request is longer than a buffer can be.
    TooLong,
    /// They begin with a request, whose body ends at `end` and takes up the last `length` bytes
    /// before that.
    Request { route: Route, length: usize, end: usize },
}

/// The longest request that is waited for: buffers double in size, and half of the address space is
/// the most that one can take up.
pub open spec fn longest_request() -> int {
    usize::MAX / 4 + 1
}

/// What the bytes received on a connection begin with.
pub open spec fn frame(b: Seq<u8>) -> Frame {
    let p = blank_line(b, 0);
    if p == b.len() {
        Frame::Incomplete
    } else {
        let head = b.take(p + 4);
        let line = head.take(text::find(head, '\r' as u8, 0));
        let length = declared_length(head);
        let end = p + 4 + length;
        if end > longest_request() {
            Frame::TooLong
        } else if end > b.len() {
            Frame::Incomplete
        } else {
            Frame::Request { route: route(line), length: length as usize, end: end as usize }
        }
    }
}

/// Looks for a request at the front of the bytes received on a connection.
pub fn next_request(b: &[u8]) -> (found: Frame)
    ensures
        found == frame(b@),
        found matches Frame::Request { route, length, end } ==> length <= end <= b@.len() && 0
            < end,
{
    proof {
        lemma_blank_line(b@, 0);
    }
    let p: usize = match find_crlf2(b, 0) {
        None => {
            return Frame::Incomplete;
        },
        Some(p) => p,
    };
    assert(b.len() == b@.len());
    let head_end: usize = p + 4;
    let head: &[u8] = &b[0..head_end];
    assert(head@ =~= b@.take(p + 4));
    let line_end: usize = text::position(head, '\r' as u8, 0);
    let line: &[u8] = &head[0..line_end];
    assert(line@ =~= head@.take(line_end as int));
    let route: Route = route_of(line);
    match try_content_length(head) {
        None => Frame::TooLong,
        Some(length) => match head_end.checked_add(length) {
            None => Frame::TooLong,
            Some(end) => if end > usize::MAX / 4 + 1 {
                Frame::TooLong
            } else if end > b.len() {
                Frame::Incomplete
            } else {
                Frame::Request { route, length, end }
            },
        },
    }
}

} // verus!
