//! Laws of requests and responses on a connection.

use vstd::prelude::*;
use crate::http;
use crate::http::{Frame, Route};
use crate::service;
use crate::service::Reply;
use crate::text;
use crate::wire;
use crate::wire_laws;

verus! {

pub proof fn lemma_blank_line_at(b: Seq<u8>, i: int, e: int)
    requires
        0 <= i <= e,
        http::head_ends(b, e),
        forall|p: int| i <= p < e ==> !http::head_ends(b, p),
    ensures
        http::blank_line(b, i) == e,
    decreases e - i,
{
    if i < e {
        lemma_blank_line_at(b, i + 1, e);
    }
}

/// A request that has arrived as a whole is the same request whatever arrives behind it.
pub proof fn law_request_is_not_changed_by_what_follows(b: Seq<u8>, more: Seq<u8>)
    requires
        !(http::frame(b) is Incomplete),
    ensures
        http::frame(b + more) == http::frame(b),
{
    let p = http::blank_line(b, 0);
    let all = b + more;
    http::lemma_blank_line(b, 0);
    assert forall|q: int| 0 <= q < p implies !http::head_ends(all, q) by {
        assert(!http::head_ends(b, q));
    }
    lemma_blank_line_at(all, 0, p);
    assert(all.take(p + 4) =~= b.take(p + 4));
}

pub proof fn lemma_frame(b: Seq<u8>)
    ensures
        http::frame(b) matches Frame::Request { route, length, end } ==> length <= end <= b.len()
            && 0 < end,
{
    http::lemma_blank_line(b, 0);
}

/// The requests among the bytes received on a connection.
pub struct Requests {
    /// Each request with its body.
    pub list: Seq<(Route, Seq<u8>)>,
    /// The bytes behind the last of them.
    pub rest: Seq<u8>,
}

/// The requests among the bytes received on a connection.
pub open spec fn requests(b: Seq<u8>) -> Requests
    decreases b.len(),
{
    match http::frame(b) {
        Frame::Request { route, length, end } => {
            proof {
                lemma_frame(b);
            }
            let others = requests(b.skip(end as int));
            Requests {
                list: seq![(route, b.subrange(end - length, end as int))] + others.list,
                rest: others.rest,
            }
        },
        _ => Requests { list: Seq::empty(), rest: b },
    }
}

/// It does not matter in what portions the bytes of a connection arrive: the requests among the
/// first bytes and then those among what was left over and the bytes behind are the requests among
/// all of them.
pub proof fn law_requests_do_not_depend_on_portions(a: Seq<u8>, b: Seq<u8>)
    ensures
        ({
            let first = requests(a);
            let second = requests(first.rest + b);
            &&& requests(a + b).list == first.list + second.list
            &&& requests(a + b).rest == second.rest
        }),
    decreases a.len(),
{
    match http::frame(a) {
        Frame::Request { route, length, end } => {
            lemma_frame(a);
            law_request_is_not_changed_by_what_follows(a, b);
            assert((a + b).skip(end as int) =~= a.skip(end as int) + b);
            assert((a + b).subrange(end - length, end as int) =~= a.subrange(
                end - length,
                end as int,
            ));
            law_requests_do_not_depend_on_portions(a.skip(end as int), b);
            let others = requests(a.skip(end as int));
            assert(requests(a + b).list =~= requests(a).list + requests(others.rest + b).list);
        },
        _ => {
            assert(requests(a).list + requests(a + b).list =~= requests(a + b).list);
        },
    }
}

/// A head: lines, a `Content-Length` header and the blank line.
pub open spec fn head_text(lines: Seq<u8>, length: nat) -> Seq<u8> {
    lines + text::bytes_of("\r\nContent-Length: ") + wire::digits(length) + text::bytes_of(
        "\r\n\r\n",
    )
}

/// Neither does a blank line stand in `lines` nor a header that begins like `Content-L`.
pub open spec fn plain(lines: Seq<u8>) -> bool {
    &&& forall|q: int|
        0 <= q < lines.len() && #[trigger] lines[q] == '\r' as u8 ==> q + 2 < lines.len()
            && lines[q + 2] != '\r' as u8
    &&& forall|q: int|
        0 <= q < lines.len() && #[trigger] lines[q] == '\n' as u8 ==> q + 9 < lines.len()
            && text::lower(lines[q + 9]) != 'l' as u8
}

pub proof fn lemma_head_literals()
    ensures
        text::bytes_of("\r\nContent-Length: ") == seq![
            13u8,
            10u8,
            67u8,
            111u8,
            110u8,
            116u8,
            101u8,
            110u8,
            116u8,
            45u8,
            76u8,
            101u8,
            110u8,
            103u8,
            116u8,
            104u8,
            58u8,
            32u8,
        ],
        text::bytes_of("content-length") == seq![
            99u8,
            111u8,
            110u8,
            116u8,
            101u8,
            110u8,
            116u8,
            45u8,
            108u8,
            101u8,
            110u8,
            103u8,
            116u8,
            104u8,
        ],
        text::bytes_of("\r\n\r\n") == seq![13u8, 10u8, 13u8, 10u8],
{
    reveal_strlit("\r\nContent-Length: ");
    reveal_strlit("content-length");
    reveal_strlit("\r\n\r\n");
    vstd::string::is_ascii_spec_bytes("\r\nContent-Length: ");
    vstd::string::is_ascii_spec_bytes("content-length");
    vstd::string::is_ascii_spec_bytes("\r\n\r\n");
}

pub proof fn lemma_length_header_at(head: Seq<u8>, i: int, e: int)
    requires
        0 <= i <= e,
        http::declares_length(head, e),
        forall|p: int| i <= p < e ==> !http::declares_length(head, p),
    ensures
        http::length_header(head, i) == e,
    decreases e - i,
{
    if i < e {
        lemma_length_header_at(head, i + 1, e);
    }
}

/// Where the parts of a head stand.
proof fn lemma_head_parts(lines: Seq<u8>, v: nat, rest: Seq<u8>)
    ensures
        ({
            let head = head_text(lines, v);
            let all = head + rest;
            let n = lines.len() as int;
            let d = wire::digits(v);
            let e = n + 18 + d.len();
            let middle = text::bytes_of("\r\nContent-Length: ");
            &&& head.len() == e + 4
            &&& forall|j: int| 0 <= j < n ==> #[trigger] all[j] == lines[j]
            &&& forall|j: int| n <= j < n + 18 ==> #[trigger] all[j] == middle[j - n]
            &&& forall|j: int| n + 18 <= j < e ==> #[trigger] all[j] == d[j - n - 18]
            &&& all[e] == 13u8
            &&& all[e + 1] == 10u8
            &&& all[e + 2] == 13u8
            &&& all[e + 3] == 10u8
            &&& forall|j: int| 0 <= j < e + 4 ==> #[trigger] head[j] == all[j]
        }),
{
    lemma_head_literals();
}

/// The head ends at its blank line.
pub proof fn lemma_head_ends(lines: Seq<u8>, v: nat, rest: Seq<u8>)
    requires
        plain(lines),
    ensures
        http::blank_line(head_text(lines, v) + rest, 0) + 4 == head_text(lines, v).len(),
{
    let all = head_text(lines, v) + rest;
    let n = lines.len() as int;
    let d = wire::digits(v);
    let e = n + 18 + d.len();
    lemma_head_parts(lines, v, rest);
    lemma_head_literals();
    wire_laws::law_digits_denote_the_number(v);
    assert forall|q: int| 0 <= q < e implies !http::head_ends(all, q) by {
        if http::head_ends(all, q) {
            if q < n {
                assert(lines[q] == '\r' as u8);
                assert(all[q + 2] == lines[q + 2]);
            } else if q < n + 18 {
                assert(all[q] == 13u8);
                assert(q == n);
                assert(all[n + 2] == 67u8);
            } else {
                assert(wire::is_digit(d[q - n - 18]));
            }
        }
    }
    lemma_blank_line_at(all, 0, e);
}

/// The head declares its length.
proof fn lemma_head_declares(lines: Seq<u8>, v: nat)
    requires
        plain(lines),
    ensures
        http::declared_length(head_text(lines, v)) == v,
{
    let head = head_text(lines, v);
    let n = lines.len() as int;
    let d = wire::digits(v);
    let e = n + 18 + d.len();
    assert(head + Seq::<u8>::empty() =~= head);
    lemma_head_parts(lines, v, Seq::empty());
    lemma_head_literals();
    wire_laws::law_digits_denote_the_number(v);
    let at = n + 1;
    assert(http::declares_length(head, at)) by {
        assert(head[at] == 10u8);
        assert(head[at + 15] == 58u8);
        assert(head.subrange(at + 1, at + 15).map_values(|c: u8| text::lower(c))
            =~= text::bytes_of("content-length"));
    }
    assert forall|q: int| 0 <= q < at implies !http::declares_length(head, q) by {
        if http::declares_length(head, q) {
            if q < n {
                assert(lines[q] == '\n' as u8);
                let part = head.subrange(q + 1, q + 15).map_values(|c: u8| text::lower(c));
                assert(part[8] == text::lower(head[q + 9]));
                assert(head[q + 9] == lines[q + 9]);
            } else {
                assert(head[n] == 13u8);
            }
        }
    }
    lemma_length_header_at(head, 0, at);
    assert(head[at + 16] == 32u8);
    assert(wire::is_digit(d[0]));
    assert(head[at + 17] == d[0]);
    assert(http::past_blanks(head, at + 17) == at + 17);
    assert(http::past_blanks(head, at + 16) == at + 17);
    assert(head.subrange(n + 18, e) =~= d);
    assert forall|j: int| n + 18 <= j < e implies wire::is_digit(#[trigger] head[j]) by {
        assert(head[j] == d[j - n - 18]);
    }
    wire_laws::lemma_run_of_digits(head, n + 18, e);
}

/// A request as bytes: a method, the target of a route, and a body.
pub open spec fn request_text(method: Seq<u8>, route: Route, body: Seq<u8>) -> Seq<u8> {
    head_text(request_line(method, route), body.len()) + body
}

/// A request line.
pub open spec fn request_line(method: Seq<u8>, route: Route) -> Seq<u8> {
    method + seq![' ' as u8] + http::path_of(route)->0 + text::bytes_of(" HTTP/1.1")
}

/// Whether `method` can stand at the front of a request line.
pub open spec fn is_method(method: Seq<u8>) -> bool {
    forall|j: int|
        0 <= j < method.len() ==> #[trigger] method[j] != ' ' as u8 && method[j] != '\r' as u8
            && method[j] != '\n' as u8
}

pub proof fn lemma_paths(route: Route)
    requires
        route != Route::Unknown,
    ensures
        ({
            let path = http::path_of(route)->0;
            &&& http::path_of(route) is Some
            &&& forall|j: int|
                0 <= j < path.len() ==> #[trigger] path[j] != ' ' as u8 && path[j] != '\r' as u8
                    && path[j] != '\n' as u8
        }),
        forall|other: Route|
            other != route ==> #[trigger] http::path_of(other) != http::path_of(route),
{
    reveal_strlit("/order");
    reveal_strlit("/batch");
    reveal_strlit("/batch/bin");
    reveal_strlit("/stats");
    reveal_strlit("/reset");
    vstd::string::is_ascii_spec_bytes("/order");
    vstd::string::is_ascii_spec_bytes("/batch");
    vstd::string::is_ascii_spec_bytes("/batch/bin");
    vstd::string::is_ascii_spec_bytes("/stats");
    vstd::string::is_ascii_spec_bytes("/reset");
    let a = text::bytes_of("/order");
    let b = text::bytes_of("/batch");
    let c = text::bytes_of("/batch/bin");
    let d = text::bytes_of("/stats");
    let e = text::bytes_of("/reset");
    assert(a.len() == 6 && b.len() == 6 && c.len() == 10 && d.len() == 6 && e.len() == 6);
    assert(a[1] == 111u8 && b[1] == 98u8 && d[1] == 115u8 && e[1] == 114u8);
}

proof fn lemma_request_line(method: Seq<u8>, route: Route)
    requires
        route != Route::Unknown,
        is_method(method),
    ensures
        ({
            let line = request_line(method, route);
            &&& http::route(line) == route
            &&& forall|j: int|
                0 <= j < line.len() ==> #[trigger] line[j] != '\r' as u8 && line[j] != '\n' as u8
        }),
{
    let path = http::path_of(route)->0;
    let version = text::bytes_of(" HTTP/1.1");
    let line = request_line(method, route);
    let m = method.len() as int;
    let s = m + 1 + path.len();
    lemma_paths(route);
    assert(version.len() == 9 && version[0] == ' ' as u8 && forall|j: int|
        0 <= j < version.len() ==> #[trigger] version[j] != '\r' as u8 && version[j]
            != '\n' as u8) by {
        reveal_strlit(" HTTP/1.1");
        vstd::string::is_ascii_spec_bytes(" HTTP/1.1");
    }
    assert forall|j: int| 0 <= j < line.len() implies #[trigger] line[j] != '\r' as u8 && line[j]
        != '\n' as u8 by {
        if j < m {
            assert(line[j] == method[j]);
        } else if m < j < s {
            assert(line[j] == path[j - m - 1]);
        } else if j >= s {
            assert(line[j] == version[j - s]);
        }
    }
    assert forall|j: int| 0 <= j < m implies #[trigger] line[j] != ' ' as u8 by {
        assert(line[j] == method[j]);
    }
    assert forall|j: int| m + 1 <= j < s implies #[trigger] line[j] != ' ' as u8 by {
        assert(line[j] == path[j - m - 1]);
    }
    assert(line[s] == version[0]);
    wire_laws::lemma_find_at(line, ' ' as u8, 0, m);
    wire_laws::lemma_find_at(line, ' ' as u8, m + 1, s);
    assert(line.subrange(m + 1, s) =~= path);
    assert(http::target(line) == http::path_of(route));
}

/// The first line of a head ends at its first carriage return.
proof fn lemma_first_line_ends(line: Seq<u8>, length: nat)
    requires
        forall|j: int| 0 <= j < line.len() ==> #[trigger] line[j] != '\r' as u8,
    ensures
        text::find(head_text(line, length), '\r' as u8, 0) == line.len(),
        head_text(line, length).take(line.len() as int) == line,
{
    let head = head_text(line, length);
    assert(head + Seq::<u8>::empty() =~= head);
    lemma_head_parts(line, length, Seq::empty());
    lemma_head_literals();
    assert(head[line.len() as int] == 13u8);
    assert forall|j: int| 0 <= j < line.len() implies #[trigger] head[j] != '\r' as u8 by {
        assert(head[j] == line[j]);
    }
    wire_laws::lemma_find_at(head, '\r' as u8, 0, line.len() as int);
    assert(head.take(line.len() as int) =~= line);
}

/// A request that is written out is taken in as that request with that body, whatever follows.
#[verifier::spinoff_prover]
pub proof fn law_written_request_is_read_back(
    method: Seq<u8>,
    route: Route,
    body: Seq<u8>,
    more: Seq<u8>,
)
    requires
        route != Route::Unknown,
        is_method(method),
        request_text(method, route, body).len() <= usize::MAX / 4 + 1,
    ensures
        ({
            let b = request_text(method, route, body);
            &&& http::frame(b + more) == (Frame::Request {
                route,
                length: body.len() as usize,
                end: b.len() as usize,
            })
            &&& b.subrange(b.len() - body.len(), b.len() as int) == body
        }),
{
    let line = request_line(method, route);
    let head = head_text(line, body.len());
    let b = request_text(method, route, body);
    lemma_request_line(method, route);
    assert(plain(line));
    assert(b + more =~= head + (body + more));
    lemma_head_ends(line, body.len(), body + more);
    lemma_head_declares(line, body.len());
    assert((b + more).take(head.len() as int) =~= head);
    lemma_first_line_ends(line, body.len());
    assert(b.subrange(b.len() - body.len(), b.len() as int) =~= body);
}

/// Whether `b` is one message, whose head declares the length of its body.
pub open spec fn announces_its_length(b: Seq<u8>) -> bool {
    let p = http::blank_line(b, 0);
    &&& p < b.len()
    &&& p + 4 + http::declared_length(b.take(p + 4)) == b.len()
}

proof fn lemma_announced(lines: Seq<u8>, body: Seq<u8>)
    requires
        plain(lines),
    ensures
        announces_its_length(head_text(lines, body.len()) + body),
{
    let head = head_text(lines, body.len());
    lemma_head_ends(lines, body.len(), body);
    lemma_head_declares(lines, body.len());
    lemma_head_parts(lines, body.len(), body);
    assert((head + body).take(head.len() as int) =~= head);
}

pub proof fn lemma_ok_head(body: Seq<u8>)
    ensures
        ({
            let lines = text::bytes_of("HTTP/1.1 200 OK\r\nContent-Type: application/json");
            &&& service::ok_response(body) == head_text(lines, body.len()) + body
            &&& plain(lines)
        }),
{
    let lines = text::bytes_of("HTTP/1.1 200 OK\r\nContent-Type: application/json");
    let middle = text::bytes_of("\r\nContent-Length: ");
    let whole = text::bytes_of(
        "HTTP/1.1 200 OK\r\nContent-Type: application/json\r\nContent-Length: ",
    );
    assert(whole =~= lines + middle && plain(lines)) by {
        reveal_strlit("HTTP/1.1 200 OK\r\nContent-Type: application/json");
        reveal_strlit("\r\nContent-Length: ");
        reveal_strlit(
            "HTTP/1.1 200 OK\r\nContent-Type: application/json\r\nContent-Length: ",
        );
        vstd::string::is_ascii_spec_bytes(
            "HTTP/1.1 200 OK\r\nContent-Type: application/json",
        );
        vstd::string::is_ascii_spec_bytes("\r\nContent-Length: ");
        vstd::string::is_ascii_spec_bytes(
            "HTTP/1.1 200 OK\r\nContent-Type: application/json\r\nContent-Length: ",
        );
    }
    assert(service::ok_response(body) =~= head_text(lines, body.len()) + body);
}

proof fn lemma_emptied_head()
    ensures
        announces_its_length(
            text::bytes_of("HTTP/1.1 204 No Content\r\nContent-Length: 0\r\n\r\n"),
        ),
{
    let lines = text::bytes_of("HTTP/1.1 204 No Content");
    let whole = text::bytes_of("HTTP/1.1 204 No Content\r\nContent-Length: 0\r\n\r\n");
    assert(whole =~= head_text(lines, 0) + Seq::<u8>::empty() && plain(lines)) by {
        reveal_strlit("HTTP/1.1 204 No Content");
        reveal_strlit("HTTP/1.1 204 No Content\r\nContent-Length: 0\r\n\r\n");
        vstd::string::is_ascii_spec_bytes("HTTP/1.1 204 No Content");
        vstd::string::is_ascii_spec_bytes("HTTP/1.1 204 No Content\r\nContent-Length: 0\r\n\r\n");
        lemma_head_literals();
    }
    lemma_announced(lines, Seq::empty());
}

proof fn lemma_malformed_head()
    ensures
        announces_its_length(
            text::bytes_of("HTTP/1.1 400 Bad Request\r\nContent-Length: 0\r\n\r\n"),
        ),
{
    let lines = text::bytes_of("HTTP/1.1 400 Bad Request");
    let whole = text::bytes_of("HTTP/1.1 400 Bad Request\r\nContent-Length: 0\r\n\r\n");
    assert(whole =~= head_text(lines, 0) + Seq::<u8>::empty() && plain(lines)) by {
        reveal_strlit("HTTP/1.1 400 Bad Request");
        reveal_strlit("HTTP/1.1 400 Bad Request\r\nContent-Length: 0\r\n\r\n");
        vstd::string::is_ascii_spec_bytes("HTTP/1.1 400 Bad Request");
        vstd::string::is_ascii_spec_bytes("HTTP/1.1 400 Bad Request\r\nContent-Length: 0\r\n\r\n");
        lemma_head_literals();
    }
    lemma_announced(lines, Seq::empty());
}

proof fn lemma_not_found_head()
    ensures
        announces_its_length(
            text::bytes_of("HTTP/1.1 404 Not Found\r\nContent-Length: 0\r\n\r\n"),
        ),
{
    let lines = text::bytes_of("HTTP/1.1 404 Not Found");
    let whole = text::bytes_of("HTTP/1.1 404 Not Found\r\nContent-Length: 0\r\n\r\n");
    assert(whole =~= head_text(lines, 0) + Seq::<u8>::empty() && plain(lines)) by {
        reveal_strlit("HTTP/1.1 404 Not Found");
        reveal_strlit("HTTP/1.1 404 Not Found\r\nContent-Length: 0\r\n\r\n");
        vstd::string::is_ascii_spec_bytes("HTTP/1.1 404 Not Found");
        vstd::string::is_ascii_spec_bytes("HTTP/1.1 404 Not Found\r\nContent-Length: 0\r\n\r\n");
        lemma_head_literals();
    }
    lemma_announced(lines, Seq::empty());
}

/// Every response declares the length of its body, so that the next response on the connection can
/// be told from it.
pub proof fn law_responses_announce_their_length(reply: Reply)
    ensures
        announces_its_length(service::response(reply)),
{
    match reply {
        Reply::Emptied => lemma_emptied_head(),
        Reply::Malformed => lemma_malformed_head(),
        Reply::NotFound => lemma_not_found_head(),
        Reply::Totals { trades, volume } => {
            let body = service::totals_text(trades, volume);
            lemma_ok_head(body);
            lemma_announced(
                text::bytes_of("HTTP/1.1 200 OK\r\nContent-Type: application/json"),
                body,
            );
        },
        Reply::Stats { .. } => {
            let body = service::stats_text(reply);
            lemma_ok_head(body);
            lemma_announced(
                text::bytes_of("HTTP/1.1 200 OK\r\nContent-Type: application/json"),
                body,
            );
        },
    }
}

} // verus!
