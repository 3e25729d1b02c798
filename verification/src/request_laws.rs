//! Laws of requests and responses, byte for byte.

use vstd::prelude::*;
use crate::http;
use crate::http::{Frame, Route};
use crate::http_laws;
use crate::layout_laws;
use crate::layout_laws::MemberText;
use crate::service;
use crate::service::Reply;
use crate::text;
use crate::wire;
use crate::wire::Member;
use crate::wire_laws;

verus! {

/// `content-length` in small letters.
pub open spec fn small_name() -> Seq<u8> {
    seq![99u8, 111, 110, 116, 101, 110, 116, 45, 108, 101, 110, 103, 116, 104]
}

/// `CONTENT-LENGTH` in capitals.
pub open spec fn capital_name() -> Seq<u8> {
    seq![67u8, 79, 78, 84, 69, 78, 84, 45, 76, 69, 78, 71, 84, 72]
}

/// Whether a line that begins behind position `i` is a `Content-Length` header, each letter in
/// either case.
pub open spec fn length_line(head: Seq<u8>, i: int) -> bool {
    &&& 0 <= i
    &&& i + 15 < head.len()
    &&& head[i] == 10
    &&& forall|k: int|
        0 <= k < 14 ==> #[trigger] head[i + 1 + k] == small_name()[k] || head[i + 1 + k]
            == capital_name()[k]
    &&& head[i + 15] == 58
}

proof fn lemma_letter(c: u8, k: int)
    requires
        0 <= k < 14,
    ensures
        text::lower(c) == small_name()[k] <==> c == small_name()[k] || c == capital_name()[k],
{
    let s = small_name();
    let l = capital_name();
    assert(s[0] == 99 && s[1] == 111 && s[2] == 110 && s[3] == 116 && s[4] == 101 && s[5] == 110
        && s[6] == 116 && s[7] == 45 && s[8] == 108 && s[9] == 101 && s[10] == 110 && s[11] == 103
        && s[12] == 116 && s[13] == 104);
    assert(l[0] == 67 && l[1] == 79 && l[2] == 78 && l[3] == 84 && l[4] == 69 && l[5] == 78 && l[6]
        == 84 && l[7] == 45 && l[8] == 76 && l[9] == 69 && l[10] == 78 && l[11] == 71 && l[12]
        == 84 && l[13] == 72);
    assert(k == 0 || k == 1 || k == 2 || k == 3 || k == 4 || k == 5 || k == 6 || k == 7 || k == 8
        || k == 9 || k == 10 || k == 11 || k == 12 || k == 13);
}

/// A `Content-Length` header is known by its name at the front of a line, in any case, and the colon
/// directly behind it.
pub proof fn law_length_header_is_known_by_its_name(head: Seq<u8>, i: int)
    ensures
        http::declares_length(head, i) <==> length_line(head, i),
{
    http_laws::lemma_head_literals();
    let name = text::bytes_of("content-length");
    assert(name =~= small_name());
    if 0 <= i && i + 15 < head.len() {
        let part = head.subrange(i + 1, i + 15).map_values(|c: u8| text::lower(c));
        assert forall|k: int| 0 <= k < 14 implies (#[trigger] part[k] == small_name()[k] <==> (head[
        i + 1 + k] == small_name()[k] || head[i + 1 + k] == capital_name()[k])) by {
            lemma_letter(head[i + 1 + k], k);
        }
        if length_line(head, i) {
            assert(part =~= name);
        }
        if http::declares_length(head, i) {
            assert forall|k: int| 0 <= k < 14 implies #[trigger] head[i + 1 + k] == small_name()[k]
                || head[i + 1 + k] == capital_name()[k] by {
                assert(part[k] == small_name()[k]);
            }
        }
    }
}

/// Whether `s` holds nothing but spaces and tabs.
pub open spec fn blank(s: Seq<u8>) -> bool {
    forall|j: int| 0 <= j < s.len() ==> #[trigger] s[j] == 32 || s[j] == 9
}

proof fn lemma_blanks_at(b: Seq<u8>, i: int, w: Seq<u8>)
    requires
        wire_laws::stands(b, i, w),
        blank(w),
        i + w.len() < b.len() ==> b[i + w.len()] != 32 && b[i + w.len()] != 9,
    ensures
        http::past_blanks(b, i) == i + w.len(),
    decreases w.len(),
{
    if w.len() > 0 {
        assert(b.subrange(i, i + w.len())[0] == b[i]);
        assert(w[0] == b[i]);
        let rest = w.drop_first();
        assert(b.subrange(i + 1, i + 1 + rest.len()) =~= b.subrange(i, i + w.len()).drop_first());
        assert forall|j: int| 0 <= j < rest.len() implies #[trigger] rest[j] == 32 || rest[j]
            == 9 by {
            assert(rest[j] == w[j + 1]);
        }
        lemma_blanks_at(b, i + 1, rest);
    }
}

/// The length that a head declares is the number in its first `Content-Length` header, behind any
/// spaces and tabs; it counts as zero if no digit stands there.
pub proof fn law_first_length_header_counts(head: Seq<u8>, i: int, w: Seq<u8>, value: Seq<u8>)
    requires
        length_line(head, i),
        forall|q: int| 0 <= q < i ==> !length_line(head, q),
        wire_laws::stands(head, i + 16, w + value),
        blank(w),
        forall|j: int| 0 <= j < value.len() ==> 48 <= #[trigger] value[j] <= 57,
        ({
            let e = i + 16 + w.len() + value.len();
            e < head.len() ==> !(48 <= head[e] <= 57) && (value.len() == 0 ==> head[e] != 32
                && head[e] != 9)
        }),
    ensures
        http::declared_length(head) == (if value.len() == 0 {
            0
        } else {
            wire::decimal(value)
        }),
{
    law_length_header_is_known_by_its_name(head, i);
    assert forall|q: int| 0 <= q < i implies !http::declares_length(head, q) by {
        law_length_header_is_known_by_its_name(head, q);
    }
    http_laws::lemma_length_header_at(head, 0, i);
    let j = i + 16 + w.len();
    let e = j + value.len();
    wire_laws::lemma_stands_split(head, i + 16, w, value);
    assert forall|k: int| j <= k < e implies wire::is_digit(#[trigger] head[k]) by {
        assert(head.subrange(j, e)[k - j] == head[k]);
        assert(value[k - j] == head[k]);
    }
    assert(value.len() > 0 ==> wire::is_digit(head[j]));
    lemma_blanks_at(head, i + 16, w);
    wire_laws::lemma_run_of_digits(head, j, e);
}

proof fn lemma_no_length_header(head: Seq<u8>, i: int)
    requires
        0 <= i <= head.len(),
        forall|q: int| i <= q < head.len() ==> !http::declares_length(head, q),
    ensures
        http::length_header(head, i) == head.len(),
    decreases head.len() - i,
{
    if i < head.len() {
        lemma_no_length_header(head, i + 1);
    }
}

/// A head without a `Content-Length` header declares the length zero.
pub proof fn law_without_length_header_there_is_no_body(head: Seq<u8>)
    requires
        forall|q: int| 0 <= q < head.len() ==> !length_line(head, q),
    ensures
        http::declared_length(head) == 0,
{
    assert forall|q: int| 0 <= q < head.len() implies !http::declares_length(head, q) by {
        law_length_header_is_known_by_its_name(head, q);
    }
    lemma_no_length_header(head, 0);
}

/// Whether no byte of `s` is a space.
pub open spec fn spaceless(s: Seq<u8>) -> bool {
    forall|j: int| 0 <= j < s.len() ==> #[trigger] s[j] != 32
}

/// The target decides the route, whatever the method and whatever stands behind the target: each of
/// the five targets has its route, and no other target has one.
pub proof fn law_target_decides_the_route(method: Seq<u8>, target: Seq<u8>, tail: Seq<u8>)
    requires
        spaceless(method),
        spaceless(target),
        tail.len() > 0 ==> tail[0] == 32,
    ensures
        ({
            let r = http::route(method + seq![32u8] + target + tail);
            &&& r == Route::Order <==> target == text::bytes_of("/order")
            &&& r == Route::Batch <==> target == text::bytes_of("/batch")
            &&& r == Route::BatchBin <==> target == text::bytes_of("/batch/bin")
            &&& r == Route::Stats <==> target == text::bytes_of("/stats")
            &&& r == Route::Reset <==> target == text::bytes_of("/reset")
        }),
{
    let line = method + seq![32u8] + target + tail;
    let m = method.len() as int;
    let e = m + 1 + target.len();
    assert forall|j: int| 0 <= j < m implies #[trigger] line[j] != 32 by {
        assert(line[j] == method[j]);
    }
    assert forall|j: int| m + 1 <= j < e implies #[trigger] line[j] != 32 by {
        assert(line[j] == target[j - m - 1]);
    }
    wire_laws::lemma_find_at(line, 32, 0, m);
    if tail.len() > 0 {
        assert(line[e] == tail[0]);
        wire_laws::lemma_find_at(line, 32, m + 1, e);
    } else {
        text::lemma_find(line, 32, m + 1);
        let f = text::find(line, 32, m + 1);
        assert(f < line.len() ==> line[f] == 32);
    }
    assert(line.subrange(m + 1, e) =~= target);
    assert(http::target(line) == Some(target));
    http_laws::lemma_paths(Route::Order);
    http_laws::lemma_paths(Route::Batch);
    http_laws::lemma_paths(Route::BatchBin);
    http_laws::lemma_paths(Route::Stats);
    http_laws::lemma_paths(Route::Reset);
}

/// A request line without a space has no target.
pub proof fn law_line_without_space_has_no_route(line: Seq<u8>)
    requires
        spaceless(line),
    ensures
        http::route(line) == Route::Unknown,
{
    text::lemma_find(line, 32, 0);
    let f = text::find(line, 32, 0);
    assert(f < line.len() ==> line[f] == 32);
}

/// Whether a blank line begins at `p`.
pub open spec fn blank_line_at(b: Seq<u8>, p: int) -> bool {
    &&& 0 <= p
    &&& p + 3 < b.len()
    &&& b[p] == 13
    &&& b[p + 1] == 10
    &&& b[p + 2] == 13
    &&& b[p + 3] == 10
}

/// A request in full. Its head ends with the first blank line; its first line, up to the first
/// carriage return, gives the route; its body is as long as the head declares and follows the head.
/// It is waited for until it has arrived as a whole, unless it is longer than a quarter of the
/// address space.
pub proof fn law_request_in_full(b: Seq<u8>, p: int, line_end: int)
    requires
        blank_line_at(b, p),
        forall|q: int| 0 <= q < p ==> !blank_line_at(b, q),
        0 <= line_end <= p,
        b[line_end] == 13,
        forall|j: int| 0 <= j < line_end ==> #[trigger] b[j] != 13,
    ensures
        ({
            let length = http::declared_length(b.take(p + 4));
            let end = p + 4 + length;
            if end > usize::MAX / 4 + 1 {
                http::frame(b) == Frame::TooLong
            } else if b.len() < end {
                http::frame(b) == Frame::Incomplete
            } else {
                http::frame(b) == (Frame::Request {
                    route: http::route(b.take(line_end)),
                    length: length as usize,
                    end: end as usize,
                })
            }
        }),
{
    assert forall|q: int| 0 <= q < p implies !http::head_ends(b, q) by {
        assert(!blank_line_at(b, q));
    }
    http_laws::lemma_blank_line_at(b, 0, p);
    let head = b.take(p + 4);
    assert(head[line_end] == 13);
    assert forall|j: int| 0 <= j < line_end implies #[trigger] head[j] != 13 by {
        assert(head[j] == b[j]);
    }
    wire_laws::lemma_find_at(head, 13, 0, line_end);
    assert(head.take(line_end) =~= b.take(line_end));
}

/// Without a blank line a request is waited for.
pub proof fn law_head_is_waited_for(b: Seq<u8>)
    requires
        forall|q: int| 0 <= q < b.len() ==> !blank_line_at(b, q),
    ensures
        http::frame(b) == Frame::Incomplete,
{
    http::lemma_blank_line(b, 0);
    let p = http::blank_line(b, 0);
    if p < b.len() {
        assert(!blank_line_at(b, p));
    }
}

/// A key and a number without white space.
pub open spec fn plain_member(key: Seq<u8>, v: u64) -> MemberText {
    MemberText {
        before: Seq::empty(),
        key,
        before_colon: Seq::empty(),
        before_value: Seq::empty(),
        value: wire::digits(v as nat),
        after: Seq::empty(),
    }
}

/// A key and its value.
pub open spec fn pair(key: Seq<u8>, v: u64) -> Member {
    Member { key, value: v }
}

proof fn lemma_plain_member(key: Seq<u8>, v: u64)
    requires
        forall|j: int| 0 <= j < key.len() ==> #[trigger] key[j] != '"' as u8,
    ensures
        plain_member(key, v).wf(),
        plain_member(key, v).fits(),
        plain_member(key, v).member() == pair(key, v),
        plain_member(key, v).text() == wire_laws::quoted(key) + seq![':' as u8] + wire::digits(
            v as nat,
        ),
{
    let t = plain_member(key, v);
    wire_laws::law_digits_denote_the_number(v as nat);
    assert forall|j: int| 0 <= j < t.value.len() implies 48 <= #[trigger] t.value[j] <= 57 by {
        assert(wire::is_digit(t.value[j]));
    }
    assert(t.text() =~= wire_laws::quoted(key) + seq![':' as u8] + wire::digits(v as nat));
}

proof fn lemma_literal_trades()
    ensures
        text::bytes_of("{\"trades\":") == seq!['{' as u8] + wire_laws::quoted(text::bytes_of("trades")) + seq![
            ':' as u8,
        ],
        forall|j: int|
            0 <= j < text::bytes_of("trades").len() ==> #[trigger] text::bytes_of("trades")[j] != '"' as u8,
{
    reveal_strlit("{\"trades\":");
    reveal_strlit("trades");
    vstd::string::is_ascii_spec_bytes("{\"trades\":");
    vstd::string::is_ascii_spec_bytes("trades");
    assert(text::bytes_of("{\"trades\":") =~= seq!['{' as u8] + wire_laws::quoted(
        text::bytes_of("trades"),
    ) + seq![':' as u8]);
}

proof fn lemma_literal_volume()
    ensures
        text::bytes_of(",\"volume\":") == seq![',' as u8] + wire_laws::quoted(text::bytes_of("volume")) + seq![
            ':' as u8,
        ],
        forall|j: int|
            0 <= j < text::bytes_of("volume").len() ==> #[trigger] text::bytes_of("volume")[j] != '"' as u8,
{
    reveal_strlit(",\"volume\":");
    reveal_strlit("volume");
    vstd::string::is_ascii_spec_bytes(",\"volume\":");
    vstd::string::is_ascii_spec_bytes("volume");
    assert(text::bytes_of(",\"volume\":") =~= seq![',' as u8] + wire_laws::quoted(
        text::bytes_of("volume"),
    ) + seq![':' as u8]);
}

proof fn lemma_literal_bid_levels()
    ensures
        text::bytes_of(",\"bid_levels\":") == seq![',' as u8] + wire_laws::quoted(text::bytes_of("bid_levels")) + seq![
            ':' as u8,
        ],
        forall|j: int|
            0 <= j < text::bytes_of("bid_levels").len() ==> #[trigger] text::bytes_of("bid_levels")[j] != '"' as u8,
{
    reveal_strlit(",\"bid_levels\":");
    reveal_strlit("bid_levels");
    vstd::string::is_ascii_spec_bytes(",\"bid_levels\":");
    vstd::string::is_ascii_spec_bytes("bid_levels");
    assert(text::bytes_of(",\"bid_levels\":") =~= seq![',' as u8] + wire_laws::quoted(
        text::bytes_of("bid_levels"),
    ) + seq![':' as u8]);
}

proof fn lemma_literal_ask_levels()
    ensures
        text::bytes_of(",\"ask_levels\":") == seq![',' as u8] + wire_laws::quoted(text::bytes_of("ask_levels")) + seq![
            ':' as u8,
        ],
        forall|j: int|
            0 <= j < text::bytes_of("ask_levels").len() ==> #[trigger] text::bytes_of("ask_levels")[j] != '"' as u8,
{
    reveal_strlit(",\"ask_levels\":");
    reveal_strlit("ask_levels");
    vstd::string::is_ascii_spec_bytes(",\"ask_levels\":");
    vstd::string::is_ascii_spec_bytes("ask_levels");
    assert(text::bytes_of(",\"ask_levels\":") =~= seq![',' as u8] + wire_laws::quoted(
        text::bytes_of("ask_levels"),
    ) + seq![':' as u8]);
}

proof fn lemma_literal_resting()
    ensures
        text::bytes_of(",\"resting\":") == seq![',' as u8] + wire_laws::quoted(text::bytes_of("resting")) + seq![
            ':' as u8,
        ],
        forall|j: int|
            0 <= j < text::bytes_of("resting").len() ==> #[trigger] text::bytes_of("resting")[j] != '"' as u8,
{
    reveal_strlit(",\"resting\":");
    reveal_strlit("resting");
    vstd::string::is_ascii_spec_bytes(",\"resting\":");
    vstd::string::is_ascii_spec_bytes("resting");
    assert(text::bytes_of(",\"resting\":") =~= seq![',' as u8] + wire_laws::quoted(
        text::bytes_of("resting"),
    ) + seq![':' as u8]);
}

proof fn lemma_literal_rejected()
    ensures
        text::bytes_of(",\"rejected\":") == seq![',' as u8] + wire_laws::quoted(text::bytes_of("rejected")) + seq![
            ':' as u8,
        ],
        forall|j: int|
            0 <= j < text::bytes_of("rejected").len() ==> #[trigger] text::bytes_of("rejected")[j] != '"' as u8,
{
    reveal_strlit(",\"rejected\":");
    reveal_strlit("rejected");
    vstd::string::is_ascii_spec_bytes(",\"rejected\":");
    vstd::string::is_ascii_spec_bytes("rejected");
    assert(text::bytes_of(",\"rejected\":") =~= seq![',' as u8] + wire_laws::quoted(
        text::bytes_of("rejected"),
    ) + seq![':' as u8]);
}

proof fn lemma_closing_brace()
    ensures
        text::bytes_of("}") == seq!['}' as u8],
{
    reveal_strlit("}");
    vstd::string::is_ascii_spec_bytes("}");
    assert(text::bytes_of("}") =~= seq!['}' as u8]);
}

/// Where the body of a response stands.
proof fn lemma_body_of_response(body: Seq<u8>)
    ensures
        ({
            let r = service::ok_response(body);
            let p = http::blank_line(r, 0);
            &&& wire_laws::stands(r, p + 4, body)
            &&& p + 4 + body.len() == r.len()
        }),
{
    http_laws::lemma_ok_head(body);
    let lines = text::bytes_of("HTTP/1.1 200 OK\r\nContent-Type: application/json");
    http_laws::lemma_head_ends(lines, body.len(), body);
    let head = http_laws::head_text(lines, body.len());
    let r = service::ok_response(body);
    assert(r.subrange(head.len() as int, r.len() as int) =~= body);
}

/// Members with commas between them.
#[verifier::opaque]
spec fn listed(list: Seq<MemberText>) -> Seq<u8>
    decreases list.len(),
{
    if list.len() == 0 {
        Seq::empty()
    } else if list.len() == 1 {
        list[0].text()
    } else {
        listed(list.drop_last()) + seq![',' as u8] + list.last().text()
    }
}

proof fn lemma_listed_from_front(list: Seq<MemberText>)
    requires
        list.len() >= 2,
    ensures
        listed(list) == list[0].text() + seq![',' as u8] + listed(list.drop_first()),
    decreases list.len(),
{
    reveal(listed);
    let front = list.drop_last();
    let back = list.drop_first();
    if list.len() == 2 {
        assert(listed(front) == list[0].text());
        assert(listed(back) == list.last().text());
    } else {
        lemma_listed_from_front(front);
        assert(front.drop_first() =~= back.drop_last());
        assert(back.last() == list.last());
        let x = list[0].text();
        let y = listed(back.drop_last());
        let z = list.last().text();
        let comma = seq![',' as u8];
        assert(x + comma + y + comma + z =~= x + comma + (y + comma + z));
    }
}

proof fn lemma_members_text_is_listed(list: Seq<MemberText>)
    requires
        list.len() > 0,
    ensures
        layout_laws::members_text(list) == listed(list) + seq!['}' as u8],
    decreases list.len(),
{
    reveal(listed);
    if list.len() >= 2 {
        let others = list.drop_first();
        lemma_members_text_is_listed(others);
        lemma_listed_from_front(list);
        let x = list[0].text();
        let y = listed(others);
        assert(x + (seq![',' as u8] + (y + seq!['}' as u8])) =~= x + seq![',' as u8] + y + seq![
            '}' as u8,
        ]);
    }
}

/// Members without white space.
#[verifier::opaque]
spec fn plain_list(ms: Seq<Member>) -> Seq<MemberText> {
    ms.map_values(|m: Member| plain_member(m.key, m.value))
}

/// Whether no key holds a quote.
#[verifier::opaque]
spec fn plain_keys(ms: Seq<Member>) -> bool {
    forall|i: int, j: int|
        0 <= i < ms.len() && 0 <= j < ms[i].key.len() ==> #[trigger] ms[i].key[j] != '"' as u8
}

/// Whether the body of a message is an object with these members and nothing else.
pub open spec fn names(r: Seq<u8>, ms: Seq<Member>) -> bool {
    let p = http::blank_line(r, 0);
    &&& p + 5 < r.len()
    &&& r[p + 4] == '{' as u8
    &&& wire::members(r, p + 5) == Some((ms, r.len() as int))
}

proof fn lemma_plain_list(ms: Seq<Member>)
    requires
        plain_keys(ms),
    ensures
        plain_list(ms).len() == ms.len(),
        layout_laws::all_wf(plain_list(ms)),
        layout_laws::all_fit(plain_list(ms)),
        layout_laws::said(plain_list(ms)) == ms,
{
    reveal(plain_list);
    reveal(plain_keys);
    let list = plain_list(ms);
    assert forall|i: int| 0 <= i < list.len() implies (#[trigger] list[i]).wf() && list[i].fits()
        && list[i].member() == ms[i] by {
        let key = ms[i].key;
        assert forall|j: int| 0 <= j < key.len() implies #[trigger] key[j] != '"' as u8 by {
            assert(ms[i].key[j] != '"' as u8);
        }
        lemma_plain_member(key, ms[i].value);
    }
    assert(layout_laws::said(list) =~= ms);
}

proof fn lemma_response_names(body: Seq<u8>, ms: Seq<Member>)
    requires
        ms.len() > 0,
        plain_keys(ms),
        body == seq!['{' as u8] + listed(plain_list(ms)) + seq!['}' as u8],
    ensures
        names(service::ok_response(body), ms),
{
    let r = service::ok_response(body);
    let list = plain_list(ms);
    let t = layout_laws::members_text(list);
    lemma_plain_list(ms);
    lemma_members_text_is_listed(list);
    assert(body == seq!['{' as u8] + t) by {
        let x = listed(list);
        assert(seq!['{' as u8] + x + seq!['}' as u8] =~= seq!['{' as u8] + (x + seq!['}' as u8]));
    }
    lemma_body_of_response(body);
    lemma_object_at(r, http::blank_line(r, 0) + 4, list);
}

proof fn lemma_object_at(r: Seq<u8>, i: int, list: Seq<MemberText>)
    requires
        list.len() > 0,
        layout_laws::all_wf(list),
        layout_laws::all_fit(list),
        wire_laws::stands(r, i, seq!['{' as u8] + layout_laws::members_text(list)),
    ensures
        r[i] == '{' as u8,
        wire::members(r, i + 1) == Some(
            (layout_laws::said(list), i + 1 + layout_laws::members_text(list).len()),
        ),
        layout_laws::members_text(list).len() > 0,
{
    wire_laws::lemma_stands_split(r, i, seq!['{' as u8], layout_laws::members_text(list));
    wire_laws::lemma_byte_stands(r, i, '{' as u8);
    layout_laws::lemma_members_at(r, i + 1, list);
}

/// One more member.
#[verifier::spinoff_prover]
proof fn lemma_next_member(
    written: Seq<u8>,
    literal: Seq<u8>,
    ms: Seq<Member>,
    key: Seq<u8>,
    v: u64,
)
    requires
        plain_keys(ms),
        forall|j: int| 0 <= j < key.len() ==> #[trigger] key[j] != '"' as u8,
        ms.len() > 0 ==> written == seq!['{' as u8] + listed(plain_list(ms)),
        ms.len() == 0 ==> written == Seq::<u8>::empty(),
        literal == seq![
            if ms.len() == 0 {
                '{' as u8
            } else {
                ',' as u8
            },
        ] + wire_laws::quoted(key) + seq![':' as u8],
    ensures
        plain_keys(ms.push(pair(key, v))),
        written + literal + wire::digits(v as nat) == seq!['{' as u8] + listed(
            plain_list(ms.push(pair(key, v))),
        ),
{
    reveal(listed);
    reveal(plain_list);
    reveal(plain_keys);
    let after = ms.push(pair(key, v));
    let list = plain_list(after);
    let t = plain_member(key, v);
    lemma_plain_member(key, v);
    assert forall|i: int, j: int|
        0 <= i < after.len() && 0 <= j < after[i].key.len() implies #[trigger] after[i].key[j]
        != '"' as u8 by {
        if i < ms.len() {
            assert(after[i] == ms[i]);
        }
    }
    assert(list.drop_last() =~= plain_list(ms));
    assert(list.last() == t);
    let tail = wire_laws::quoted(key) + seq![':' as u8] + wire::digits(v as nat);
    assert(t.text() == tail);
    if ms.len() == 0 {
        assert(listed(list) == list[0].text());
        assert(written + literal + wire::digits(v as nat) =~= seq!['{' as u8] + tail);
    } else {
        let x = listed(plain_list(ms));
        assert(listed(list) == x + seq![',' as u8] + tail);
        assert(written + literal + wire::digits(v as nat) =~= seq!['{' as u8] + (x + seq![
            ',' as u8,
        ] + tail));
    }
}

proof fn lemma_write_trades(v: u64)
    ensures
        ({
            let after = Seq::<Member>::empty().push(pair(text::bytes_of("trades"), v));
            &&& plain_keys(after)
            &&& text::bytes_of("{\"trades\":") + wire::digits(v as nat) == seq!['{' as u8] + listed(
                plain_list(after),
            )
        }),
{
    let none = Seq::<Member>::empty();
    let empty = Seq::<u8>::empty();
    assert(plain_keys(none)) by {
        reveal(plain_keys);
    }
    lemma_literal_trades();
    lemma_next_member(empty, text::bytes_of("{\"trades\":"), none, text::bytes_of("trades"), v);
    assert(empty + text::bytes_of("{\"trades\":") =~= text::bytes_of("{\"trades\":"));
}

proof fn lemma_write_volume(written: Seq<u8>, ms: Seq<Member>, v: u64)
    requires
        ms.len() > 0,
        plain_keys(ms),
        written == seq!['{' as u8] + listed(plain_list(ms)),
    ensures
        ({
            let after = ms.push(pair(text::bytes_of("volume"), v));
            &&& plain_keys(after)
            &&& written + text::bytes_of(",\"volume\":") + wire::digits(v as nat) == seq!['{' as u8]
                + listed(plain_list(after))
        }),
{
    lemma_literal_volume();
    lemma_next_member(written, text::bytes_of(",\"volume\":"), ms, text::bytes_of("volume"), v);
}

proof fn lemma_write_bid_levels(written: Seq<u8>, ms: Seq<Member>, v: u64)
    requires
        ms.len() > 0,
        plain_keys(ms),
        written == seq!['{' as u8] + listed(plain_list(ms)),
    ensures
        ({
            let after = ms.push(pair(text::bytes_of("bid_levels"), v));
            &&& plain_keys(after)
            &&& written + text::bytes_of(",\"bid_levels\":") + wire::digits(v as nat) == seq!['{' as u8]
                + listed(plain_list(after))
        }),
{
    lemma_literal_bid_levels();
    lemma_next_member(written, text::bytes_of(",\"bid_levels\":"), ms, text::bytes_of("bid_levels"), v);
}

proof fn lemma_write_ask_levels(written: Seq<u8>, ms: Seq<Member>, v: u64)
    requires
        ms.len() > 0,
        plain_keys(ms),
        written == seq!['{' as u8] + listed(plain_list(ms)),
    ensures
        ({
            let after = ms.push(pair(text::bytes_of("ask_levels"), v));
            &&& plain_keys(after)
            &&& written + text::bytes_of(",\"ask_levels\":") + wire::digits(v as nat) == seq!['{' as u8]
                + listed(plain_list(after))
        }),
{
    lemma_literal_ask_levels();
    lemma_next_member(written, text::bytes_of(",\"ask_levels\":"), ms, text::bytes_of("ask_levels"), v);
}

proof fn lemma_write_resting(written: Seq<u8>, ms: Seq<Member>, v: u64)
    requires
        ms.len() > 0,
        plain_keys(ms),
        written == seq!['{' as u8] + listed(plain_list(ms)),
    ensures
        ({
            let after = ms.push(pair(text::bytes_of("resting"), v));
            &&& plain_keys(after)
            &&& written + text::bytes_of(",\"resting\":") + wire::digits(v as nat) == seq!['{' as u8]
                + listed(plain_list(after))
        }),
{
    lemma_literal_resting();
    lemma_next_member(written, text::bytes_of(",\"resting\":"), ms, text::bytes_of("resting"), v);
}

proof fn lemma_write_rejected(written: Seq<u8>, ms: Seq<Member>, v: u64)
    requires
        ms.len() > 0,
        plain_keys(ms),
        written == seq!['{' as u8] + listed(plain_list(ms)),
    ensures
        ({
            let after = ms.push(pair(text::bytes_of("rejected"), v));
            &&& plain_keys(after)
            &&& written + text::bytes_of(",\"rejected\":") + wire::digits(v as nat) == seq!['{' as u8]
                + listed(plain_list(after))
        }),
{
    lemma_literal_rejected();
    lemma_next_member(written, text::bytes_of(",\"rejected\":"), ms, text::bytes_of("rejected"), v);
}

/// The response to submitted orders is an object whose members name the trades and the volume.
pub proof fn law_totals_are_named(trades: u64, volume: u64)
    ensures
        names(
            service::response(Reply::Totals { trades, volume }),
            seq![
                pair(text::bytes_of("trades"), trades),
                pair(text::bytes_of("volume"), volume),
            ],
        ),
{
    let a = Seq::<Member>::empty().push(pair(text::bytes_of("trades"), trades));
    let b = a.push(pair(text::bytes_of("volume"), volume));
    let t1 = text::bytes_of("{\"trades\":") + wire::digits(trades as nat);
    let t2 = t1 + text::bytes_of(",\"volume\":") + wire::digits(volume as nat);
    lemma_write_trades(trades);
    lemma_write_volume(t1, a, volume);
    lemma_closing_brace();
    lemma_response_names(t2 + seq!['}' as u8], b);
    assert(b =~= seq![
        pair(text::bytes_of("trades"), trades),
        pair(text::bytes_of("volume"), volume),
    ]);
}

/// The response to a request for the state of the book is an object whose members name what they
/// hold.
#[verifier::spinoff_prover]
pub proof fn law_state_of_the_book_is_named(
    trades: u64,
    volume: u64,
    bid_levels: u64,
    ask_levels: u64,
    resting: u64,
    rejected: u64,
)
    ensures
        names(
            service::response(
                Reply::Stats { trades, volume, bid_levels, ask_levels, resting, rejected },
            ),
            seq![
                pair(text::bytes_of("trades"), trades),
                pair(text::bytes_of("volume"), volume),
                pair(text::bytes_of("bid_levels"), bid_levels),
                pair(text::bytes_of("ask_levels"), ask_levels),
                pair(text::bytes_of("resting"), resting),
                pair(text::bytes_of("rejected"), rejected),
            ],
        ),
{
    let a = Seq::<Member>::empty().push(pair(text::bytes_of("trades"), trades));
    let b = a.push(pair(text::bytes_of("volume"), volume));
    let c = b.push(pair(text::bytes_of("bid_levels"), bid_levels));
    let d = c.push(pair(text::bytes_of("ask_levels"), ask_levels));
    let e = d.push(pair(text::bytes_of("resting"), resting));
    let f = e.push(pair(text::bytes_of("rejected"), rejected));
    let t1 = text::bytes_of("{\"trades\":") + wire::digits(trades as nat);
    let t2 = t1 + text::bytes_of(",\"volume\":") + wire::digits(volume as nat);
    let t3 = t2 + text::bytes_of(",\"bid_levels\":") + wire::digits(bid_levels as nat);
    let t4 = t3 + text::bytes_of(",\"ask_levels\":") + wire::digits(ask_levels as nat);
    let t5 = t4 + text::bytes_of(",\"resting\":") + wire::digits(resting as nat);
    let t6 = t5 + text::bytes_of(",\"rejected\":") + wire::digits(rejected as nat);
    lemma_write_trades(trades);
    lemma_write_volume(t1, a, volume);
    lemma_write_bid_levels(t2, b, bid_levels);
    lemma_write_ask_levels(t3, c, ask_levels);
    lemma_write_resting(t4, d, resting);
    lemma_write_rejected(t5, e, rejected);
    lemma_closing_brace();
    lemma_response_names(t6 + seq!['}' as u8], f);
    assert(f =~= seq![
        pair(text::bytes_of("trades"), trades),
        pair(text::bytes_of("volume"), volume),
        pair(text::bytes_of("bid_levels"), bid_levels),
        pair(text::bytes_of("ask_levels"), ask_levels),
        pair(text::bytes_of("resting"), resting),
        pair(text::bytes_of("rejected"), rejected),
    ]);
}

/// Whether a message begins with the status `status`, of three digits.
pub open spec fn has_status(b: Seq<u8>, status: int) -> bool {
    &&& b.len() >= 13
    &&& b.take(9) == text::bytes_of("HTTP/1.1 ")
    &&& 100 * (b[9] - 48) + 10 * (b[10] - 48) + (b[11] - 48) == status
    &&& b[12] == 32
}

/// The status tells how a request fared: 200 with an answer, 204 after a reset, 400 for a request
/// that cannot be read and 404 for an unknown target.
pub proof fn law_status_tells_how_a_request_fared(reply: Reply)
    ensures
        has_status(
            service::response(reply),
            match reply {
                Reply::Totals { .. } => 200,
                Reply::Stats { .. } => 200,
                Reply::Emptied => 204,
                Reply::Malformed => 400,
                Reply::NotFound => 404,
            },
        ),
{
    reveal_strlit("HTTP/1.1 ");
    vstd::string::is_ascii_spec_bytes("HTTP/1.1 ");
    let r = service::response(reply);
    match reply {
        Reply::Emptied => {
            reveal_strlit("HTTP/1.1 204 No Content\r\nContent-Length: 0\r\n\r\n");
            vstd::string::is_ascii_spec_bytes(
                "HTTP/1.1 204 No Content\r\nContent-Length: 0\r\n\r\n",
            );
        },
        Reply::Malformed => {
            reveal_strlit("HTTP/1.1 400 Bad Request\r\nContent-Length: 0\r\n\r\n");
            vstd::string::is_ascii_spec_bytes(
                "HTTP/1.1 400 Bad Request\r\nContent-Length: 0\r\n\r\n",
            );
        },
        Reply::NotFound => {
            reveal_strlit("HTTP/1.1 404 Not Found\r\nContent-Length: 0\r\n\r\n");
            vstd::string::is_ascii_spec_bytes(
                "HTTP/1.1 404 Not Found\r\nContent-Length: 0\r\n\r\n",
            );
        },
        _ => {
            let start = text::bytes_of(
                "HTTP/1.1 200 OK\r\nContent-Type: application/json\r\nContent-Length: ",
            );
            reveal_strlit(
                "HTTP/1.1 200 OK\r\nContent-Type: application/json\r\nContent-Length: ",
            );
            vstd::string::is_ascii_spec_bytes(
                "HTTP/1.1 200 OK\r\nContent-Type: application/json\r\nContent-Length: ",
            );
            assert(r.take(13) =~= start.take(13));
            assert(r[9] == start[9] && r[10] == start[10] && r[11] == start[11] && r[12]
                == start[12]);
            assert(r.take(9) =~= start.take(9));
        },
    }
    assert(r.take(9) =~= text::bytes_of("HTTP/1.1 "));
}

} // verus!
