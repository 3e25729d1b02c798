use matching_engine::binary::{read_records, RECORD};
use matching_engine::http::{
    content_length, find_crlf2, next_request, route_of, try_content_length, Frame, Route,
};
use matching_engine::orderbook::OrderBook;
use matching_engine::service::{
    decode, perform, reply_without_book, respond, respond_engine, side_of, submit_all, Command,
    Connection, Reply, Step,
};
use matching_engine::types::Side;
use matching_engine::wire::OrderMsg;

fn record(id: u64, price: u64, quantity: u32, side: u8) -> Vec<u8> {
    let mut r = Vec::new();
    r.extend_from_slice(&id.to_le_bytes());
    r.extend_from_slice(&price.to_le_bytes());
    r.extend_from_slice(&quantity.to_le_bytes());
    r.push(side);
    r.extend_from_slice(&[0xaa, 0xbb, 0xcc]);
    r
}

fn request(target: &str, body: &[u8]) -> Vec<u8> {
    let head = format!("POST {} HTTP/1.1\r\nContent-Length: {}\r\n\r\n", target, body.len());
    let mut r = head.into_bytes();
    r.extend_from_slice(body);
    r
}

fn serve(conn: &mut Connection, book: &mut OrderBook) -> Option<String> {
    match conn.advance() {
        Step::Handle(c) => {
            let reply = conn.perform(book, c)?;
            conn.respond(reply);
            Some(String::from_utf8(conn.output().to_vec()).unwrap())
        }
        _ => None,
    }
}

#[test]
fn blank_line_is_found() {
    assert_eq!(find_crlf2(b"ab\r\n\r\ncd", 0), Some(2));
    assert_eq!(find_crlf2(b"\r\n\r\n", 0), Some(0));
    assert_eq!(find_crlf2(b"\r\n\r", 0), None);
    assert_eq!(find_crlf2(b"abc\r\n\rdef", 0), None);
    assert_eq!(find_crlf2(b"a\r\n\r\n\r\n\r\n", 0), Some(1));
    // The search begins three bytes in front of what is new.
    assert_eq!(find_crlf2(b"ab\r\n\r\ncd", 5), Some(2));
    assert_eq!(find_crlf2(b"ab\r\n\r\ncd", 6), None);
    assert_eq!(find_crlf2(b"abcd", 7), None);
}

#[test]
fn content_length_is_read_without_case() {
    assert_eq!(content_length(b"GET / HTTP/1.1\r\nContent-Length: 42\r\n\r\n"), 42);
    assert_eq!(content_length(b"GET / HTTP/1.1\r\nCONTENT-length:\t 7\r\n\r\n"), 7);
    assert_eq!(content_length(b"GET / HTTP/1.1\r\nHost: x\r\n\r\n"), 0);
    assert_eq!(content_length(b"GET / HTTP/1.1\r\nContent-Length: x\r\n\r\n"), 0);
    assert_eq!(content_length(b"GET / HTTP/1.1\r\nContent-Length : 5\r\n\r\n"), 0);
    assert_eq!(content_length(b"x\nX-Content-Length: 5\r\ncontent-length:3\r\n"), 3);
    // The first one counts.
    assert_eq!(content_length(b"x\ncontent-length:3\r\ncontent-length:4\r\n"), 3);
    assert_eq!(content_length(b""), 0);
}

#[test]
fn content_length_that_does_not_fit() {
    assert_eq!(try_content_length(b"x\ncontent-length:99999999999999999999999\r\n"), None);
    assert_eq!(
        try_content_length(b"x\ncontent-length:18446744073709551615\r\n"),
        Some(usize::MAX)
    );
    assert_eq!(try_content_length(b"x\ncontent-length:18446744073709551616\r\n"), None);
}

#[test]
fn routes() {
    assert_eq!(route_of(b"POST /order HTTP/1.1"), Route::Order);
    assert_eq!(route_of(b"POST /batch HTTP/1.1"), Route::Batch);
    assert_eq!(route_of(b"POST /batch/bin HTTP/1.1"), Route::BatchBin);
    assert_eq!(route_of(b"GET /stats"), Route::Stats);
    assert_eq!(route_of(b"GET /reset "), Route::Reset);
    assert_eq!(route_of(b"GET / HTTP/1.1"), Route::Unknown);
    assert_eq!(route_of(b"GET /orders HTTP/1.1"), Route::Unknown);
    assert_eq!(route_of(b"/order"), Route::Unknown);
    assert_eq!(route_of(b""), Route::Unknown);
}

#[test]
fn request_is_framed() {
    let r = request("/order", b"hello");
    match next_request(&r) {
        Frame::Request { route, length, end } => {
            assert_eq!(route, Route::Order);
            assert_eq!(length, 5);
            assert_eq!(end, r.len());
        }
        _ => panic!("no request"),
    }
    for n in 0..r.len() {
        assert!(matches!(next_request(&r[..n]), Frame::Incomplete));
    }
    let mut more = r.clone();
    more.extend_from_slice(b"GET /sta");
    match next_request(&more) {
        Frame::Request { end, .. } => assert_eq!(end, r.len()),
        _ => panic!("no request"),
    }
}

#[test]
fn request_too_long_to_hold() {
    let b = b"POST /order HTTP/1.1\r\nContent-Length: 18446744073709551615\r\n\r\n";
    assert!(matches!(next_request(b), Frame::TooLong));
    let b = b"POST /order HTTP/1.1\r\nContent-Length: 9223372036854775807\r\n\r\n";
    assert!(matches!(next_request(b), Frame::TooLong));
    let mut conn = Connection::new();
    conn.receive(b);
    assert_eq!(conn.advance(), Step::HangUp);
    let b = b"POST /order HTTP/1.1\r\nContent-Length: 1000000000\r\n\r\n";
    assert!(matches!(next_request(b), Frame::Incomplete));
}

#[test]
fn sides_of_bytes() {
    assert_eq!(side_of(0), Side::Buy);
    assert_eq!(side_of(1), Side::Sell);
    assert_eq!(side_of(255), Side::Sell);
}

#[test]
fn records_are_read_back() {
    let mut body = record(1, 10_000, 5, 0);
    body.extend_from_slice(&record(u64::MAX, 0x0102_0304_0506_0708, u32::MAX, 1));
    assert_eq!(body.len(), 2 * RECORD);
    let mut got = Vec::new();
    assert!(read_records(&body, &mut got));
    assert_eq!(
        got,
        vec![
            OrderMsg { id: 1, price: 10_000, quantity: 5, side: 0 },
            OrderMsg {
                id: u64::MAX,
                price: 0x0102_0304_0506_0708,
                quantity: u32::MAX as u64,
                side: 1
            },
        ]
    );
    assert!(!read_records(&body[..47], &mut got));
    assert_eq!(got.len(), 2);
    assert!(read_records(b"", &mut got));
    assert_eq!(got.len(), 2);
}

#[test]
fn requests_are_decoded() {
    let mut orders = vec![OrderMsg::default()];
    let single = br#"{"id":7,"price":10000,"quantity":5,"side":1}"#;
    assert_eq!(decode(Route::Order, single, &mut orders), Command::Submit);
    assert_eq!(orders, vec![OrderMsg { id: 7, price: 10_000, quantity: 5, side: 1 }]);
    let batch = br#"{"orders":[{"id":1,"price":10,"quantity":2,"side":0}]}"#;
    assert_eq!(decode(Route::Batch, batch, &mut orders), Command::Submit);
    assert_eq!(orders.len(), 1);
    let broken = br#"{"orders":[{"id":1,"price":10,"quantity":2,"side":0},"#;
    assert_eq!(decode(Route::Batch, broken, &mut orders), Command::Malformed);
    assert!(orders.is_empty());
    assert_eq!(decode(Route::BatchBin, &record(1, 2, 3, 0), &mut orders), Command::Submit);
    assert_eq!(orders, vec![OrderMsg { id: 1, price: 2, quantity: 3, side: 0 }]);
    assert_eq!(decode(Route::BatchBin, b"x", &mut orders), Command::Malformed);
    assert_eq!(decode(Route::Order, b"x", &mut orders), Command::Malformed);
    assert_eq!(decode(Route::Stats, b"", &mut orders), Command::Stats);
    assert_eq!(decode(Route::Reset, b"", &mut orders), Command::Reset);
    assert_eq!(decode(Route::Unknown, b"", &mut orders), Command::NotFound);
    assert!(orders.is_empty());
}

#[test]
fn engine_response() {
    let mut out = b"x".to_vec();
    respond_engine(&mut out, 12, 345);
    assert_eq!(
        String::from_utf8(out).unwrap(),
        "xHTTP/1.1 200 OK\r\nContent-Type: application/json\r\nContent-Length: 26\r\n\r\n{\"trades\":12,\"volume\":345}"
    );
}

#[test]
fn responses_announce_their_length() {
    let replies = [
        Reply::Totals { trades: u64::MAX, volume: 0 },
        Reply::Stats {
            trades: 1,
            volume: 2,
            bid_levels: 3,
            ask_levels: 4,
            resting: 5,
            rejected: u64::MAX,
        },
        Reply::Emptied,
        Reply::Malformed,
        Reply::NotFound,
    ];
    for reply in replies {
        let mut out = Vec::new();
        respond(&mut out, reply);
        let end = find_crlf2(&out, 0).unwrap() + 4;
        assert_eq!(end + content_length(&out[..end]), out.len());
    }
}

#[test]
fn stats_response() {
    let mut book = OrderBook::new(64, 10_000);
    let orders = [
        OrderMsg { id: 1, price: 10_000, quantity: 5, side: 0 },
        OrderMsg { id: 2, price: 10_001, quantity: 5, side: 1 },
        OrderMsg { id: 3, price: 10_000, quantity: 2, side: 1 },
        OrderMsg { id: 4, price: 10_000, quantity: 0, side: 1 },
    ];
    assert_eq!(submit_all(&mut book, &orders), 4);
    let reply = perform(&mut book, Command::Stats, &[]).unwrap();
    assert_eq!(
        reply,
        Reply::Stats {
            trades: 1,
            volume: 2,
            bid_levels: 1,
            ask_levels: 1,
            resting: 2,
            rejected: 1
        }
    );
    let mut out = Vec::new();
    respond(&mut out, reply);
    assert_eq!(
        String::from_utf8(out).unwrap(),
        "HTTP/1.1 200 OK\r\nContent-Type: application/json\r\nContent-Length: 78\r\n\r\n{\"trades\":1,\"volume\":2,\"bid_levels\":1,\"ask_levels\":1,\"resting\":2,\"rejected\":1}"
    );
}

#[test]
fn conversation_on_a_connection() {
    let mut book = OrderBook::new(64, 10_000);
    let mut conn = Connection::new();
    assert_eq!(serve(&mut conn, &mut book), None);
    conn.receive(&request("/order", br#"{"id":1,"price":10000,"quantity":5,"side":1}"#));
    let answer = serve(&mut conn, &mut book).unwrap();
    assert!(answer.ends_with("\r\n\r\n{\"trades\":0,\"volume\":0}"));
    conn.receive(&request("/order", br#"{"id":2,"price":10000,"quantity":3,"side":0}"#));
    let answer = serve(&mut conn, &mut book).unwrap();
    assert!(answer.ends_with("\r\n\r\n{\"trades\":1,\"volume\":3}"));
    conn.receive(&request("/nowhere", b""));
    assert_eq!(
        serve(&mut conn, &mut book).unwrap(),
        "HTTP/1.1 404 Not Found\r\nContent-Length: 0\r\n\r\n"
    );
    conn.receive(&request("/order", b"{}"));
    assert_eq!(
        serve(&mut conn, &mut book).unwrap(),
        "HTTP/1.1 400 Bad Request\r\nContent-Length: 0\r\n\r\n"
    );
    assert_eq!(book.totals(), (1, 3));
    conn.receive(b"GET /reset HTTP/1.1\r\n\r\n");
    assert_eq!(
        serve(&mut conn, &mut book).unwrap(),
        "HTTP/1.1 204 No Content\r\nContent-Length: 0\r\n\r\n"
    );
    assert_eq!(book.totals(), (0, 0));
    assert_eq!(book.resting_orders(), 0);
    assert_eq!(serve(&mut conn, &mut book), None);
}

#[test]
fn portions_do_not_matter() {
    let mut stream = request("/order", br#"{"id":1,"price":10000,"quantity":5,"side":1}"#);
    stream.extend_from_slice(&request("/batch/bin", &record(2, 10_000, 3, 0)));
    stream.extend_from_slice(&request("/stats", b""));
    let mut at_once = Vec::new();
    let mut conn = Connection::new();
    let mut book = OrderBook::new(64, 10_000);
    conn.receive(&stream);
    while let Some(answer) = serve(&mut conn, &mut book) {
        at_once.push(answer);
    }
    assert_eq!(at_once.len(), 3);
    for size in [1, 7, 50] {
        let mut answers = Vec::new();
        let mut conn = Connection::new();
        let mut book = OrderBook::new(64, 10_000);
        for chunk in stream.chunks(size) {
            conn.receive(chunk);
            while let Some(answer) = serve(&mut conn, &mut book) {
                answers.push(answer);
            }
        }
        assert_eq!(answers, at_once);
    }
}

#[test]
fn batch_is_its_orders_in_turn() {
    let one = br#"{"id":1,"price":10000,"quantity":5,"side":1}"#;
    let two = br#"{"id":2,"price":10000,"quantity":7,"side":0}"#;
    let batch = br#"{"orders":[{"id":1,"price":10000,"quantity":5,"side":1},{"id":2,"price":10000,"quantity":7,"side":0}]}"#;
    let mut a = OrderBook::new(64, 10_000);
    let mut b = OrderBook::new(64, 10_000);
    let mut conn = Connection::new();
    conn.receive(&request("/order", one));
    conn.receive(&request("/order", two));
    serve(&mut conn, &mut a).unwrap();
    let last = serve(&mut conn, &mut a).unwrap();
    conn.receive(&request("/batch", batch));
    assert_eq!(serve(&mut conn, &mut b).unwrap(), last);
    assert_eq!(a.totals(), b.totals());
    assert_eq!(a.best_bid(), b.best_bid());
}

#[test]
fn broken_batch_leaves_the_book_alone() {
    let mut book = OrderBook::new(64, 10_000);
    let mut conn = Connection::new();
    conn.receive(&request(
        "/batch",
        br#"{"orders":[{"id":1,"price":10000,"quantity":5,"side":1},{"id":2}]}"#,
    ));
    assert_eq!(
        serve(&mut conn, &mut book).unwrap(),
        "HTTP/1.1 400 Bad Request\r\nContent-Length: 0\r\n\r\n"
    );
    assert_eq!(book.resting_orders(), 0);
}

#[test]
fn orders_beyond_the_number_range_get_no_reply() {
    let mut book = OrderBook::new(64, 10_000);
    let orders = [
        OrderMsg { id: 1, price: 10_000, quantity: u64::MAX, side: 0 },
        OrderMsg { id: 2, price: 10_000, quantity: 1, side: 0 },
        OrderMsg { id: 3, price: 10_001, quantity: 1, side: 0 },
    ];
    assert_eq!(perform(&mut book, Command::Submit, &orders), None);
    assert_eq!(book.resting_orders(), 1);
}

#[test]
fn some_replies_need_no_book() {
    assert_eq!(reply_without_book(Command::Malformed), Some(Reply::Malformed));
    assert_eq!(reply_without_book(Command::NotFound), Some(Reply::NotFound));
    assert_eq!(reply_without_book(Command::Submit), None);
    assert_eq!(reply_without_book(Command::Stats), None);
    assert_eq!(reply_without_book(Command::Reset), None);
}
