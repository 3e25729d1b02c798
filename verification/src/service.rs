//! The matching service: what a request on a connection does to the book and what is answered.
//!
//! A request is handled in three steps. It is decoded without the book, then carried out on the
//! book, and the answer is put into bytes without the book again; only the second step needs the
//! book for itself.

use vstd::prelude::*;
use crate::binary;
use crate::http;
use crate::http::{Frame, Route};
use crate::model;
use crate::model::BookView;
use crate::orderbook::OrderBook;
use crate::replay;
use crate::text;
use crate::types::{Order, Side};
use crate::wire;
use crate::wire::OrderMsg;

verus! {

/// How many decoded orders a connection has room for at first.
pub const STAGING_INIT: usize = 4096;

/// How many received bytes a connection has room for at first.
pub const RECEIVE_INIT: usize = 65536;

/// How many bytes of an answer a connection has room for at first.
pub const ANSWER_INIT: usize = 8192;

/// The side that a byte denotes.
pub open spec fn side_from(v: u8) -> Side {
    if v == 0 {
        Side::Buy
    } else {
        Side::Sell
    }
}

/// The side that a byte denotes.
pub fn side_of(v: u8) -> (side: Side)
    ensures
        side == side_from(v),
        v == 0 ==> side == Side::Buy,
        v != 0 ==> side == Side::Sell,
{
    if v == 0 {
        Side::Buy
    } else {
        Side::Sell
    }
}

/// The order in a message.
pub open spec fn order_of(m: OrderMsg) -> Order {
    Order { id: m.id, price: m.price, quantity: m.quantity, side: side_from(m.side) }
}

/// The orders in messages.
pub open spec fn orders_of(messages: Seq<OrderMsg>) -> Seq<Order> {
    messages.map_values(|m: OrderMsg| order_of(m))
}

/// What a request amounts to.
#[derive(Clone, Copy, Debug, PartialEq, Eq, Structural)]
pub enum Command {
    /// Submit the orders that came with it.
    Submit,
    /// Report the state of the book.
    Stats,
    /// Empty the book.
    Reset,
    /// Nothing: its body cannot be read.
    Malformed,
    /// Nothing: its target is unknown.
    NotFound,
}

/// What a request with a given body amounts to, and the orders that come with it.
pub open spec fn command(route: Route, body: Seq<u8>) -> (Command, Seq<OrderMsg>) {
    match route {
        Route::Order => match wire::order_object(body, 0) {
            Some((m, _)) => (Command::Submit, seq![m]),
            None => (Command::Malformed, Seq::empty()),
        },
        Route::Batch => if wire::batch(body).end is Some {
            (Command::Submit, wire::batch(body).orders)
        } else {
            (Command::Malformed, Seq::empty())
        },
        Route::BatchBin => if body.len() % binary::RECORD as nat == 0 {
            (Command::Submit, binary::records(body))
        } else {
            (Command::Malformed, Seq::empty())
        },
        Route::Stats => (Command::Stats, Seq::empty()),
        Route::Reset => (Command::Reset, Seq::empty()),
        Route::Unknown => (Command::NotFound, Seq::empty()),
    }
}

/// Decodes a request; the orders that come with it are put into `orders`.
pub fn decode(route: Route, body: &[u8], orders: &mut Vec<OrderMsg>) -> (c: Command)
    ensures
        (c, final(orders)@) == command(route, body@),
{
    orders.clear();
    match route {
        Route::Order => match wire::scan_single(body) {
            Some(m) => {
                orders.push(m);
                assert(orders@ =~= seq![m]);
                Command::Submit
            },
            None => Command::Malformed,
        },
        Route::Batch => match wire::scan_batch(body, orders) {
            Some(_) => {
                assert(orders@ =~= wire::batch(body@).orders);
                Command::Submit
            },
            None => {
                orders.clear();
                Command::Malformed
            },
        },
        Route::BatchBin => if binary::read_records(body, orders) {
            assert(orders@ =~= binary::records(body@));
            Command::Submit
        } else {
            Command::Malformed
        },
        Route::Stats => Command::Stats,
        Route::Reset => Command::Reset,
        Route::Unknown => Command::NotFound,
    }
}

/// What is answered.
#[derive(Clone, Copy, Debug, PartialEq, Eq, Structural)]
pub enum Reply {
    /// The trades and the volume so far.
    Totals { trades: u64, volume: u64 },
    /// The state of the book.
    Stats {
        trades: u64,
        volume: u64,
        bid_levels: u64,
        ask_levels: u64,
        resting: u64,
        rejected: u64,
    },
    /// The book has been emptied.
    Emptied,
    /// The request could not be read.
    Malformed,
    /// The target is unknown.
    NotFound,
}

/// The totals of a book.
pub open spec fn totals(book: BookView) -> Reply {
    Reply::Totals { trades: book.trades as u64, volume: book.volume as u64 }
}

/// The state of a book.
pub open spec fn stats(book: BookView) -> Reply {
    Reply::Stats {
        trades: book.trades as u64,
        volume: book.volume as u64,
        bid_levels: model::prices(book.bids).len() as u64,
        ask_levels: model::prices(book.asks).len() as u64,
        resting: book.resting() as u64,
        rejected: book.rejected as u64,
    }
}

/// Submits the orders of a request in turn, up to the first that the book cannot handle within the
/// machine's number ranges; how many it has handled.
pub fn submit_all(book: &mut OrderBook, messages: &[OrderMsg]) -> (n: usize)
    requires
        old(book).wf(),
    ensures
        final(book).wf(),
        n == replay::handled(old(book)@, old(book).capacity() as int, orders_of(messages@)),
        n <= messages@.len(),
        final(book)@ == replay::accept(old(book)@, orders_of(messages@).take(n as int)),
        final(book).capacity() == replay::slots(
            old(book)@,
            old(book).capacity() as int,
            orders_of(messages@).take(n as int),
        ),
{
    let ghost start = *book;
    let ghost orders = orders_of(messages@);
    let mut n: usize = 0;
    while n < messages.len()
        invariant
            start == *old(book),
            orders == orders_of(messages@),
            book.wf(),
            n <= messages@.len(),
            replay::handled(start@, start.capacity() as int, orders.take(n as int)) == n,
            book@ == replay::accept(start@, orders.take(n as int)),
            book.capacity() == replay::slots(
                start@,
                start.capacity() as int,
                orders.take(n as int),
            ),
        decreases messages@.len() - n,
    {
        let m: OrderMsg = messages[n];
        let order = Order {
            id: m.id,
            price: m.price,
            quantity: m.quantity,
            side: side_of(m.side),
        };
        if !replay::submit_next(book, order, Ghost(start), Ghost(orders), Ghost(n as int)) {
            return n;
        }
        n = n + 1;
    }
    assert(orders.take(n as int) =~= orders);
    n
}

/// The book after a command.
pub open spec fn book_after(
    book: BookView,
    capacity: int,
    c: Command,
    messages: Seq<OrderMsg>,
) -> BookView {
    match c {
        Command::Submit => replay::accept(
            book,
            orders_of(messages).take(
                replay::handled(book, capacity, orders_of(messages)) as int,
            ),
        ),
        Command::Reset => BookView::empty(None),
        _ => book,
    }
}

/// The order slots of the book after a command.
pub open spec fn slots_after(
    book: BookView,
    capacity: int,
    c: Command,
    messages: Seq<OrderMsg>,
) -> int {
    match c {
        Command::Submit => replay::slots(
            book,
            capacity,
            orders_of(messages).take(
                replay::handled(book, capacity, orders_of(messages)) as int,
            ),
        ),
        _ => capacity,
    }
}

/// What is answered to a command; nothing where the book could not handle all orders.
pub open spec fn reply_to(
    book: BookView,
    capacity: int,
    c: Command,
    messages: Seq<OrderMsg>,
) -> Option<Reply> {
    match c {
        Command::Submit => if replay::handled(book, capacity, orders_of(messages))
            == messages.len() {
            Some(totals(book_after(book, capacity, c, messages)))
        } else {
            None
        },
        Command::Stats => Some(stats(book)),
        Command::Reset => Some(Reply::Emptied),
        Command::Malformed => Some(Reply::Malformed),
        Command::NotFound => Some(Reply::NotFound),
    }
}

/// Carries out a command. Where the book cannot handle an order within the machine's number ranges
/// the orders behind it are dropped and there is no reply.
pub fn perform(book: &mut OrderBook, c: Command, messages: &[OrderMsg]) -> (reply: Option<Reply>)
    requires
        old(book).wf(),
    ensures
        final(book).wf(),
        final(book)@ == book_after(old(book)@, old(book).capacity() as int, c, messages@),
        final(book).capacity() == slots_after(
            old(book)@,
            old(book).capacity() as int,
            c,
            messages@,
        ),
        reply == reply_to(old(book)@, old(book).capacity() as int, c, messages@),
        c == Command::Submit && reply is Some ==> {
            &&& reply->0 is Totals
            &&& reply->0->Totals_trades == final(book)@.trades
            &&& reply->0->Totals_volume == final(book)@.volume
        },
        c == Command::Stats ==> {
            &&& reply is Some
            &&& reply->0 is Stats
            &&& reply->0->Stats_trades == old(book)@.trades
            &&& reply->0->Stats_volume == old(book)@.volume
            &&& reply->0->bid_levels == model::prices(old(book)@.bids).len()
            &&& reply->0->ask_levels == model::prices(old(book)@.asks).len()
            &&& reply->0->resting == old(book)@.bids.len() + old(book)@.asks.len()
            &&& reply->0->rejected == old(book)@.rejected
        },
{
    match c {
        Command::Submit => {
            let n: usize = submit_all(book, messages);
            if n == messages.len() {
                let (trades, volume) = book.totals();
                Some(Reply::Totals { trades, volume })
            } else {
                None
            }
        },
        Command::Stats => {
            let (trades, volume) = book.totals();
            Some(
                Reply::Stats {
                    trades,
                    volume,
                    bid_levels: book.bid_levels() as u64,
                    ask_levels: book.ask_levels() as u64,
                    resting: book.resting_orders() as u64,
                    rejected: book.refused(),
                },
            )
        },
        Command::Reset => {
            book.reset();
            Some(Reply::Emptied)
        },
        Command::Malformed => Some(Reply::Malformed),
        Command::NotFound => Some(Reply::NotFound),
    }
}

/// The reply to a command that has nothing to do with the book.
pub fn reply_without_book(c: Command) -> (reply: Option<Reply>)
    ensures
        reply is Some == (c == Command::Malformed || c == Command::NotFound),
        reply is Some ==> forall|book: BookView, capacity: int, messages: Seq<OrderMsg>| #[trigger]
            reply_to(book, capacity, c, messages) == reply && book_after(
                book,
                capacity,
                c,
                messages,
            ) == book,
{
    match c {
        Command::Malformed => Some(Reply::Malformed),
        Command::NotFound => Some(Reply::NotFound),
        _ => None,
    }
}

/// A response with a body.
pub open spec fn ok_response(body: Seq<u8>) -> Seq<u8> {
    text::bytes_of(
        "HTTP/1.1 200 OK\r\nContent-Type: application/json\r\nContent-Length: ",
    ) + wire::digits(body.len()) + text::bytes_of("\r\n\r\n") + body
}

/// The totals of the book as text.
pub open spec fn totals_text(trades: u64, volume: u64) -> Seq<u8> {
    text::bytes_of("{\"trades\":") + wire::digits(trades as nat) + text::bytes_of(",\"volume\":")
        + wire::digits(volume as nat) + text::bytes_of("}")
}

/// The state of the book as text.
pub open spec fn stats_text(reply: Reply) -> Seq<u8> {
    match reply {
        Reply::Stats { trades, volume, bid_levels, ask_levels, resting, rejected } => {
            text::bytes_of("{\"trades\":") + wire::digits(trades as nat) + text::bytes_of(
                ",\"volume\":",
            ) + wire::digits(volume as nat) + text::bytes_of(",\"bid_levels\":") + wire::digits(
                bid_levels as nat,
            ) + text::bytes_of(",\"ask_levels\":") + wire::digits(ask_levels as nat)
                + text::bytes_of(",\"resting\":") + wire::digits(resting as nat) + text::bytes_of(
                ",\"rejected\":",
            ) + wire::digits(rejected as nat) + text::bytes_of("}")
        },
        _ => Seq::empty(),
    }
}

/// A response as bytes.
pub open spec fn response(reply: Reply) -> Seq<u8> {
    match reply {
        Reply::Totals { trades, volume } => ok_response(totals_text(trades, volume)),
        Reply::Stats { .. } => ok_response(stats_text(reply)),
        Reply::Emptied => text::bytes_of("HTTP/1.1 204 No Content\r\nContent-Length: 0\r\n\r\n"),
        Reply::Malformed => text::bytes_of(
            "HTTP/1.1 400 Bad Request\r\nContent-Length: 0\r\n\r\n",
        ),
        Reply::NotFound => text::bytes_of("HTTP/1.1 404 Not Found\r\nContent-Length: 0\r\n\r\n"),
    }
}

/// Appends a response with a body.
fn respond_ok(out: &mut Vec<u8>, body: &[u8])
    ensures
        final(out)@ == old(out)@ + ok_response(body@),
{
    text::push_text(
        out,
        "HTTP/1.1 200 OK\r\nContent-Type: application/json\r\nContent-Length: ",
    );
    wire::write_u64(out, body.len() as u64);
    text::push_text(out, "\r\n\r\n");
    text::push_bytes(out, body);
    assert(out@ =~= old(out)@ + ok_response(body@));
}

/// Appends the response to submitted orders.
pub fn respond_engine(out: &mut Vec<u8>, trades: u64, volume: u64)
    ensures
        final(out)@ == old(out)@ + response(Reply::Totals { trades, volume }),
{
    let mut body: Vec<u8> = Vec::with_capacity(64);
    text::push_text(&mut body, "{\"trades\":");
    wire::write_u64(&mut body, trades);
    text::push_text(&mut body, ",\"volume\":");
    wire::write_u64(&mut body, volume);
    text::push_text(&mut body, "}");
    assert(body@ =~= totals_text(trades, volume));
    respond_ok(out, body.as_slice());
}

/// Appends a response.
pub fn respond(out: &mut Vec<u8>, reply: Reply)
    ensures
        final(out)@ == old(out)@ + response(reply),
{
    match reply {
        Reply::Totals { trades, volume } => {
            respond_engine(out, trades, volume);
        },
        Reply::Stats { trades, volume, bid_levels, ask_levels, resting, rejected } => {
            let mut body: Vec<u8> = Vec::with_capacity(128);
            text::push_text(&mut body, "{\"trades\":");
            wire::write_u64(&mut body, trades);
            text::push_text(&mut body, ",\"volume\":");
            wire::write_u64(&mut body, volume);
            text::push_text(&mut body, ",\"bid_levels\":");
            wire::write_u64(&mut body, bid_levels);
            text::push_text(&mut body, ",\"ask_levels\":");
            wire::write_u64(&mut body, ask_levels);
            text::push_text(&mut body, ",\"resting\":");
            wire::write_u64(&mut body, resting);
            text::push_text(&mut body, ",\"rejected\":");
            wire::write_u64(&mut body, rejected);
            text::push_text(&mut body, "}");
            respond_ok(out, body.as_slice());
            assert(out@ =~= old(out)@ + response(reply));
        },
        Reply::Emptied => text::push_text(
            out,
            "HTTP/1.1 204 No Content\r\nContent-Length: 0\r\n\r\n",
        ),
        Reply::Malformed => text::push_text(
            out,
            "HTTP/1.1 400 Bad Request\r\nContent-Length: 0\r\n\r\n",
        ),
        Reply::NotFound => text::push_text(
            out,
            "HTTP/1.1 404 Not Found\r\nContent-Length: 0\r\n\r\n",
        ),
    }
}

/// What to do next on a connection.
#[derive(Clone, Copy, Debug, PartialEq, Eq, Structural)]
pub enum Step {
    /// Read more bytes.
    Read,
    /// Give the connection up: the request is longer than a buffer can be.
    HangUp,
    /// Carry out a command and send its reply.
    Handle(Command),
}

/// What was read on a connection and is not yet answered, and what is to be sent on it.
pub struct Connection {
    received: Vec<u8>,
    staging: Vec<OrderMsg>,
    out: Vec<u8>,
}

impl Connection {
    /// The bytes that were received and belong to no request handled so far.
    pub closed spec fn pending(&self) -> Seq<u8> {
        self.received@
    }

    /// The orders of the request at hand.
    pub closed spec fn orders(&self) -> Seq<OrderMsg> {
        self.staging@
    }

    /// The response to the request at hand.
    pub closed spec fn answer(&self) -> Seq<u8> {
        self.out@
    }

    /// A connection on which nothing was received.
    pub fn new() -> (c: Connection)
        ensures
            c.pending() == Seq::<u8>::empty(),
            c.orders() == Seq::<OrderMsg>::empty(),
            c.answer() == Seq::<u8>::empty(),
    {
        Connection {
            received: Vec::with_capacity(RECEIVE_INIT),
            staging: Vec::with_capacity(STAGING_INIT),
            out: Vec::with_capacity(ANSWER_INIT),
        }
    }

    /// Takes in bytes that were read.
    pub fn receive(&mut self, chunk: &[u8])
        ensures
            final(self).pending() == old(self).pending() + chunk@,
            final(self).orders() == old(self).orders(),
            final(self).answer() == old(self).answer(),
    {
        text::push_bytes(&mut self.received, chunk);
    }

    /// Turns to the next request, if it has arrived as a whole. Bytes behind it stay for the one
    /// after.
    pub fn advance(&mut self) -> (step: Step)
        ensures
            match http::frame(old(self).pending()) {
                Frame::Incomplete => step == Step::Read && *final(self) == *old(self),
                Frame::TooLong => step == Step::HangUp && *final(self) == *old(self),
                Frame::Request { route, length, end } => {
                    let body = old(self).pending().subrange(end - length, end as int);
                    &&& step is Handle
                    &&& (step->Handle_0, final(self).orders()) == command(route, body)
                    &&& final(self).pending() == old(self).pending().skip(end as int)
                    &&& final(self).answer() == old(self).answer()
                },
            },
    {
        match http::next_request(self.received.as_slice()) {
            Frame::Incomplete => Step::Read,
            Frame::TooLong => Step::HangUp,
            Frame::Request { route, length, end } => {
                let body: &[u8] = &self.received.as_slice()[end - length..end];
                let c: Command = decode(route, body, &mut self.staging);
                let rest: Vec<u8> = self.received.split_off(end);
                self.received = rest;
                Step::Handle(c)
            },
        }
    }

    /// Carries out the command of the request at hand.
    pub fn perform(&self, book: &mut OrderBook, c: Command) -> (reply: Option<Reply>)
        requires
            old(book).wf(),
        ensures
            final(book).wf(),
            final(book)@ == book_after(old(book)@, old(book).capacity() as int, c, self.orders()),
            final(book).capacity() == slots_after(
                old(book)@,
                old(book).capacity() as int,
                c,
                self.orders(),
            ),
            reply == reply_to(old(book)@, old(book).capacity() as int, c, self.orders()),
    {
        perform(book, c, self.staging.as_slice())
    }

    /// Puts a reply into bytes.
    pub fn respond(&mut self, reply: Reply)
        ensures
            final(self).answer() == response(reply),
            final(self).orders() == Seq::<OrderMsg>::empty(),
            final(self).pending() == old(self).pending(),
    {
        self.out.clear();
        self.staging.clear();
        respond(&mut self.out, reply);
        assert(self.out@ =~= response(reply));
    }

    /// The response to the request at hand.
    pub fn output(&self) -> (bytes: &[u8])
        ensures
            bytes@ == self.answer(),
    {
        self.out.as_slice()
    }
}

/// A request that is malformed, has an unknown target or only asks for the state of the book leaves
/// the book as it is, and is answered.
pub proof fn law_book_changes_by_orders_and_reset_only(
    book: BookView,
    capacity: int,
    route: Route,
    body: Seq<u8>,
)
    requires
        ({
            let c = command(route, body).0;
            c != Command::Submit && c != Command::Reset
        }),
    ensures
        ({
            let (c, messages) = command(route, body);
            &&& book_after(book, capacity, c, messages) == book
            &&& slots_after(book, capacity, c, messages) == capacity
            &&& reply_to(book, capacity, c, messages) == Some(
                match c {
                    Command::Stats => stats(book),
                    Command::Malformed => Reply::Malformed,
                    _ => Reply::NotFound,
                },
            )
        }),
{
}

/// A batch is handled as its orders one by one would be, each in a request of its own.
pub proof fn law_batch_is_its_orders_in_turn(
    book: BookView,
    capacity: int,
    first: Seq<OrderMsg>,
    second: Seq<OrderMsg>,
)
    requires
        replay::handled(book, capacity, orders_of(first + second)) == first.len() + second.len(),
    ensures
        ({
            let mid = book_after(book, capacity, Command::Submit, first);
            let slots = slots_after(book, capacity, Command::Submit, first);
            &&& book_after(book, capacity, Command::Submit, first + second) == book_after(
                mid,
                slots,
                Command::Submit,
                second,
            )
            &&& reply_to(book, capacity, Command::Submit, first + second) == reply_to(
                mid,
                slots,
                Command::Submit,
                second,
            )
        }),
{
    let a = orders_of(first);
    let b = orders_of(second);
    assert(orders_of(first + second) =~= a + b);
    replay::law_handling_comes_in_parts(book, capacity, a, b);
    assert(a.take(a.len() as int) =~= a);
    assert(b.take(b.len() as int) =~= b);
    assert((a + b).take((a + b).len() as int) =~= a + b);
}

} // verus!
