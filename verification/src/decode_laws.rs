//! Laws of what a request amounts to.

use vstd::prelude::*;
use crate::binary;
use crate::http::Route;
use crate::layout_laws;
use crate::layout_laws::{BatchText, ObjectText};
use crate::model;
use crate::model::BookView;
use crate::replay;
use crate::service;
use crate::service::{Command, Reply};
use crate::types::Side;
use crate::wire;
use crate::wire::OrderMsg;
use crate::wire_laws;

verus! {

/// A batch of any length that is written out is decoded as the command to submit all its orders, in
/// their order.
pub proof fn law_written_batch_is_decoded(messages: Seq<OrderMsg>)
    ensures
        service::command(Route::Batch, wire_laws::batch_text(messages)) == (
            Command::Submit,
            messages,
        ),
{
    wire_laws::law_written_batch_is_read_back(messages);
}

/// A batch in any layout is decoded as the command to submit what each of its objects describes, in
/// turn, if all of them can be read, and is otherwise malformed and brings no orders.
pub proof fn law_batch_is_decoded_object_by_object(t: BatchText, n: int, more: Seq<u8>)
    requires
        t.wf(),
        layout_laws::readable(t.elements, n),
    ensures
        ({
            let (c, messages) = service::command(Route::Batch, t.text(more));
            &&& n == t.elements.len() ==> c == Command::Submit && messages.len() == n && forall|
                j: int,
            |
                0 <= j < n ==> Some(#[trigger] messages[j]) == wire::single(
                    t.elements[j].object.text(),
                )
            &&& n < t.elements.len() ==> c == Command::Malformed && messages.len() == 0
        }),
{
    layout_laws::law_batch_is_its_objects_one_by_one(t, n, more);
    let (c, messages) = service::command(Route::Batch, t.text(more));
    if n == t.elements.len() {
        assert forall|j: int| 0 <= j < n implies Some(#[trigger] messages[j]) == wire::single(
            t.elements[j].object.text(),
        ) by {
            assert(t.elements[j].alone() is Some);
        }
    }
}

/// A single order in any layout is decoded as the command to submit it, and an object that describes
/// no order is malformed.
pub proof fn law_single_order_is_decoded(o: ObjectText, more: Seq<u8>)
    requires
        o.wf(),
    ensures
        service::command(Route::Order, o.text() + more) == (match o.order() {
            Some(m) => (Command::Submit, seq![m]),
            None => (Command::Malformed, Seq::empty()),
        }),
{
    let b = o.text() + more;
    assert(b.subrange(0, o.text().len() as int) =~= o.text());
    layout_laws::law_object_is_read_as_its_members_say(b, 0, o);
}

/// What is no order is malformed as a single order, and what is no batch is malformed as a batch;
/// neither brings any orders.
pub proof fn law_unreadable_text_is_malformed(body: Seq<u8>)
    ensures
        wire::single(body) is None ==> service::command(Route::Order, body) == (
            Command::Malformed,
            Seq::<OrderMsg>::empty(),
        ),
        wire::batch(body).end is None ==> service::command(Route::Batch, body) == (
            Command::Malformed,
            Seq::<OrderMsg>::empty(),
        ),
{
}

/// Records of any number that are written out are decoded as the command to submit all their orders,
/// in their order; a body that is not made of whole records is malformed and brings no orders.
pub proof fn law_records_are_decoded(messages: Seq<OrderMsg>, padding: Seq<u8>, other: Seq<u8>)
    requires
        padding.len() == 3,
        forall|i: int| 0 <= i < messages.len() ==> (#[trigger] messages[i]).quantity <= u32::MAX,
        other.len() % 24 != 0,
    ensures
        service::command(Route::BatchBin, binary::records_bytes(messages, padding)) == (
            Command::Submit,
            messages,
        ),
        service::command(Route::BatchBin, other) == (
            Command::Malformed,
            Seq::<OrderMsg>::empty(),
        ),
{
    binary::law_written_records_are_read_back(messages, padding);
}

/// The other targets need no body and bring no orders.
pub proof fn law_other_targets_bring_no_orders(body: Seq<u8>)
    ensures
        service::command(Route::Stats, body) == (Command::Stats, Seq::<OrderMsg>::empty()),
        service::command(Route::Reset, body) == (Command::Reset, Seq::<OrderMsg>::empty()),
        service::command(Route::Unknown, body) == (Command::NotFound, Seq::<OrderMsg>::empty()),
{
}

/// A message is handed to the book as it is: its identifier, price and quantity unchanged, as a buy
/// order if its side is zero and as a sell order otherwise.
pub proof fn law_messages_are_handed_over_unchanged(messages: Seq<OrderMsg>, i: int)
    requires
        0 <= i < messages.len(),
    ensures
        service::orders_of(messages).len() == messages.len(),
        service::orders_of(messages)[i].id == messages[i].id,
        service::orders_of(messages)[i].price == messages[i].price,
        service::orders_of(messages)[i].quantity == messages[i].quantity,
        service::orders_of(messages)[i].side == Side::Buy <==> messages[i].side == 0,
{
}

/// Submitted orders that the book can handle are all handed to it, in turn, and answered with the
/// trades and the volume that the book then counts.
pub proof fn law_submitted_orders_are_all_handed_over(
    book: BookView,
    capacity: int,
    messages: Seq<OrderMsg>,
)
    requires
        replay::handled(book, capacity, service::orders_of(messages)) == messages.len(),
    ensures
        ({
            let after = service::book_after(book, capacity, Command::Submit, messages);
            let reply = service::reply_to(book, capacity, Command::Submit, messages);
            &&& after == replay::accept(book, service::orders_of(messages))
            &&& reply is Some
            &&& reply->0 is Totals
            &&& 0 <= after.trades <= u64::MAX ==> reply->0->Totals_trades == after.trades
            &&& 0 <= after.volume <= u64::MAX ==> reply->0->Totals_volume == after.volume
        }),
{
    let orders = service::orders_of(messages);
    assert(orders.take(orders.len() as int) =~= orders);
}

/// Submitted orders that the book cannot handle as a whole get no reply.
pub proof fn law_unhandled_orders_get_no_reply(
    book: BookView,
    capacity: int,
    messages: Seq<OrderMsg>,
)
    requires
        replay::handled(book, capacity, service::orders_of(messages)) < messages.len(),
    ensures
        service::reply_to(book, capacity, Command::Submit, messages) is None,
{
}

/// The state of the book is reported side by side: as many bid levels as buy orders have different
/// prices, as many ask levels as sell orders have, all resting orders and the three counters. A side
/// without orders has no levels.
pub proof fn law_state_of_the_book_is_reported(
    book: BookView,
    capacity: int,
    messages: Seq<OrderMsg>,
)
    requires
        0 <= book.trades <= u64::MAX,
        0 <= book.volume <= u64::MAX,
        0 <= book.rejected <= u64::MAX,
        book.bids.len() + book.asks.len() <= u64::MAX,
    ensures
        ({
            let reply = service::reply_to(book, capacity, Command::Stats, messages);
            let bid_prices = book.bids.map_values(|o: model::RestingOrder| o.price).to_set();
            let ask_prices = book.asks.map_values(|o: model::RestingOrder| o.price).to_set();
            &&& reply is Some
            &&& reply->0 is Stats
            &&& reply->0->Stats_trades == book.trades
            &&& reply->0->Stats_volume == book.volume
            &&& reply->0->bid_levels == bid_prices.len()
            &&& reply->0->ask_levels == ask_prices.len()
            &&& reply->0->resting == book.bids.len() + book.asks.len()
            &&& reply->0->rejected == book.rejected
            &&& book.bids.len() == 0 ==> reply->0->bid_levels == 0
            &&& book.asks.len() == 0 ==> reply->0->ask_levels == 0
            &&& book.bids.len() > 0 ==> reply->0->bid_levels > 0
            &&& book.asks.len() > 0 ==> reply->0->ask_levels > 0
            &&& service::book_after(book, capacity, Command::Stats, messages) == book
        }),
{
    lemma_levels(book.bids);
    lemma_levels(book.asks);
}

proof fn lemma_levels(orders: Seq<model::RestingOrder>)
    ensures
        model::prices(orders).len() <= orders.len(),
        orders.len() > 0 ==> model::prices(orders).len() > 0,
        orders.len() == 0 ==> model::prices(orders).len() == 0,
{
    let ps = orders.map_values(|o: model::RestingOrder| o.price);
    ps.lemma_cardinality_of_set();
    vstd::seq_lib::seq_to_set_is_finite(ps);
    if orders.len() > 0 {
        assert(ps.to_set().contains(ps[0]));
        if ps.to_set().len() == 0 {
            assert(ps.to_set() =~= Set::empty());
        }
    }
}

/// A reset leaves a book without orders, without a band and with all counters at zero, and is
/// answered.
pub proof fn law_reset_leaves_nothing(book: BookView, capacity: int, messages: Seq<OrderMsg>)
    ensures
        ({
            let after = service::book_after(book, capacity, Command::Reset, messages);
            &&& after.bids.len() == 0
            &&& after.asks.len() == 0
            &&& after.band is None
            &&& after.trades == 0
            &&& after.volume == 0
            &&& after.rejected == 0
            &&& service::slots_after(book, capacity, Command::Reset, messages) == capacity
            &&& service::reply_to(book, capacity, Command::Reset, messages) == Some(Reply::Emptied)
        }),
{
}

} // verus!
