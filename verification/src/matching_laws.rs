//! What an order does to a book, in full and in plain terms.
//!
//! The laws here speak of the orders of the two sides one by one, with the numbers written out, and
//! so say from outside what the model computes.

use vstd::prelude::*;
use crate::book_laws;
use crate::laws;
use crate::levels;
use crate::matching;
use crate::model;
use crate::model::{BookView, Fill, RestingOrder, SubmitError};
use crate::replay;
use crate::types::{Order, Side};

verus! {

/// Whether a taker at `limit` is willing to trade at `price`.
pub open spec fn willing(taker: Side, limit: int, price: int) -> bool {
    match taker {
        Side::Buy => price <= limit,
        Side::Sell => limit <= price,
    }
}

/// Whether an order of `side` at price `a` comes before one at `b` that arrives later.
pub open spec fn goes_first(side: Side, a: int, b: int) -> bool {
    match side {
        Side::Buy => b <= a,
        Side::Sell => a <= b,
    }
}

/// What the first `n` orders add up to.
pub open spec fn sum(orders: Seq<RestingOrder>, n: int) -> int
    decreases n,
{
    if n <= 0 {
        0
    } else {
        sum(orders, n - 1) + orders[n - 1].quantity
    }
}

/// The side that an order joins.
pub open spec fn joined(book: BookView, side: Side) -> Seq<RestingOrder> {
    match side {
        Side::Buy => book.bids,
        Side::Sell => book.asks,
    }
}

/// The side that an order trades with.
pub open spec fn faced(book: BookView, side: Side) -> Seq<RestingOrder> {
    match side {
        Side::Buy => book.asks,
        Side::Sell => book.bids,
    }
}

/// Whether a book is empty.
pub open spec fn is_empty(book: BookView) -> bool {
    book.bids.len() == 0 && book.asks.len() == 0
}

/// Whether a book has a band and `price` is one of its 8192 prices.
pub open spec fn inside(book: BookView, price: u64) -> bool {
    book.band is Some && book.band->0 <= price < book.band->0 + 8192
}

/// The lowest of the 8192 prices centred around a price.
pub open spec fn lowest(price: u64) -> int {
    if price < 4096 {
        0
    } else {
        price - 4096
    }
}

/// How a taker of `quantity` leaves the side that it faces: `before` becomes `after`, where it got
/// `filled` in `trades` trades.
pub open spec fn worked_through(
    before: Seq<RestingOrder>,
    after: Seq<RestingOrder>,
    side: Side,
    price: u64,
    quantity: u64,
    filled: int,
    trades: int,
) -> bool {
    let gone = before.len() - after.len();
    // The orders that are gone stood in front, and the taker was willing to trade with each.
    &&& 0 <= gone <= before.len()
    &&& forall|i: int| 0 <= i < gone ==> willing(side, price as int, (#[trigger] before[i]).price)
    // Behind the first order that is left nothing has changed.
    &&& forall|i: int| 0 < i < after.len() ==> #[trigger] after[i] == before[gone + i]
    &&& after.len() == 0 ==> filled == sum(before, gone) && trades == gone
    &&& after.len() > 0 ==> {
        &&& after[0].id == before[gone].id
        &&& after[0].price == before[gone].price
        &&& 0 < after[0].quantity <= before[gone].quantity
        &&& filled == sum(before, gone) + before[gone].quantity - after[0].quantity
        // It has lost quantity only to a willing taker that has then got all it wanted.
        &&& after[0].quantity == before[gone].quantity ==> trades == gone
        &&& after[0].quantity < before[gone].quantity ==> trades == gone + 1 && filled == quantity
            && willing(side, price as int, after[0].price)
        // A taker that has not got all it wanted is not willing to trade with it.
        &&& filled < quantity ==> !willing(side, price as int, after[0].price)
    }
    &&& 0 <= filled <= quantity
}

/// How an order joins the resting orders of its side: behind all that go first, in front of the
/// others, with the quantity that it has left.
pub open spec fn joins(
    before: Seq<RestingOrder>,
    after: Seq<RestingOrder>,
    side: Side,
    id: u64,
    price: u64,
    left: int,
) -> bool {
    exists|n: int|
        {
            &&& 0 <= n <= before.len()
            &&& after.len() == before.len() + 1
            &&& #[trigger] after[n] == (RestingOrder { id, price: price as int, quantity: left })
            &&& forall|i: int|
                0 <= i < n ==> #[trigger] after[i] == before[i] && goes_first(
                    side,
                    before[i].price,
                    price as int,
                )
            &&& forall|i: int|
                n < i < after.len() ==> #[trigger] after[i] == before[i - 1] && !goes_first(
                    side,
                    before[i - 1].price,
                    price as int,
                )
        }
}

proof fn lemma_sum_skips_first(orders: Seq<RestingOrder>, n: int)
    requires
        0 < n <= orders.len(),
    ensures
        sum(orders, n) == orders[0].quantity + sum(orders.drop_first(), n - 1),
    decreases n,
{
    reveal_with_fuel(sum, 2);
    if n > 1 {
        lemma_sum_skips_first(orders, n - 1);
        assert(orders.drop_first()[n - 2] == orders[n - 1]);
    }
}

proof fn lemma_worked_through(orders: Seq<RestingOrder>, side: Side, price: u64, want: u64)
    requires
        matching::positive(orders),
    ensures
        ({
            let s = model::sweep(orders, side, price as int, want as int);
            worked_through(orders, s.left, side, price, want, s.filled, s.trades)
        }),
    decreases orders.len(),
{
    let s = model::sweep(orders, side, price as int, want as int);
    matching::lemma_sweep_bounds(orders, side, price as int, want as int);
    if orders.len() > 0 && want > 0 && model::crosses(side, price as int, orders[0].price) {
        if orders[0].quantity <= want {
            let rest = orders.drop_first();
            let w = (want - orders[0].quantity) as u64;
            assert forall|i: int| 0 <= i < rest.len() implies (#[trigger] rest[i]).quantity > 0 by {
                assert(rest[i] == orders[i + 1]);
            }
            lemma_worked_through(rest, side, price, w);
            let t = model::sweep(rest, side, price as int, w as int);
            let gone = orders.len() - s.left.len();
            assert(s.left == t.left);
            assert(gone >= 1);
            lemma_sum_skips_first(orders, gone);
            assert forall|i: int| 0 <= i < gone implies willing(
                side,
                price as int,
                (#[trigger] orders[i]).price,
            ) by {
                if i > 0 {
                    assert(orders[i] == rest[i - 1]);
                }
            }
            assert forall|i: int| 0 < i < s.left.len() implies #[trigger] s.left[i] == orders[gone
                + i] by {
                assert(t.left[i] == rest[gone - 1 + i]);
            }
            if s.left.len() > 0 {
                assert(rest[gone - 1] == orders[gone]);
            }
        }
    }
}

/// An accepted order in full. It trades with the other side strictly from the front, as long as it is
/// willing and has not got all it wants; what it has then left joins its own side behind all orders
/// of the same or a better price, under its own identifier and price. The counters grow by what was
/// traded. A price inside the band leaves the band as it is; otherwise, which only an empty book
/// allows, the band becomes the 8192 prices centred around the price.
pub proof fn law_accepted_order_in_full(
    book: BookView,
    id: u64,
    price: u64,
    quantity: u64,
    side: Side,
)
    requires
        book.valid(),
        quantity > 0,
        inside(book, price) || is_empty(book),
    ensures
        ({
            let after = book.submit(id, price, quantity, side);
            let filled = after.volume - book.volume;
            &&& worked_through(
                faced(book, side),
                faced(after, side),
                side,
                price,
                quantity,
                filled,
                after.trades - book.trades,
            )
            &&& filled == quantity ==> joined(after, side) == joined(book, side)
            &&& filled < quantity ==> joins(
                joined(book, side),
                joined(after, side),
                side,
                id,
                price,
                quantity - filled,
            )
            &&& after.rejected == book.rejected
            &&& inside(book, price) ==> after.band == book.band
            &&& !inside(book, price) ==> after.band is Some && after.band->0 == lowest(price)
        }),
{
    let after = book.submit(id, price, quantity, side);
    let own = joined(book, side);
    let filled = after.volume - book.volume;
    assert(matching::positive(faced(book, side)));
    lemma_worked_through(faced(book, side), side, price, quantity);
    if filled < quantity {
        let order = RestingOrder { id, price: price as int, quantity: quantity - filled };
        laws::law_newcomer_queues_behind_its_price(own, side, order);
        let n = model::ahead(own, side, price as int) as int;
        let own2 = joined(after, side);
        assert(own2 == own.insert(n, order));
        assert(own2[n] == order);
        assert forall|i: int| 0 <= i < n implies #[trigger] own2[i] == own[i] && goes_first(
            side,
            own[i].price,
            price as int,
        ) by {
            assert(model::no_worse(side, own[i].price, order.price));
        }
        assert forall|i: int| n < i < own2.len() implies #[trigger] own2[i] == own[i - 1]
            && !goes_first(side, own[i - 1].price, price as int) by {
            assert(!model::no_worse(side, own[i - 1].price, order.price));
        }
    }
}

/// A refused order in full: an order without quantity, or one whose price is not inside the band of a
/// book with orders. It is counted, and nothing else changes.
pub proof fn law_refused_order_in_full(
    book: BookView,
    id: u64,
    price: u64,
    quantity: u64,
    side: Side,
)
    requires
        book.valid(),
        quantity == 0 || (!inside(book, price) && !is_empty(book)),
    ensures
        ({
            let after = book.submit(id, price, quantity, side);
            &&& after.bids == book.bids
            &&& after.asks == book.asks
            &&& after.band == book.band
            &&& after.trades == book.trades
            &&& after.volume == book.volume
            &&& after.rejected == book.rejected + 1
        }),
{
}

/// The answer to an order says what became of it: that it has no quantity, that its price is out of
/// band, or else how many trades it made, how much it got and how much of it rests.
pub proof fn law_answer_says_what_became_of_the_order(
    book: BookView,
    id: u64,
    price: u64,
    quantity: u64,
    side: Side,
    result: Result<Fill, SubmitError>,
)
    requires
        book.valid(),
        book.answers(price, quantity, side, result),
    ensures
        ({
            let after = book.submit(id, price, quantity, side);
            if quantity == 0 {
                result == Err::<Fill, SubmitError>(SubmitError::ZeroQuantity)
            } else if !inside(book, price) && !is_empty(book) {
                result == Err::<Fill, SubmitError>(SubmitError::PriceOutOfBand)
            } else {
                &&& result is Ok
                &&& result->Ok_0.trades == after.trades - book.trades
                &&& result->Ok_0.filled == after.volume - book.volume
                &&& result->Ok_0.filled + result->Ok_0.resting == quantity
            }
        }),
{
}

/// An order fits exactly if no counter would leave its range: 64 bits for the number of refused
/// orders, of trades, of the volume and of the quantity at the price where it comes to rest, and 32
/// bits for the slots, which double when there are too few.
pub proof fn law_order_fits_if_nothing_overflows(
    book: BookView,
    capacity: int,
    id: u64,
    price: u64,
    quantity: u64,
    side: Side,
)
    requires
        book.valid(),
    ensures
        ({
            let after = book.submit(id, price, quantity, side);
            let rests = after.volume - book.volume < quantity;
            book.fits(capacity, price, quantity, side) <==> (if after.rejected > book.rejected {
                after.rejected <= u64::MAX
            } else {
                &&& after.trades <= u64::MAX
                &&& after.volume <= u64::MAX
                &&& rests ==> model::total(model::at_price(joined(after, side), price as int))
                    <= u64::MAX
                &&& rests ==> after.bids.len() + after.asks.len() <= capacity || 2 * capacity
                    <= u32::MAX
            })
        }),
{
    let after = book.submit(id, price, quantity, side);
    let own = joined(book, side);
    let left = quantity - book.taken(price, quantity, side).filled;
    if book.refusal(price, quantity) is None && left > 0 {
        let order = RestingOrder { id, price: price as int, quantity: left };
        book_laws::law_newcomer_is_last_at_its_price(own, side, order, price as int);
        model::lemma_total_push(model::at_price(own, price as int), order);
        laws::lemma_ahead_splits(own, side, price as int);
    }
}

/// An empty book whose band does not hold the price of an order moves its band: afterwards it is the
/// 8192 prices that begin 4096 below that price, or at zero. While the order rests, a later order is
/// accepted exactly if its price is one of them.
pub proof fn law_moved_band_is_centred(
    book: BookView,
    id: u64,
    price: u64,
    quantity: u64,
    side: Side,
    later: u64,
    later_quantity: u64,
)
    requires
        is_empty(book),
        !inside(book, price),
        quantity > 0,
        later_quantity > 0,
    ensures
        ({
            let after = book.submit(id, price, quantity, side);
            &&& joined(after, side) == seq![
                RestingOrder { id, price: price as int, quantity: quantity as int },
            ]
            &&& after.rejected == book.rejected
            &&& after.refusal(later, later_quantity) is None <==> lowest(price) <= later < lowest(
                price,
            ) + 8192
            &&& after.refusal(later, later_quantity) is Some ==> after.refusal(
                later,
                later_quantity,
            ) == Some(SubmitError::PriceOutOfBand)
        }),
{
    assert(book.bids =~= Seq::<RestingOrder>::empty());
    assert(book.asks =~= Seq::<RestingOrder>::empty());
    let after = book.submit(id, price, quantity, side);
    assert(joined(after, side) =~= seq![
        RestingOrder { id, price: price as int, quantity: quantity as int },
    ]);
    assert(after.resting() == 1);
}

/// The orders at a price are picked out one by one: an order counts at its own price and at no other.
pub proof fn law_orders_are_picked_by_price(
    front: Seq<RestingOrder>,
    order: RestingOrder,
    back: Seq<RestingOrder>,
    price: int,
)
    ensures
        model::at_price(Seq::empty(), price) == Seq::<RestingOrder>::empty(),
        model::at_price(front + back, price) == model::at_price(front, price) + model::at_price(
            back,
            price,
        ),
        order.price == price ==> model::at_price(seq![order], price) == seq![order],
        order.price != price ==> model::at_price(seq![order], price) == Seq::<RestingOrder>::empty(),
{
    let pred = |o: RestingOrder| o.price == price;
    Seq::filter_distributes_over_add(front, back, pred);
    levels::lemma_filter_none(Seq::<RestingOrder>::empty(), pred);
    if order.price == price {
        levels::lemma_filter_all(seq![order], pred);
    } else {
        levels::lemma_filter_none(seq![order], pred);
    }
}

/// The first order at a price is the foremost that rests there; none is at a price where none rests.
pub proof fn law_first_at_a_price_is_foremost(orders: Seq<RestingOrder>, price: int)
    ensures
        model::at_price(orders, price).len() == 0 <==> forall|i: int|
            0 <= i < orders.len() ==> (#[trigger] orders[i]).price != price,
        model::at_price(orders, price).len() > 0 ==> exists|i: int|
            {
                &&& 0 <= i < orders.len()
                &&& (#[trigger] orders[i]).price == price
                &&& orders[i] == model::at_price(orders, price)[0]
                &&& forall|j: int| 0 <= j < i ==> (#[trigger] orders[j]).price != price
            },
        model::at_price(orders, price).len() <= orders.len(),
    decreases orders.len(),
{
    if orders.len() == 0 {
        law_orders_are_picked_by_price(
            orders,
            RestingOrder { id: 0, price, quantity: 0 },
            orders,
            price,
        );
        assert(orders =~= Seq::empty());
    } else {
        let first = seq![orders[0]];
        let rest = orders.drop_first();
        assert(orders =~= first + rest);
        law_orders_are_picked_by_price(first, orders[0], rest, price);
        law_first_at_a_price_is_foremost(rest, price);
        if orders[0].price == price {
            assert(model::at_price(orders, price)[0] == orders[0]);
        } else {
            assert(model::at_price(orders, price) =~= model::at_price(rest, price));
            assert forall|i: int| 0 < i < orders.len() implies #[trigger] orders[i] == rest[i
                - 1] by {}
            if model::at_price(rest, price).len() > 0 {
                let k = choose|i: int|
                    {
                        &&& 0 <= i < rest.len()
                        &&& (#[trigger] rest[i]).price == price
                        &&& rest[i] == model::at_price(rest, price)[0]
                        &&& forall|j: int| 0 <= j < i ==> (#[trigger] rest[j]).price != price
                    };
                assert(orders[k + 1] == rest[k]);
                assert forall|j: int| 0 <= j < k + 1 implies (#[trigger] orders[j]).price
                    != price by {
                    if j > 0 {
                        assert(orders[j] == rest[j - 1]);
                    }
                }
            } else {
                assert forall|i: int| 0 <= i < orders.len() implies (#[trigger] orders[i]).price
                    != price by {
                    if i > 0 {
                        assert(orders[i] == rest[i - 1]);
                    }
                }
            }
        }
    }
}

/// What rests at a price is positive exactly if an order rests there.
pub proof fn law_quantity_shows_orders(orders: Seq<RestingOrder>, price: int)
    requires
        forall|i: int| 0 <= i < orders.len() ==> (#[trigger] orders[i]).quantity > 0,
    ensures
        model::total(model::at_price(orders, price)) > 0 <==> exists|i: int|
            0 <= i < orders.len() && (#[trigger] orders[i]).price == price,
        model::total(model::at_price(orders, price)) >= 0,
    decreases orders.len(),
{
    reveal(Seq::filter);
    if orders.len() > 0 {
        let front = orders.drop_last();
        assert forall|i: int| 0 <= i < front.len() implies (#[trigger] front[i]).quantity > 0 by {
            assert(front[i] == orders[i]);
        }
        law_quantity_shows_orders(front, price);
        let last = orders[orders.len() - 1];
        assert(orders.last() == last);
        model::lemma_total_push(model::at_price(front, price), last);
        if exists|i: int| 0 <= i < front.len() && (#[trigger] front[i]).price == price {
            let i = choose|i: int| 0 <= i < front.len() && (#[trigger] front[i]).price == price;
            assert(orders[i].price == price);
        }
        if exists|i: int| 0 <= i < orders.len() && (#[trigger] orders[i]).price == price {
            let i = choose|i: int| 0 <= i < orders.len() && (#[trigger] orders[i]).price == price;
            if i < front.len() {
                assert(front[i].price == price);
            }
        }
    }
}

/// A total is the sum of the quantities.
pub proof fn law_total_is_the_sum(orders: Seq<RestingOrder>)
    ensures
        model::total(orders) == sum(orders, orders.len() as int),
    decreases orders.len(),
{
    if orders.len() > 0 {
        law_total_is_the_sum(orders.drop_first());
        lemma_sum_skips_first(orders, orders.len() as int);
    }
}

/// The prices in use are those at which an order rests.
pub proof fn law_prices_are_those_of_orders(orders: Seq<RestingOrder>, price: int)
    ensures
        model::prices(orders).contains(price) <==> exists|i: int|
            0 <= i < orders.len() && (#[trigger] orders[i]).price == price,
        model::prices(orders).finite(),
        orders.len() == 0 ==> model::prices(orders).len() == 0,
        model::prices(orders).len() <= orders.len(),
{
    let ps = orders.map_values(|o: RestingOrder| o.price);
    ps.lemma_cardinality_of_set();
    if exists|i: int| 0 <= i < orders.len() && (#[trigger] orders[i]).price == price {
        let i = choose|i: int| 0 <= i < orders.len() && (#[trigger] orders[i]).price == price;
        assert(ps[i] == price);
    }
    if model::prices(orders).contains(price) {
        let i = choose|i: int| 0 <= i < ps.len() && ps[i] == price;
        assert(orders[i].price == price);
    }
}

/// One more order adds a price exactly if none rested at its price before.
pub proof fn law_new_price_counts_once(orders: Seq<RestingOrder>, order: RestingOrder)
    ensures
        model::prices(orders.push(order)).len() == model::prices(orders).len() + (if exists|i: int|
            0 <= i < orders.len() && (#[trigger] orders[i]).price == order.price {
            0int
        } else {
            1int
        }),
{
    law_prices_are_those_of_orders(orders, order.price);
    assert(model::prices(orders.push(order)) =~= model::prices(orders).insert(order.price)) by {
        assert forall|p: int|
            model::prices(orders.push(order)).contains(p) == model::prices(orders).insert(
                order.price,
            ).contains(p) by {
            law_prices_are_those_of_orders(orders, p);
            law_prices_are_those_of_orders(orders.push(order), p);
            if p == order.price {
                assert(orders.push(order)[orders.len() as int].price == p);
            }
            if model::prices(orders).contains(p) {
                let i = choose|i: int| 0 <= i < orders.len() && (#[trigger] orders[i]).price == p;
                assert(orders.push(order)[i].price == p);
            }
            if model::prices(orders.push(order)).contains(p) && p != order.price {
                let i = choose|i: int|
                    0 <= i < orders.push(order).len() && (#[trigger] orders.push(order)[i]).price
                        == p;
                assert(orders[i].price == p);
            }
        }
    }
}

/// Handing over a sequence of orders is submitting each of them in turn.
pub proof fn law_orders_are_submitted_one_by_one(
    book: BookView,
    capacity: int,
    orders: Seq<Order>,
    o: Order,
)
    ensures
        replay::accept(book, Seq::empty()) == book,
        replay::accept(book, orders.push(o)) == replay::accept(book, orders).submit(
            o.id,
            o.price,
            o.quantity,
            o.side,
        ),
        replay::handled(book, capacity, Seq::empty()) == 0,
        replay::handled(book, capacity, orders.push(o)) == orders.len() + 1 <==> (replay::handled(
            book,
            capacity,
            orders,
        ) == orders.len() && replay::accept(book, orders).fits(
            replay::slots(book, capacity, orders),
            o.price,
            o.quantity,
            o.side,
        )),
        replay::handled(book, capacity, orders.push(o)) <= orders.len() ==> replay::handled(
            book,
            capacity,
            orders.push(o),
        ) == replay::handled(book, capacity, orders),
        replay::slots(book, capacity, Seq::empty()) == capacity,
        replay::slots(book, capacity, orders.push(o)) == replay::accept(book, orders).capacity_after(
            replay::slots(book, capacity, orders),
            o.price,
            o.quantity,
            o.side,
        ),
{
    assert(orders.push(o).drop_last() =~= orders);
    replay::lemma_handled_at_most(book, capacity, orders);
}

/// The slots of a book double when an order comes to rest for which there is none, and otherwise stay
/// as many as they are.
pub proof fn law_slots_double_when_full(
    book: BookView,
    capacity: int,
    id: u64,
    price: u64,
    quantity: u64,
    side: Side,
)
    requires
        book.valid(),
        book.bids.len() + book.asks.len() <= capacity,
    ensures
        ({
            let after = book.submit(id, price, quantity, side);
            book.capacity_after(capacity, price, quantity, side) == (if after.bids.len()
                + after.asks.len() > capacity {
                2 * capacity
            } else {
                capacity
            })
        }),
{
    assert(matching::positive(faced(book, side)));
    matching::lemma_sweep_bounds(faced(book, side), side, price as int, quantity as int);
    laws::lemma_ahead_splits(joined(book, side), side, price as int);
}

/// A side is found under its name: buy orders among the bids, sell orders among the asks.
pub proof fn law_sides_are_found_under_their_names(book: BookView, side: Side)
    ensures
        book.side(side) == joined(book, side),
        book.side(side.opposite()) == faced(book, side),
        book.resting() == book.bids.len() + book.asks.len(),
{
}

/// A book without orders or history has no orders and counts from zero; the band around a price is
/// centred.
pub proof fn law_empty_book(band: Option<u64>, price: u64)
    ensures
        is_empty(BookView::empty(band)),
        BookView::empty(band).band == band,
        BookView::empty(band).trades == 0,
        BookView::empty(band).volume == 0,
        BookView::empty(band).rejected == 0,
        BookView::empty(band).valid(),
        model::centred(price) == lowest(price),
{
}

} // verus!
