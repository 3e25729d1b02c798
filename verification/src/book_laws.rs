//! What every book keeps, whatever is submitted to it.

use vstd::prelude::*;
use crate::laws;
use crate::levels;
use crate::matching;
use crate::model;
use crate::model::{BookView, Fill, RestingOrder, SubmitError, Sweep, BAND};
use crate::types::Side;

verus! {

proof fn lemma_total_insert(orders: Seq<RestingOrder>, n: int, order: RestingOrder)
    requires
        0 <= n <= orders.len(),
    ensures
        model::total(orders.insert(n, order)) == model::total(orders) + order.quantity,
    decreases n,
{
    let after = orders.insert(n, order);
    if n == 0 {
        assert(after.drop_first() =~= orders);
    } else {
        assert(after.drop_first() =~= orders.drop_first().insert(n - 1, order));
        lemma_total_insert(orders.drop_first(), n - 1, order);
    }
}

/// Quantity is neither made nor lost. What an order takes leaves the other side and is counted as
/// volume, and what it does not take rests on its own side.
pub proof fn law_quantity_is_conserved(
    book: BookView,
    id: u64,
    price: u64,
    quantity: u64,
    side: Side,
)
    requires
        book.valid(),
        book.refusal(price, quantity) is None,
    ensures
        ({
            let after = book.submit(id, price, quantity, side);
            let filled = after.volume - book.volume;
            let other = side.opposite();
            &&& 0 <= filled <= quantity
            &&& model::total(after.side(other)) == model::total(book.side(other)) - filled
            &&& model::total(after.side(side)) == model::total(book.side(side)) + quantity - filled
        }),
{
    let other = book.side(side.opposite());
    assert(matching::positive(other));
    matching::lemma_sweep_bounds(other, side, price as int, quantity as int);
    let remainder = quantity - book.taken(price, quantity, side).filled;
    if remainder > 0 {
        let own = book.side(side);
        let order = RestingOrder { id, price: price as int, quantity: remainder };
        laws::lemma_ahead_splits(own, side, price as int);
        lemma_total_insert(own, model::ahead(own, side, price as int) as int, order);
    }
}

/// A refused order is counted and changes nothing else.
pub proof fn law_refused_order_is_only_counted(
    book: BookView,
    id: u64,
    price: u64,
    quantity: u64,
    side: Side,
)
    requires
        book.refusal(price, quantity) is Some,
    ensures
        ({
            let after = book.submit(id, price, quantity, side);
            &&& after.bids == book.bids
            &&& after.asks == book.asks
            &&& after.band == book.band
            &&& after.trades == book.trades
            &&& after.volume == book.volume
            &&& after.rejected == book.rejected + 1
        }),
{
}

/// The band does not move under resting orders, and an order that is accepted lies in the band that
/// is then in force.
pub proof fn law_band_moves_only_while_empty(
    book: BookView,
    id: u64,
    price: u64,
    quantity: u64,
    side: Side,
)
    requires
        book.valid(),
    ensures
        ({
            let after = book.submit(id, price, quantity, side);
            &&& book.resting() > 0 ==> after.band == book.band
            &&& book.refusal(price, quantity) is None ==> after.band is Some && model::in_band(
                after.band->0 as int,
                price as int,
            )
        }),
{
}

/// An empty book takes an order at any price.
pub proof fn law_empty_book_takes_any_price(book: BookView, price: u64, quantity: u64)
    requires
        book.resting() == 0,
        quantity > 0,
    ensures
        book.refusal(price, quantity) is None,
{
}

/// While orders rest in a book, it accepts exactly the prices in its band and refuses all others as
/// out of band.
pub proof fn law_band_decides_while_orders_rest(book: BookView, price: u64, quantity: u64)
    requires
        book.band is Some,
        book.resting() > 0,
        quantity > 0,
    ensures
        book.refusal(price, quantity) == (if model::in_band(book.band->0 as int, price as int) {
            None
        } else {
            Some(SubmitError::PriceOutOfBand)
        }),
{
}

/// The first order of a book without a band is accepted whatever its price, rests as a whole, and
/// centres the band: while it rests, a price is accepted if it is one of the 8192 that begin half a
/// band below the price of the order, or at zero where that would be below zero.
pub proof fn law_first_order_centres_the_band(
    capacity: int,
    id: u64,
    price: u64,
    quantity: u64,
    side: Side,
    later: u64,
    later_quantity: u64,
)
    requires
        capacity > 0,
        quantity > 0,
        later_quantity > 0,
    ensures
        ({
            let fresh = BookView::empty(None);
            let after = fresh.submit(id, price, quantity, side);
            let base: int = if price < 4096 {
                0
            } else {
                price - 4096
            };
            &&& fresh.fits(capacity, price, quantity, side)
            &&& fresh.answers(
                price,
                quantity,
                side,
                Ok(Fill { trades: 0, filled: 0, resting: quantity }),
            )
            &&& forall|result: Result<Fill, SubmitError>| #[trigger]
                fresh.answers(price, quantity, side, result) ==> result == Ok::<Fill, SubmitError>(
                    Fill { trades: 0, filled: 0, resting: quantity },
                )
            &&& after.side(side) == seq![
                RestingOrder { id, price: price as int, quantity: quantity as int },
            ]
            &&& after.side(side.opposite()).len() == 0
            &&& after.refusal(later, later_quantity) == (if base <= later < base + 8192 {
                None
            } else {
                Some(SubmitError::PriceOutOfBand)
            })
        }),
{
    lemma_first_order_rests(BookView::empty(None), capacity, id, price, quantity, side);
}

/// A book made for a price has its band around that price: with an order resting there, it accepts
/// the prices from 4096 below to 4095 above and refuses all others as out of band.
pub proof fn law_new_book_is_centred_around_its_price(
    capacity: int,
    base_price: u64,
    id: u64,
    quantity: u64,
    side: Side,
    later: u64,
    later_quantity: u64,
)
    requires
        capacity > 0,
        base_price >= 4096,
        quantity > 0,
        later_quantity > 0,
    ensures
        ({
            let fresh = BookView::empty(Some(model::centred(base_price)));
            let after = fresh.submit(id, base_price, quantity, side);
            &&& fresh.fits(capacity, base_price, quantity, side)
            &&& fresh.answers(
                base_price,
                quantity,
                side,
                Ok(Fill { trades: 0, filled: 0, resting: quantity }),
            )
            &&& after.refusal(later, later_quantity) == (if base_price - 4096 <= later
                <= base_price + 4095 {
                None
            } else {
                Some(SubmitError::PriceOutOfBand)
            })
        }),
{
    lemma_first_order_rests(
        BookView::empty(Some(model::centred(base_price))),
        capacity,
        id,
        base_price,
        quantity,
        side,
    );
}

proof fn lemma_first_order_rests(
    fresh: BookView,
    capacity: int,
    id: u64,
    price: u64,
    quantity: u64,
    side: Side,
)
    requires
        fresh == BookView::empty(fresh.band),
        capacity > 0,
        quantity > 0,
    ensures
        fresh.fits(capacity, price, quantity, side),
        fresh.taken(price, quantity, side).filled == 0,
        fresh.taken(price, quantity, side).trades == 0,
        ({
            let after = fresh.submit(id, price, quantity, side);
            &&& after.side(side) == seq![
                RestingOrder { id, price: price as int, quantity: quantity as int },
            ]
            &&& after.side(side.opposite()).len() == 0
            &&& after.resting() == 1
        }),
{
    let none = Seq::<RestingOrder>::empty();
    assert(fresh.side(side) == none && fresh.side(side.opposite()) == none);
    levels::lemma_filter_none(none, |o: RestingOrder| o.price == price as int);
    assert(fresh.submit(id, price, quantity, side).side(side) =~= seq![
        RestingOrder { id, price: price as int, quantity: quantity as int },
    ]);
}

/// Taking a quantity at once or in two parts comes to the same.
pub proof fn law_taker_may_be_split(
    orders: Seq<RestingOrder>,
    taker: Side,
    limit: int,
    first: int,
    second: int,
)
    requires
        matching::positive(orders),
        0 <= first,
        0 <= second,
    ensures
        ({
            let a = model::sweep(orders, taker, limit, first);
            let b = model::sweep(a.left, taker, limit, second);
            let whole = model::sweep(orders, taker, limit, first + second);
            &&& whole.left == b.left
            &&& whole.filled == a.filled + b.filled
            &&& whole.trades <= a.trades + b.trades <= whole.trades + 1
        }),
    decreases orders.len(),
{
    let a = model::sweep(orders, taker, limit, first);
    if orders.len() > 0 && model::crosses(taker, limit, orders[0].price) && first > 0 {
        if orders[0].quantity <= first {
            law_taker_may_be_split(
                orders.drop_first(),
                taker,
                limit,
                first - orders[0].quantity,
                second,
            );
        } else {
            let reduced = RestingOrder { quantity: orders[0].quantity - first, ..orders[0] };
            assert(a.left.drop_first() =~= orders.drop_first());
            assert(a.left[0] == reduced);
            if second > 0 {
                if orders[0].quantity - first <= second {
                    assert(first + second - orders[0].quantity == second - reduced.quantity);
                } else {
                    assert(a.left.update(
                        0,
                        RestingOrder { quantity: reduced.quantity - second, ..reduced },
                    ) =~= orders.update(
                        0,
                        RestingOrder {
                            quantity: orders[0].quantity - (first + second),
                            ..orders[0]
                        },
                    ));
                }
            }
        }
    }
}

/// At its own price a newcomer is the last in the queue, and the queues at other prices stay as they
/// are.
pub proof fn law_newcomer_is_last_at_its_price(
    orders: Seq<RestingOrder>,
    side: Side,
    order: RestingOrder,
    price: int,
)
    requires
        model::in_priority_order(orders, side),
    ensures
        model::at_price(model::enqueue(orders, side, order), price) == (if price == order.price {
            model::at_price(orders, price).push(order)
        } else {
            model::at_price(orders, price)
        }),
{
    let pred = |o: RestingOrder| o.price == price;
    let n = model::ahead(orders, side, order.price) as int;
    laws::law_newcomer_queues_behind_its_price(orders, side, order);
    let front = orders.take(n);
    let back = orders.skip(n);
    let after = model::enqueue(orders, side, order);
    assert(orders =~= front + back);
    assert(after =~= front + seq![order] + back);
    Seq::filter_distributes_over_add(front, back, pred);
    Seq::filter_distributes_over_add(front + seq![order], back, pred);
    Seq::filter_distributes_over_add(front, seq![order], pred);
    if price == order.price {
        assert forall|i: int| 0 <= i < back.len() implies !pred(#[trigger] back[i]) by {
            assert(back[i] == orders[n + i]);
        }
        levels::lemma_filter_none(back, pred);
        levels::lemma_filter_all(seq![order], pred);
        assert(after.filter(pred) =~= orders.filter(pred).push(order));
    } else {
        levels::lemma_filter_none(seq![order], pred);
        assert(after.filter(pred) =~= orders.filter(pred));
    }
}

/// The orders of one side seen from the other: every price `p` becomes `c - p`.
pub open spec fn mirrored(orders: Seq<RestingOrder>, c: int) -> Seq<RestingOrder> {
    orders.map_values(|o: RestingOrder| RestingOrder { price: c - o.price, ..o })
}

/// A taker does to the orders of one side what a taker of the other direction does to their mirror
/// image.
pub proof fn law_sweeps_mirror_each_other(
    orders: Seq<RestingOrder>,
    taker: Side,
    limit: int,
    want: int,
    c: int,
)
    ensures
        ({
            let s = model::sweep(orders, taker, limit, want);
            model::sweep(mirrored(orders, c), taker.opposite(), c - limit, want) == (Sweep {
                left: mirrored(s.left, c),
                filled: s.filled,
                trades: s.trades,
            })
        }),
    decreases orders.len(),
{
    let m = mirrored(orders, c);
    let s = model::sweep(orders, taker, limit, want);
    if orders.len() > 0 && want > 0 && model::crosses(taker, limit, orders[0].price) {
        assert(m.drop_first() =~= mirrored(orders.drop_first(), c));
        if orders[0].quantity <= want {
            law_sweeps_mirror_each_other(
                orders.drop_first(),
                taker,
                limit,
                want - orders[0].quantity,
                c,
            );
        } else {
            let reduced = RestingOrder { quantity: m[0].quantity - want, ..m[0] };
            assert(m.update(0, reduced) =~= mirrored(s.left, c));
        }
    }
}

proof fn lemma_ahead_mirrored(orders: Seq<RestingOrder>, side: Side, price: int, c: int)
    ensures
        model::ahead(mirrored(orders, c), side.opposite(), c - price) == model::ahead(
            orders,
            side,
            price,
        ),
        model::ahead(orders, side, price) <= orders.len(),
    decreases orders.len(),
{
    if orders.len() > 0 && model::no_worse(side, orders[0].price, price) {
        assert(mirrored(orders, c).drop_first() =~= mirrored(orders.drop_first(), c));
        lemma_ahead_mirrored(orders.drop_first(), side, price, c);
    }
}

/// A book seen from the other side: the sides change places, every price `p` becomes `c - p`, and
/// the highest price of the band becomes its lowest.
pub open spec fn mirror(book: BookView, c: int) -> BookView {
    BookView {
        bids: mirrored(book.asks, c),
        asks: mirrored(book.bids, c),
        band: match book.band {
            Some(base) => Some((c - base - (BAND - 1)) as u64),
            None => None,
        },
        ..book
    }
}

/// Whether prices up to 64 bits stay so when a book with a band from `base` on is mirrored.
pub open spec fn can_be_mirrored(base: u64, c: int) -> bool {
    0 <= c - base - (BAND - 1) <= u64::MAX
}

/// Buying and selling are mirror images: an order and its mirror image lead a book and its mirror
/// image to mirror images, with the same answer. An order at which the band of an empty book moves
/// is left out: the new band reaches one tick further down than up, so it is not its own image.
pub proof fn law_buying_and_selling_mirror_each_other(
    book: BookView,
    id: u64,
    price: u64,
    quantity: u64,
    side: Side,
    c: int,
)
    requires
        book.band is Some,
        can_be_mirrored(book.band->0, c),
        0 <= c - price <= u64::MAX,
        model::in_band(book.band->0 as int, price as int) || book.resting() > 0 || quantity == 0,
    ensures
        ({
            let image = mirror(book, c);
            let p = (c - price) as u64;
            let after = book.submit(id, price, quantity, side);
            &&& image.submit(id, p, quantity, side.opposite()) == mirror(after, c)
            &&& image.refusal(p, quantity) == book.refusal(price, quantity)
            &&& image.taken(p, quantity, side.opposite()).filled == book.taken(
                price,
                quantity,
                side,
            ).filled
            &&& image.taken(p, quantity, side.opposite()).trades == book.taken(
                price,
                quantity,
                side,
            ).trades
            &&& after.band == book.band
        }),
{
    let image = mirror(book, c);
    let p = (c - price) as u64;
    let other = book.side(side.opposite());
    let own = book.side(side);
    law_sweeps_mirror_each_other(other, side, price as int, quantity as int, c);
    assert(image.side(side) == mirrored(other, c));
    assert(image.side(side.opposite()) == mirrored(own, c));
    let remainder = quantity - book.taken(price, quantity, side).filled;
    if remainder > 0 {
        let order = RestingOrder { id, price: price as int, quantity: remainder };
        let turned = RestingOrder { id, price: c - price, quantity: remainder };
        lemma_ahead_mirrored(own, side, price as int, c);
        assert(model::enqueue(mirrored(own, c), side.opposite(), turned) =~= mirrored(
            model::enqueue(own, side, order),
            c,
        ));
    }
    assert(image.submit(id, p, quantity, side.opposite()) =~= mirror(
        book.submit(id, price, quantity, side),
        c,
    ));
}

/// A side and its mirror image look the same from outside: there are as many orders and as many
/// prices, and at each price the image has the orders of the mirrored price.
pub proof fn law_mirrored_side_looks_the_same(orders: Seq<RestingOrder>, price: int, c: int)
    ensures
        mirrored(orders, c).len() == orders.len(),
        model::prices(mirrored(orders, c)).len() == model::prices(orders).len(),
        model::at_price(mirrored(orders, c), c - price) == mirrored(
            model::at_price(orders, price),
            c,
        ),
        model::total(mirrored(orders, c)) == model::total(orders),
    decreases orders.len(),
{
    let m = mirrored(orders, c);
    lemma_prices_mirrored(orders, c);
    lemma_total_mirrored(orders, c);
    reveal(Seq::filter);
    if orders.len() > 0 {
        assert(m.drop_last() =~= mirrored(orders.drop_last(), c));
        law_mirrored_side_looks_the_same(orders.drop_last(), price, c);
        assert(model::at_price(m, c - price) =~= mirrored(model::at_price(orders, price), c));
    } else {
        assert(model::at_price(m, c - price) =~= mirrored(model::at_price(orders, price), c));
    }
}

proof fn lemma_total_mirrored(orders: Seq<RestingOrder>, c: int)
    ensures
        model::total(mirrored(orders, c)) == model::total(orders),
    decreases orders.len(),
{
    if orders.len() > 0 {
        assert(mirrored(orders, c).drop_first() =~= mirrored(orders.drop_first(), c));
        lemma_total_mirrored(orders.drop_first(), c);
    }
}

proof fn lemma_prices_mirrored(orders: Seq<RestingOrder>, c: int)
    ensures
        model::prices(mirrored(orders, c)).len() == model::prices(orders).len(),
{
    let f = |p: int| c - p;
    let a = orders.map_values(|o: RestingOrder| o.price);
    let b = mirrored(orders, c).map_values(|o: RestingOrder| o.price);
    a.lemma_cardinality_of_set();
    assert(b =~= a.map_values(f));
    assert(b.to_set() =~= a.to_set().map(f)) by {
        assert forall|p: int| b.to_set().contains(p) implies a.to_set().map(f).contains(p) by {
            let i = choose|i: int| 0 <= i < b.len() && b[i] == p;
            assert(a.to_set().contains(a[i]));
            assert(f(a[i]) == p);
        }
        assert forall|p: int| a.to_set().map(f).contains(p) implies b.to_set().contains(p) by {
            let q = choose|q: int| a.to_set().contains(q) && p == f(q);
            let i = choose|i: int| 0 <= i < a.len() && a[i] == q;
            assert(b[i] == p);
        }
    }
    assert(vstd::relations::injective(f));
    vstd::set_lib::lemma_map_size(a.to_set(), b.to_set(), f);
}

/// The first orders of the two sides have the best prices: no buy order offers more than the first,
/// no sell order asks less than the first, and the two do not meet.
pub proof fn law_first_orders_have_the_best_prices(book: BookView, i: int, j: int)
    requires
        book.valid(),
        0 <= i < book.bids.len(),
        0 <= j < book.asks.len(),
    ensures
        book.bids[i].price <= book.bids[0].price < book.asks[0].price <= book.asks[j].price,
{
    assert(i > 0 ==> model::no_worse(Side::Buy, book.bids[0].price, book.bids[i].price));
    assert(j > 0 ==> model::no_worse(Side::Sell, book.asks[0].price, book.asks[j].price));
}

} // verus!
