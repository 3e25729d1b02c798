//! What a limit order book is and how it reacts to an order.
//!
//! Each side of the book is one sequence of resting orders in priority order: the order that
//! trades first comes first. Everything the engine reports is read off these two sequences.

use vstd::prelude::*;
use crate::types::Side;

verus! {

/// Width of the price band in ticks, as a power of two.
pub const BAND_BITS: usize = 13;

/// Width of the price band in ticks.
pub const BAND: usize = 8192;

/// Why an order was not accepted.
#[derive(Clone, Copy, Debug, PartialEq, Eq, Structural)]
pub enum SubmitError {
    /// The price lies outside the price band of the book.
    PriceOutOfBand,
    /// The quantity is zero.
    ZeroQuantity,
}

/// What became of an accepted order.
#[derive(Clone, Copy, Debug, PartialEq, Eq, Structural)]
pub struct Fill {
    /// How many trades took place.
    pub trades: u32,
    /// How much of the order was executed.
    pub filled: u64,
    /// How much of the order rests in the book; zero if it was executed in full.
    pub resting: u64,
}

impl Default for Fill {
    fn default() -> (fill: Fill)
        ensures
            fill == (Fill { trades: 0, filled: 0, resting: 0 }),
    {
        Fill { trades: 0, filled: 0, resting: 0 }
    }
}

/// An order that waits in the book.
pub struct RestingOrder {
    pub id: u64,
    pub price: int,
    pub quantity: int,
}

/// What a taker leaves of one side of the book.
#[verifier::ext_equal]
pub struct Sweep {
    /// The orders that remain, in priority order.
    pub left: Seq<RestingOrder>,
    /// How much was taken.
    pub filled: int,
    /// How many orders traded.
    pub trades: int,
}

/// Whether a taker with price `limit` trades with an order that rests at `price`.
pub open spec fn crosses(taker: Side, limit: int, price: int) -> bool {
    match taker {
        Side::Buy => price <= limit,
        Side::Sell => price >= limit,
    }
}

/// Whether an order of `side` at price `a` has priority over, or equal priority with, one at `b`.
pub open spec fn no_worse(side: Side, a: int, b: int) -> bool {
    match side {
        Side::Buy => a >= b,
        Side::Sell => a <= b,
    }
}

/// Takes up to `want` from the front of `orders`, as far as prices cross.
pub open spec fn sweep(orders: Seq<RestingOrder>, taker: Side, limit: int, want: int) -> Sweep
    decreases orders.len(),
{
    if orders.len() == 0 || want <= 0 || !crosses(taker, limit, orders[0].price) {
        Sweep { left: orders, filled: 0, trades: 0 }
    } else if orders[0].quantity <= want {
        let rest = sweep(orders.drop_first(), taker, limit, want - orders[0].quantity);
        Sweep {
            left: rest.left,
            filled: rest.filled + orders[0].quantity,
            trades: rest.trades + 1,
        }
    } else {
        let reduced = RestingOrder { quantity: orders[0].quantity - want, ..orders[0] };
        Sweep { left: orders.update(0, reduced), filled: want, trades: 1 }
    }
}

/// How many orders at the front of `orders` keep their priority over a newcomer at `price`.
pub open spec fn ahead(orders: Seq<RestingOrder>, side: Side, price: int) -> nat
    decreases orders.len(),
{
    if orders.len() == 0 || !no_worse(side, orders[0].price, price) {
        0
    } else {
        1 + ahead(orders.drop_first(), side, price)
    }
}

/// Adds an order behind all those that have priority over it.
pub open spec fn enqueue(orders: Seq<RestingOrder>, side: Side, order: RestingOrder) -> Seq<
    RestingOrder,
> {
    orders.insert(ahead(orders, side, order.price) as int, order)
}

/// The orders at one price, oldest first.
pub open spec fn at_price(orders: Seq<RestingOrder>, price: int) -> Seq<RestingOrder> {
    orders.filter(|o: RestingOrder| o.price == price)
}

/// The sum of the quantities.
pub open spec fn total(orders: Seq<RestingOrder>) -> int
    decreases orders.len(),
{
    if orders.len() == 0 {
        0
    } else {
        orders[0].quantity + total(orders.drop_first())
    }
}

/// The prices at which an order rests.
pub open spec fn prices(orders: Seq<RestingOrder>) -> Set<int> {
    orders.map_values(|o: RestingOrder| o.price).to_set()
}

/// Whether `orders` is in priority order.
pub open spec fn in_priority_order(orders: Seq<RestingOrder>, side: Side) -> bool {
    forall|i: int, j: int|
        0 <= i < j < orders.len() ==> no_worse(side, #[trigger] orders[i].price, #[trigger] orders[j].price)
}

/// Whether `price` lies in the band whose lowest price is `base`.
pub open spec fn in_band(base: int, price: int) -> bool {
    base <= price < base + BAND
}

/// The lowest price of the band centred around `price`.
pub open spec fn centred(price: u64) -> u64 {
    if price < BAND / 2 {
        0
    } else {
        (price - BAND / 2) as u64
    }
}

/// The state of a book.
#[verifier::ext_equal]
pub struct BookView {
    /// Buy orders, highest price first, older before younger.
    pub bids: Seq<RestingOrder>,
    /// Sell orders, lowest price first, older before younger.
    pub asks: Seq<RestingOrder>,
    /// Lowest price of the band; `None` until an order has fixed the band.
    pub band: Option<u64>,
    /// Trades so far.
    pub trades: int,
    /// Volume traded so far.
    pub volume: int,
    /// Orders refused so far.
    pub rejected: int,
}

impl BookView {
    /// A book without orders or history.
    pub open spec fn empty(band: Option<u64>) -> BookView {
        BookView {
            bids: Seq::empty(),
            asks: Seq::empty(),
            band,
            trades: 0,
            volume: 0,
            rejected: 0,
        }
    }

    /// The resting orders of one side.
    pub open spec fn side(self, side: Side) -> Seq<RestingOrder> {
        match side {
            Side::Buy => self.bids,
            Side::Sell => self.asks,
        }
    }

    /// How many orders rest in the book.
    pub open spec fn resting(self) -> nat {
        self.bids.len() + self.asks.len()
    }

    /// The band under which an order at `price` is handled. The first order centres the band
    /// around its price. Later the band follows the market only while the book is empty; a price
    /// outside the band of a book with orders has no band.
    pub open spec fn band_for(self, price: u64) -> Option<u64> {
        match self.band {
            None => Some(centred(price)),
            Some(base) => if in_band(base as int, price as int) {
                Some(base)
            } else if self.resting() == 0 {
                Some(centred(price))
            } else {
                None
            },
        }
    }

    /// The error with which an order is refused, if it is.
    pub open spec fn refusal(self, price: u64, quantity: u64) -> Option<SubmitError> {
        if quantity == 0 {
            Some(SubmitError::ZeroQuantity)
        } else if self.band_for(price) is None {
            Some(SubmitError::PriceOutOfBand)
        } else {
            None
        }
    }

    /// What an order takes from the other side.
    pub open spec fn taken(self, price: u64, quantity: u64, side: Side) -> Sweep {
        sweep(self.side(side.opposite()), side, price as int, quantity as int)
    }

    /// The book with the two sides given by the side of an order.
    pub open spec fn with_sides(
        self,
        side: Side,
        own: Seq<RestingOrder>,
        other: Seq<RestingOrder>,
    ) -> BookView {
        match side {
            Side::Buy => BookView { bids: own, asks: other, ..self },
            Side::Sell => BookView { asks: own, bids: other, ..self },
        }
    }

    /// The own side of an order after it has been handled: what it could not take is queued.
    pub open spec fn own_side_after(self, id: u64, price: u64, quantity: u64, side: Side) -> Seq<
        RestingOrder,
    > {
        let remainder = quantity - self.taken(price, quantity, side).filled;
        if remainder > 0 {
            enqueue(
                self.side(side),
                side,
                RestingOrder { id, price: price as int, quantity: remainder },
            )
        } else {
            self.side(side)
        }
    }

    /// The book after an order has been submitted.
    pub open spec fn submit(self, id: u64, price: u64, quantity: u64, side: Side) -> BookView {
        if self.refusal(price, quantity) is Some {
            BookView { rejected: self.rejected + 1, ..self }
        } else {
            let taken = self.taken(price, quantity, side);
            BookView {
                band: self.band_for(price),
                trades: self.trades + taken.trades,
                volume: self.volume + taken.filled,
                ..self.with_sides(
                    side,
                    self.own_side_after(id, price, quantity, side),
                    taken.left,
                )
            }
        }
    }

    /// Whether `result` is the answer to an order.
    pub open spec fn answers(
        self,
        price: u64,
        quantity: u64,
        side: Side,
        result: Result<Fill, SubmitError>,
    ) -> bool {
        match result {
            Err(e) => self.refusal(price, quantity) == Some(e),
            Ok(fill) => {
                let taken = self.taken(price, quantity, side);
                &&& self.refusal(price, quantity) is None
                &&& fill.trades == taken.trades
                &&& fill.filled == taken.filled
                &&& fill.resting == quantity - taken.filled
            },
        }
    }

    /// Whether an order can be handled within the machine's number ranges, by a book with
    /// `capacity` order slots: the counters stay in range, so does the quantity at the price where
    /// a remainder rests, and there is a slot for it or room to double the slots.
    pub open spec fn fits(self, capacity: int, price: u64, quantity: u64, side: Side) -> bool {
        if self.refusal(price, quantity) is Some {
            self.rejected < u64::MAX
        } else {
            let taken = self.taken(price, quantity, side);
            let remainder = quantity - taken.filled;
            &&& self.trades + taken.trades <= u64::MAX
            &&& self.volume + taken.filled <= u64::MAX
            &&& remainder > 0 ==> {
                &&& total(at_price(self.side(side), price as int)) + remainder <= u64::MAX
                &&& self.side(side).len() + taken.left.len() < capacity || 2 * capacity <= u32::MAX
            }
        }
    }

    /// The order slots of a book with `capacity` slots after an order: they double when an order
    /// comes to rest and none is free.
    pub open spec fn capacity_after(
        self,
        capacity: int,
        price: u64,
        quantity: u64,
        side: Side,
    ) -> int {
        let taken = self.taken(price, quantity, side);
        if self.refusal(price, quantity) is None && taken.filled < quantity && self.side(side).len()
            + taken.left.len() >= capacity {
            2 * capacity
        } else {
            capacity
        }
    }

    /// What holds of every book: both sides are in priority order, no quantity is zero, all prices
    /// lie in the band, and no buy order could trade with a sell order.
    pub open spec fn valid(self) -> bool {
        &&& in_priority_order(self.bids, Side::Buy)
        &&& in_priority_order(self.asks, Side::Sell)
        &&& forall|i: int| 0 <= i < self.bids.len() ==> (#[trigger] self.bids[i]).quantity > 0
        &&& forall|i: int| 0 <= i < self.asks.len() ==> (#[trigger] self.asks[i]).quantity > 0
        &&& self.band is None ==> self.resting() == 0
        &&& self.band matches Some(base) ==> {
            &&& forall|i: int|
                0 <= i < self.bids.len() ==> in_band(base as int, (#[trigger] self.bids[i]).price)
            &&& forall|i: int|
                0 <= i < self.asks.len() ==> in_band(base as int, (#[trigger] self.asks[i]).price)
        }
        &&& self.bids.len() > 0 && self.asks.len() > 0 ==> self.bids[0].price < self.asks[0].price
    }
}

pub proof fn lemma_total_push(orders: Seq<RestingOrder>, order: RestingOrder)
    ensures
        total(orders.push(order)) == total(orders) + order.quantity,
    decreases orders.len(),
{
    reveal_with_fuel(total, 2);
    if orders.len() == 0 {
        assert(orders.push(order).drop_first() =~= Seq::<RestingOrder>::empty());
    } else {
        assert(orders.push(order).drop_first() =~= orders.drop_first().push(order));
        lemma_total_push(orders.drop_first(), order);
    }
}

} // verus!
