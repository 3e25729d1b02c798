//! Handing a sequence of orders to a book.

use vstd::prelude::*;
use crate::book_laws;
use crate::laws;
use crate::matching;
use crate::model;
use crate::model::{BookView, RestingOrder};
use crate::orderbook::OrderBook;
use crate::types::Order;

verus! {

/// The book after a sequence of orders.
pub open spec fn accept(book: BookView, orders: Seq<Order>) -> BookView
    decreases orders.len(),
{
    if orders.len() == 0 {
        book
    } else {
        let o = orders.last();
        accept(book, orders.drop_last()).submit(o.id, o.price, o.quantity, o.side)
    }
}

/// The order slots after a sequence of orders.
pub open spec fn slots(book: BookView, capacity: int, orders: Seq<Order>) -> int
    decreases orders.len(),
{
    if orders.len() == 0 {
        capacity
    } else {
        let o = orders.last();
        let before = orders.drop_last();
        accept(book, before).capacity_after(
            slots(book, capacity, before),
            o.price,
            o.quantity,
            o.side,
        )
    }
}

/// How many orders at the front of a sequence a book can handle within the machine's number
/// ranges.
pub open spec fn handled(book: BookView, capacity: int, orders: Seq<Order>) -> nat
    decreases orders.len(),
{
    if orders.len() == 0 {
        0
    } else {
        let o = orders.last();
        let before = orders.drop_last();
        let n = handled(book, capacity, before);
        if n == before.len() && accept(book, before).fits(
            slots(book, capacity, before),
            o.price,
            o.quantity,
            o.side,
        ) {
            orders.len()
        } else {
            n
        }
    }
}

pub proof fn lemma_handled_at_most(book: BookView, capacity: int, orders: Seq<Order>)
    ensures
        handled(book, capacity, orders) <= orders.len(),
    decreases orders.len(),
{
    if orders.len() > 0 {
        lemma_handled_at_most(book, capacity, orders.drop_last());
    }
}

/// The first order that cannot be handled is the end of it.
pub proof fn lemma_handled_stops(book: BookView, capacity: int, orders: Seq<Order>, n: int)
    requires
        0 <= n <= orders.len(),
        handled(book, capacity, orders.take(n)) < n,
    ensures
        handled(book, capacity, orders) == handled(book, capacity, orders.take(n)),
    decreases orders.len(),
{
    if n < orders.len() {
        let before = orders.drop_last();
        assert(before.take(n) =~= orders.take(n));
        lemma_handled_stops(book, capacity, before, n);
    } else {
        assert(orders.take(n) =~= orders);
    }
}

/// Submits the next order of a sequence, if the book can handle it. The orders in front of it are
/// those that the book has handled.
pub(crate) fn submit_next(
    book: &mut OrderBook,
    order: Order,
    Ghost(start): Ghost<OrderBook>,
    Ghost(orders): Ghost<Seq<Order>>,
    Ghost(n): Ghost<int>,
) -> (done: bool)
    requires
        old(book).wf(),
        0 <= n < orders.len(),
        orders[n] == order,
        handled(start@, start.capacity() as int, orders.take(n)) == n,
        old(book)@ == accept(start@, orders.take(n)),
        old(book).capacity() == slots(start@, start.capacity() as int, orders.take(n)),
    ensures
        final(book).wf(),
        done ==> {
            &&& handled(start@, start.capacity() as int, orders.take(n + 1)) == n + 1
            &&& final(book)@ == accept(start@, orders.take(n + 1))
            &&& final(book).capacity() == slots(
                start@,
                start.capacity() as int,
                orders.take(n + 1),
            )
        },
        !done ==> {
            &&& *final(book) == *old(book)
            &&& handled(start@, start.capacity() as int, orders) == n
        },
{
    proof {
        assert(orders.take(n + 1).drop_last() =~= orders.take(n));
    }
    if !book.fits(order.price, order.quantity, order.side) {
        proof {
            lemma_handled_stops(start@, start.capacity() as int, orders, n + 1);
        }
        return false;
    }
    let _ = book.submit(order.id, order.price, order.quantity, order.side);
    true
}

/// Submits orders in turn, up to the first that the book cannot handle; how many it has handled.
pub fn replay(book: &mut OrderBook, orders: &[Order]) -> (n: usize)
    requires
        old(book).wf(),
    ensures
        final(book).wf(),
        n == handled(old(book)@, old(book).capacity() as int, orders@),
        final(book)@ == accept(old(book)@, orders@.take(n as int)),
        final(book).capacity() == slots(
            old(book)@,
            old(book).capacity() as int,
            orders@.take(n as int),
        ),
{
    let ghost start = *book;
    let mut n: usize = 0;
    while n < orders.len()
        invariant
            start == *old(book),
            book.wf(),
            n <= orders@.len(),
            handled(start@, start.capacity() as int, orders@.take(n as int)) == n,
            book@ == accept(start@, orders@.take(n as int)),
            book.capacity() == slots(start@, start.capacity() as int, orders@.take(n as int)),
        decreases orders@.len() - n,
    {
        if !submit_next(book, orders[n], Ghost(start), Ghost(orders@), Ghost(n as int)) {
            return n;
        }
        n = n + 1;
    }
    assert(orders@.take(n as int) =~= orders@);
    n
}

/// A sequence of orders can be split anywhere: handing over the first part and then the second is
/// handing over the whole.
pub proof fn law_orders_come_in_parts(
    book: BookView,
    capacity: int,
    first: Seq<Order>,
    second: Seq<Order>,
)
    ensures
        accept(book, first + second) == accept(accept(book, first), second),
        slots(book, capacity, first + second) == slots(
            accept(book, first),
            slots(book, capacity, first),
            second,
        ),
    decreases second.len(),
{
    if second.len() == 0 {
        assert(first + second =~= first);
    } else {
        assert((first + second).drop_last() =~= first + second.drop_last());
        law_orders_come_in_parts(book, capacity, first, second.drop_last());
    }
}

/// Where a book can handle a whole sequence, it can handle the first part, and then the second.
pub proof fn law_handling_comes_in_parts(
    book: BookView,
    capacity: int,
    first: Seq<Order>,
    second: Seq<Order>,
)
    requires
        handled(book, capacity, first + second) == first.len() + second.len(),
    ensures
        handled(book, capacity, first) == first.len(),
        handled(accept(book, first), slots(book, capacity, first), second) == second.len(),
        accept(book, first + second) == accept(accept(book, first), second),
    decreases second.len(),
{
    law_orders_come_in_parts(book, capacity, first, second);
    if second.len() == 0 {
        assert(first + second =~= first);
    } else {
        let before = second.drop_last();
        assert((first + second).drop_last() =~= first + before);
        lemma_handled_at_most(book, capacity, first + before);
        law_handling_comes_in_parts(book, capacity, first, before);
        law_orders_come_in_parts(book, capacity, first, before);
    }
}

/// A valid book is valid after any orders.
pub proof fn law_orders_keep_book_valid(book: BookView, orders: Seq<Order>)
    requires
        book.valid(),
    ensures
        accept(book, orders).valid(),
    decreases orders.len(),
{
    if orders.len() > 0 {
        let o = orders.last();
        law_orders_keep_book_valid(book, orders.drop_last());
        laws::law_submit_keeps_book_valid(
            accept(book, orders.drop_last()),
            o.id,
            o.price,
            o.quantity,
            o.side,
        );
    }
}

/// How much of a sequence of orders is accepted.
pub open spec fn accepted(book: BookView, orders: Seq<Order>) -> int
    decreases orders.len(),
{
    if orders.len() == 0 {
        0
    } else {
        let o = orders.last();
        let before = orders.drop_last();
        accepted(book, before) + (if accept(book, before).refusal(o.price, o.quantity) is None {
            o.quantity as int
        } else {
            0
        })
    }
}

/// All that was accepted is accounted for: it rests in the book or was traded, where each trade
/// uses up the traded quantity on both sides.
pub proof fn law_accepted_quantity_rests_or_was_traded(book: BookView, orders: Seq<Order>)
    requires
        book.valid(),
    ensures
        ({
            let after = accept(book, orders);
            let rested = model::total(book.bids) + model::total(book.asks);
            let rests = model::total(after.bids) + model::total(after.asks);
            rests + 2 * (after.volume - book.volume) == rested + accepted(book, orders)
        }),
    decreases orders.len(),
{
    if orders.len() > 0 {
        let o = orders.last();
        let before = orders.drop_last();
        law_accepted_quantity_rests_or_was_traded(book, before);
        law_orders_keep_book_valid(book, before);
        let b = accept(book, before);
        if b.refusal(o.price, o.quantity) is None {
            book_laws::law_quantity_is_conserved(b, o.id, o.price, o.quantity, o.side);
        }
    }
}

/// No counter ever falls, and no more orders are refused than were submitted.
pub proof fn law_counters_never_fall(book: BookView, orders: Seq<Order>)
    requires
        book.valid(),
    ensures
        ({
            let after = accept(book, orders);
            &&& book.trades <= after.trades
            &&& book.volume <= after.volume
            &&& book.rejected <= after.rejected <= book.rejected + orders.len()
        }),
    decreases orders.len(),
{
    if orders.len() > 0 {
        let o = orders.last();
        let before = orders.drop_last();
        law_counters_never_fall(book, before);
        law_orders_keep_book_valid(book, before);
        let b = accept(book, before);
        matching::lemma_sweep_bounds(
            b.side(o.side.opposite()),
            o.side,
            o.price as int,
            o.quantity as int,
        );
    }
}

/// The mirror image of an order: the other side, and the price `p` turned into `c - p`.
pub open spec fn mirror_order(o: Order, c: int) -> Order {
    Order { price: (c - o.price) as u64, side: o.side.opposite(), ..o }
}

/// Buying and selling are mirror images over whole histories: orders whose prices lie in the band
/// lead a book, and their mirror images lead its mirror image, to mirror images, with the same
/// trades, volume and refusals.
pub proof fn law_histories_mirror_each_other(book: BookView, orders: Seq<Order>, c: int)
    requires
        book.band is Some,
        book_laws::can_be_mirrored(book.band->0, c),
        forall|i: int|
            0 <= i < orders.len() ==> model::in_band(
                book.band->0 as int,
                (#[trigger] orders[i]).price as int,
            ) && c - orders[i].price <= u64::MAX,
    ensures
        ({
            let turned = orders.map_values(|o: Order| mirror_order(o, c));
            let after = accept(book, orders);
            let image = accept(book_laws::mirror(book, c), turned);
            &&& image == book_laws::mirror(after, c)
            &&& after.band == book.band
            &&& image.trades == after.trades
            &&& image.volume == after.volume
            &&& image.rejected == after.rejected
            &&& model::prices(image.bids).len() == model::prices(after.asks).len()
            &&& model::prices(image.asks).len() == model::prices(after.bids).len()
            &&& after.asks.len() > 0 ==> image.bids[0].price == c - after.asks[0].price
            &&& after.bids.len() > 0 ==> image.asks[0].price == c - after.bids[0].price
        }),
    decreases orders.len(),
{
    let turned = orders.map_values(|o: Order| mirror_order(o, c));
    if orders.len() > 0 {
        let before = orders.drop_last();
        let o = orders.last();
        assert(turned.drop_last() =~= before.map_values(|o: Order| mirror_order(o, c)));
        law_histories_mirror_each_other(book, before, c);
        book_laws::law_buying_and_selling_mirror_each_other(
            accept(book, before),
            o.id,
            o.price,
            o.quantity,
            o.side,
            c,
        );
    }
    let after = accept(book, orders);
    book_laws::law_mirrored_side_looks_the_same(after.asks, 0, c);
    book_laws::law_mirrored_side_looks_the_same(after.bids, 0, c);
}

/// A number of slots, doubled `j` times.
pub open spec fn doubled(capacity: int, j: nat) -> int
    decreases j,
{
    if j == 0 {
        capacity
    } else {
        doubled(2 * capacity, (j - 1) as nat)
    }
}

proof fn lemma_doubled_again(capacity: int, j: nat)
    ensures
        2 * doubled(capacity, j) == doubled(capacity, j + 1),
    decreases j,
{
    reveal_with_fuel(doubled, 2);
    if j > 0 {
        lemma_doubled_again(2 * capacity, (j - 1) as nat);
    }
}

proof fn lemma_doubled_grows(capacity: int, j: nat)
    requires
        capacity >= 0,
    ensures
        capacity <= doubled(capacity, j),
    decreases j,
{
    if j > 0 {
        lemma_doubled_grows(2 * capacity, (j - 1) as nat);
    }
}

/// The slots of a book only ever double.
pub proof fn law_slots_grow_by_doubling(book: BookView, capacity: int, orders: Seq<Order>) -> (j:
    nat)
    ensures
        slots(book, capacity, orders) == doubled(capacity, j),
    decreases orders.len(),
{
    if orders.len() == 0 {
        0
    } else {
        let o = orders.last();
        let before = orders.drop_last();
        let j = law_slots_grow_by_doubling(book, capacity, before);
        lemma_doubled_again(capacity, j);
        if slots(book, capacity, orders) == slots(book, capacity, before) {
            j
        } else {
            j + 1
        }
    }
}

/// No more orders rest than there are slots.
proof fn lemma_slots_suffice(book: BookView, capacity: int, orders: Seq<Order>)
    requires
        book.valid(),
        1 <= capacity,
        book.resting() <= capacity,
    ensures
        1 <= slots(book, capacity, orders),
        accept(book, orders).resting() <= slots(book, capacity, orders),
    decreases orders.len(),
{
    if orders.len() > 0 {
        let o = orders.last();
        let before = orders.drop_last();
        lemma_slots_suffice(book, capacity, before);
        law_orders_keep_book_valid(book, before);
        let b = accept(book, before);
        laws::lemma_ahead_splits(b.side(o.side), o.side, o.price as int);
        matching::lemma_sweep_bounds(
            b.side(o.side.opposite()),
            o.side,
            o.price as int,
            o.quantity as int,
        );
    }
}

/// Whatever a book can handle, the same book with its slots doubled some times can handle too.
proof fn lemma_more_slots(book: BookView, capacity: int, j: nat, orders: Seq<Order>) -> (k: nat)
    requires
        book.valid(),
        1 <= capacity,
        book.resting() <= capacity,
        handled(book, capacity, orders) == orders.len(),
    ensures
        handled(book, doubled(capacity, j), orders) == orders.len(),
        slots(book, doubled(capacity, j), orders) == doubled(slots(book, capacity, orders), k),
    decreases orders.len(),
{
    if orders.len() == 0 {
        j
    } else {
        let o = orders.last();
        let before = orders.drop_last();
        lemma_handled_at_most(book, capacity, before);
        let k = lemma_more_slots(book, capacity, j, before);
        let b = accept(book, before);
        let few = slots(book, capacity, before);
        let many = slots(book, doubled(capacity, j), before);
        lemma_slots_suffice(book, capacity, before);
        law_orders_keep_book_valid(book, before);
        matching::lemma_sweep_bounds(
            b.side(o.side.opposite()),
            o.side,
            o.price as int,
            o.quantity as int,
        );
        lemma_doubled_grows(few, k);
        if k > 0 {
            lemma_doubled_grows(2 * few, (k - 1) as nat);
        }
        if slots(book, capacity, orders) == few || many != slots(
            book,
            doubled(capacity, j),
            orders,
        ) {
            k
        } else {
            (k - 1) as nat
        }
    }
}

/// A book that has been reset cannot be told from a fresh one. Its slots may have doubled since it
/// was made; whatever a fresh book can handle it can handle too, and the same orders lead both to
/// the same state.
pub proof fn law_reset_book_is_like_a_fresh_one(
    reset: OrderBook,
    fresh: OrderBook,
    j: nat,
    orders: Seq<Order>,
)
    requires
        reset@ == BookView::empty(None),
        fresh@ == BookView::empty(None),
        fresh.capacity() >= 1,
        reset.capacity() == doubled(fresh.capacity() as int, j),
    ensures
        accept(reset@, orders) == accept(fresh@, orders),
        handled(fresh@, fresh.capacity() as int, orders) == orders.len() ==> handled(
            reset@,
            reset.capacity() as int,
            orders,
        ) == orders.len(),
{
    if handled(fresh@, fresh.capacity() as int, orders) == orders.len() {
        let _ = lemma_more_slots(fresh@, fresh.capacity() as int, j, orders);
    }
}

/// The sum of the quantities of orders.
pub open spec fn quantities(orders: Seq<Order>) -> int
    decreases orders.len(),
{
    if orders.len() == 0 {
        0
    } else {
        quantities(orders.drop_last()) + orders.last().quantity
    }
}

proof fn lemma_accepted_at_most(book: BookView, orders: Seq<Order>)
    ensures
        0 <= accepted(book, orders) <= quantities(orders),
    decreases orders.len(),
{
    if orders.len() > 0 {
        lemma_accepted_at_most(book, orders.drop_last());
    }
}

proof fn lemma_part_of_total(orders: Seq<RestingOrder>, price: int)
    requires
        matching::positive(orders),
    ensures
        0 <= model::total(model::at_price(orders, price)) <= model::total(orders),
    decreases orders.len(),
{
    reveal(Seq::filter);
    if orders.len() > 0 {
        let front = orders.drop_last();
        lemma_part_of_total(front, price);
        model::lemma_total_push(front, orders.last());
        model::lemma_total_push(model::at_price(front, price), orders.last());
        assert(orders =~= front.push(orders.last()));
        assert(orders.last() == orders[orders.len() - 1]);
    }
}

/// Trades and resting orders together are no more than the orders submitted.
proof fn lemma_trades_and_resting(book: BookView, orders: Seq<Order>)
    requires
        book.valid(),
    ensures
        ({
            let after = accept(book, orders);
            after.trades + after.resting() <= book.trades + book.resting() + orders.len()
        }),
    decreases orders.len(),
{
    if orders.len() > 0 {
        let o = orders.last();
        let before = orders.drop_last();
        lemma_trades_and_resting(book, before);
        law_orders_keep_book_valid(book, before);
        let b = accept(book, before);
        laws::lemma_ahead_splits(b.side(o.side), o.side, o.price as int);
        laws::law_taken_from_the_front(
            b.side(o.side.opposite()),
            o.side,
            o.price as int,
            o.quantity as int,
        );
    }
}

/// A fresh book handles every sequence of up to 2147483648 orders whose quantities sum up to no more
/// than 64 bits hold, however few slots it has at first.
pub proof fn law_moderate_orders_are_handled(
    band: Option<u64>,
    capacity: int,
    orders: Seq<Order>,
)
    requires
        capacity >= 1,
        orders.len() <= 0x8000_0000,
        quantities(orders) <= u64::MAX,
    ensures
        handled(BookView::empty(band), capacity, orders) == orders.len(),
    decreases orders.len(),
{
    let book = BookView::empty(band);
    if orders.len() > 0 {
        let o = orders.last();
        let before = orders.drop_last();
        law_moderate_orders_are_handled(band, capacity, before);
        law_orders_keep_book_valid(book, before);
        law_orders_keep_book_valid(book, orders);
        let b = accept(book, before);
        let after = accept(book, orders);
        lemma_trades_and_resting(book, before);
        lemma_trades_and_resting(book, orders);
        law_counters_never_fall(book, before);
        lemma_accepted_at_most(book, orders);
        law_accepted_quantity_rests_or_was_traded(book, orders);
        matching::lemma_total_nonnegative(after.bids);
        matching::lemma_total_nonnegative(after.asks);
        lemma_part_of_total(b.side(o.side), o.price as int);
        if b.refusal(o.price, o.quantity) is None {
            book_laws::law_quantity_is_conserved(b, o.id, o.price, o.quantity, o.side);
            matching::lemma_sweep_bounds(
                b.side(o.side.opposite()),
                o.side,
                o.price as int,
                o.quantity as int,
            );
        }
    }
}

} // verus!
