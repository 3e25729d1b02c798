//! What holds of the book whatever orders it is given.

use vstd::prelude::*;
use crate::matching;
use crate::model;
use crate::model::{BookView, RestingOrder};
use crate::types::Side;

verus! {

/// Price-time priority. A taker works through the other side strictly from the front: the orders
/// that remain are the last ones of the side in their old order, and of those only the first may
/// have lost quantity. Every order in front of them was taken in full.
pub proof fn law_taken_from_the_front(
    orders: Seq<RestingOrder>,
    taker: Side,
    limit: int,
    want: int,
)
    requires
        matching::positive(orders),
        want >= 0,
    ensures
        ({
            let s = model::sweep(orders, taker, limit, want);
            let gone = orders.len() - s.left.len();
            &&& 0 <= gone <= s.trades <= gone + 1
            &&& s.trades == gone ==> s.left == orders.skip(gone)
            &&& s.trades == gone + 1 ==> {
                &&& s.filled == want
                &&& s.left.len() > 0
                &&& s.left.drop_first() == orders.skip(gone + 1)
                &&& s.left[0].id == orders[gone].id
                &&& s.left[0].price == orders[gone].price
                &&& 0 < s.left[0].quantity < orders[gone].quantity
            }
            &&& forall|i: int|
                0 <= i < s.trades ==> model::crosses(taker, limit, (#[trigger] orders[i]).price)
        }),
    decreases orders.len(),
{
    let s = model::sweep(orders, taker, limit, want);
    if orders.len() == 0 || want <= 0 || !model::crosses(taker, limit, orders[0].price) {
        assert(orders.skip(0) =~= orders);
    } else if orders[0].quantity <= want {
        let rest = orders.drop_first();
        law_taken_from_the_front(rest, taker, limit, want - orders[0].quantity);
        let gone = rest.len() - s.left.len();
        assert(rest.skip(gone) =~= orders.skip(gone + 1));
        if s.trades == gone + 2 {
            assert(rest.skip(gone + 1) =~= orders.skip(gone + 2));
        }
        assert forall|i: int| 0 <= i < s.trades implies model::crosses(
            taker,
            limit,
            (#[trigger] orders[i]).price,
        ) by {
            if i > 0 {
                assert(orders[i] == rest[i - 1]);
            }
        }
    } else {
        assert(s.left.drop_first() =~= orders.skip(1));
    }
}

/// A taker that is left with some of its quantity has met no order that it could still trade with.
pub proof fn law_remainder_meets_no_cross(
    orders: Seq<RestingOrder>,
    taker: Side,
    limit: int,
    want: int,
)
    requires
        matching::positive(orders),
        want >= 0,
        model::sweep(orders, taker, limit, want).filled < want,
    ensures
        ({
            let left = model::sweep(orders, taker, limit, want).left;
            left.len() > 0 ==> !model::crosses(taker, limit, left[0].price)
        }),
    decreases orders.len(),
{
    if !(orders.len() == 0 || want <= 0 || !model::crosses(taker, limit, orders[0].price)) {
        if orders[0].quantity <= want {
            law_remainder_meets_no_cross(
                orders.drop_first(),
                taker,
                limit,
                want - orders[0].quantity,
            );
        }
    }
}

proof fn lemma_left_places(orders: Seq<RestingOrder>, taker: Side, limit: int, want: int)
    requires
        matching::positive(orders),
        want >= 0,
    ensures
        ({
            let left = model::sweep(orders, taker, limit, want).left;
            let gone = orders.len() - left.len();
            &&& gone >= 0
            &&& matching::positive(left)
            &&& forall|i: int|
                0 <= i < left.len() ==> (#[trigger] left[i]).price == orders[gone + i].price
        }),
{
    law_taken_from_the_front(orders, taker, limit, want);
    matching::lemma_sweep_bounds(orders, taker, limit, want);
    let s = model::sweep(orders, taker, limit, want);
    let gone = orders.len() - s.left.len();
    assert forall|i: int| 0 <= i < s.left.len() implies (#[trigger] s.left[i]).price == orders[gone
        + i].price by {
        if s.trades == gone {
            assert(s.left[i] == orders.skip(gone)[i]);
        } else if i > 0 {
            assert(s.left[i] == s.left.drop_first()[i - 1]);
            assert(orders.skip(gone + 1)[i - 1] == orders[gone + i]);
        }
    }
}

pub proof fn lemma_ahead_splits(orders: Seq<RestingOrder>, side: Side, price: int)
    ensures
        ({
            let n = model::ahead(orders, side, price);
            &&& n <= orders.len()
            &&& forall|i: int|
                0 <= i < n ==> model::no_worse(side, (#[trigger] orders[i]).price, price)
            &&& n < orders.len() ==> !model::no_worse(side, orders[n as int].price, price)
        }),
    decreases orders.len(),
{
    let n = model::ahead(orders, side, price);
    if orders.len() > 0 && model::no_worse(side, orders[0].price, price) {
        let rest = orders.drop_first();
        lemma_ahead_splits(rest, side, price);
        assert forall|i: int| 0 <= i < n implies model::no_worse(
            side,
            (#[trigger] orders[i]).price,
            price,
        ) by {
            if i > 0 {
                assert(orders[i] == rest[i - 1]);
            }
        }
        if n < orders.len() {
            assert(orders[n as int] == rest[n - 1]);
        }
    }
}

proof fn lemma_insert_keeps_order(orders: Seq<RestingOrder>, side: Side, n: int, order: RestingOrder)
    requires
        model::in_priority_order(orders, side),
        0 <= n <= orders.len(),
        forall|i: int|
            0 <= i < n ==> model::no_worse(side, (#[trigger] orders[i]).price, order.price),
        forall|i: int|
            n <= i < orders.len() ==> !model::no_worse(
                side,
                (#[trigger] orders[i]).price,
                order.price,
            ),
    ensures
        model::in_priority_order(orders.insert(n, order), side),
{
    let after = orders.insert(n, order);
    assert forall|i: int, j: int| 0 <= i < j < after.len() implies model::no_worse(
        side,
        #[trigger] after[i].price,
        #[trigger] after[j].price,
    ) by {
        let a = if i < n { i } else { i - 1 };
        let b = if j < n { j } else { j - 1 };
        assert(i != n ==> after[i] == orders[a]);
        assert(j != n ==> after[j] == orders[b]);
        if i != n && j != n {
            assert(model::no_worse(side, orders[a].price, orders[b].price));
        }
    }
}

/// A newcomer stands behind every order of the same or a better price and before every order of a
/// worse one; the others keep their order.
pub proof fn law_newcomer_queues_behind_its_price(
    orders: Seq<RestingOrder>,
    side: Side,
    order: RestingOrder,
)
    requires
        model::in_priority_order(orders, side),
    ensures
        ({
            let after = model::enqueue(orders, side, order);
            let n = model::ahead(orders, side, order.price) as int;
            &&& 0 <= n <= orders.len()
            &&& after[n] == order
            &&& after.take(n) == orders.take(n)
            &&& after.skip(n + 1) == orders.skip(n)
            &&& model::in_priority_order(after, side)
            &&& forall|i: int|
                0 <= i < n ==> model::no_worse(side, (#[trigger] orders[i]).price, order.price)
            &&& forall|i: int|
                n <= i < orders.len() ==> !model::no_worse(
                    side,
                    (#[trigger] orders[i]).price,
                    order.price,
                )
        }),
{
    let after = model::enqueue(orders, side, order);
    let n = model::ahead(orders, side, order.price) as int;
    lemma_ahead_splits(orders, side, order.price);
    assert(after.take(n) =~= orders.take(n));
    assert(after.skip(n + 1) =~= orders.skip(n));
    assert forall|i: int| n <= i < orders.len() implies !model::no_worse(
        side,
        (#[trigger] orders[i]).price,
        order.price,
    ) by {
        if i > n {
            assert(model::no_worse(side, orders[n].price, orders[i].price));
        }
    }
    lemma_insert_keeps_order(orders, side, n, order);
}

/// A book stays valid whatever is submitted to it. In particular it is never crossed: no buy order
/// rests at or above the price of a sell order.
pub proof fn law_submit_keeps_book_valid(
    book: BookView,
    id: u64,
    price: u64,
    quantity: u64,
    side: Side,
)
    requires
        book.valid(),
    ensures
        book.submit(id, price, quantity, side).valid(),
{
    if book.refusal(price, quantity) is None {
        let after = book.submit(id, price, quantity, side);
        let own = book.side(side);
        let other = book.side(side.opposite());
        let s = book.taken(price, quantity, side);
        let base = book.band_for(price).unwrap() as int;
        let own_after = after.side(side);
        let remainder = quantity - s.filled;
        assert(matching::positive(other));
        lemma_left_places(other, side, price as int, quantity as int);
        matching::lemma_sweep_bounds(other, side, price as int, quantity as int);
        assert(after.side(side.opposite()) == s.left);
        assert(model::in_priority_order(s.left, side.opposite())) by {
            let gone = other.len() - s.left.len();
            assert forall|i: int, j: int| 0 <= i < j < s.left.len() implies model::no_worse(
                side.opposite(),
                #[trigger] s.left[i].price,
                #[trigger] s.left[j].price,
            ) by {
                assert(s.left[i].price == other[gone + i].price);
                assert(s.left[j].price == other[gone + j].price);
            }
        }
        assert(model::in_band(base, price as int));
        assert(book.band != Some(base as u64) ==> book.resting() == 0);
        assert forall|i: int| 0 <= i < s.left.len() implies model::in_band(
            base,
            (#[trigger] s.left[i]).price,
        ) by {
            assert(s.left[i].price == other[other.len() - s.left.len() + i].price);
        }
        if remainder > 0 {
            let order = RestingOrder { id, price: price as int, quantity: remainder };
            let n = model::ahead(own, side, price as int) as int;
            law_newcomer_queues_behind_its_price(own, side, order);
            law_remainder_meets_no_cross(other, side, price as int, quantity as int);
            assert forall|i: int| 0 <= i < own_after.len() implies (
            #[trigger] own_after[i]).quantity > 0 && model::in_band(base, own_after[i].price) by {
                if i < n {
                    assert(own_after[i] == own[i]);
                } else if i > n {
                    assert(own_after[i] == own[i - 1]);
                }
            }
            assert(own_after[0] == order || (own.len() > 0 && own_after[0] == own[0]));
        }
        if s.left.len() > 0 {
            let gone = other.len() - s.left.len();
            assert(s.left[0].price == other[gone].price);
            assert(gone > 0 ==> model::no_worse(side.opposite(), other[0].price, other[gone].price));
        }
    }
}

} // verus!
