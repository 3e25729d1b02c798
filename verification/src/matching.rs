//! How sweeps compose.

use vstd::prelude::*;
use crate::model;
use crate::model::{RestingOrder, Sweep};
use crate::types::Side;

verus! {

/// Whether every quantity is positive.
pub open spec fn positive(orders: Seq<RestingOrder>) -> bool {
    forall|i: int| 0 <= i < orders.len() ==> (#[trigger] orders[i]).quantity > 0
}

/// Whether a taker with price `limit` could trade with all of the orders.
pub open spec fn all_cross(orders: Seq<RestingOrder>, taker: Side, limit: int) -> bool {
    forall|i: int|
        0 <= i < orders.len() ==> model::crosses(taker, limit, (#[trigger] orders[i]).price)
}

/// A sweep takes no more than is wanted and no more than is there, and touches no more orders
/// than there are.
pub proof fn lemma_sweep_bounds(orders: Seq<RestingOrder>, taker: Side, limit: int, want: int)
    requires
        positive(orders),
        want >= 0,
    ensures
        ({
            let s = model::sweep(orders, taker, limit, want);
            &&& 0 <= s.filled <= want
            &&& s.filled <= model::total(orders)
            &&& 0 <= s.trades <= orders.len()
            &&& s.left.len() <= orders.len()
            &&& model::total(s.left) == model::total(orders) - s.filled
            &&& positive(s.left)
        }),
    decreases orders.len(),
{
    lemma_total_nonnegative(orders);
    if !(orders.len() == 0 || want <= 0 || !model::crosses(taker, limit, orders[0].price)) {
        if orders[0].quantity <= want {
            lemma_sweep_bounds(orders.drop_first(), taker, limit, want - orders[0].quantity);
        } else {
            let reduced = RestingOrder { quantity: orders[0].quantity - want, ..orders[0] };
            let left = orders.update(0, reduced);
            assert(left.drop_first() =~= orders.drop_first());
            lemma_total_nonnegative(orders.drop_first());
        }
    }
}

pub proof fn lemma_total_nonnegative(orders: Seq<RestingOrder>)
    requires
        positive(orders),
    ensures
        model::total(orders) >= 0,
    decreases orders.len(),
{
    if orders.len() > 0 {
        lemma_total_nonnegative(orders.drop_first());
    }
}

/// Orders that all cross are swept in the same way whatever the limit.
pub proof fn lemma_sweep_limit(
    orders: Seq<RestingOrder>,
    taker: Side,
    limit: int,
    other: int,
    want: int,
)
    requires
        all_cross(orders, taker, limit),
        all_cross(orders, taker, other),
    ensures
        model::sweep(orders, taker, limit, want) == model::sweep(orders, taker, other, want),
    decreases orders.len(),
{
    if orders.len() > 0 {
        lemma_sweep_limit(orders.drop_first(), taker, limit, other, want - orders[0].quantity);
    }
}

/// A sweep of two stretches, the first of which crosses throughout, is a sweep of the first and
/// then, if nothing is left of it, a sweep of the second.
pub proof fn lemma_sweep_concat(
    front: Seq<RestingOrder>,
    back: Seq<RestingOrder>,
    taker: Side,
    limit: int,
    want: int,
)
    requires
        positive(front),
        all_cross(front, taker, limit),
        want >= 0,
    ensures
        ({
            let f = model::sweep(front, taker, limit, want);
            let b = model::sweep(back, taker, limit, want - f.filled);
            let s = model::sweep(front + back, taker, limit, want);
            &&& f.left.len() > 0 ==> f.filled == want && s == (Sweep {
                left: f.left + back,
                ..f
            })
            &&& f.left.len() == 0 ==> s == (Sweep {
                left: b.left,
                filled: f.filled + b.filled,
                trades: f.trades + b.trades,
            })
        }),
    decreases front.len(),
{
    let all = front + back;
    if front.len() == 0 {
        assert(all =~= back);
    } else {
        assert(all[0] == front[0]);
        assert(all.drop_first() =~= front.drop_first() + back);
        if want == 0 {
        } else if front[0].quantity <= want {
            lemma_sweep_concat(front.drop_first(), back, taker, limit, want - front[0].quantity);
        } else {
            let reduced = RestingOrder { quantity: front[0].quantity - want, ..front[0] };
            assert(all.update(0, reduced) =~= front.update(0, reduced) + back);
        }
    }
}

} // verus!
