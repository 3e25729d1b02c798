//! One side of the book seen as a sequence of price levels, and what flattening it yields.

use vstd::prelude::*;
use crate::model;
use crate::model::RestingOrder;
use crate::types::Side;

verus! {

/// Whether level `k` holds orders at `price_of(k)` only, and prices get worse with `k`.
pub open spec fn graded(
    levels: Seq<Seq<RestingOrder>>,
    side: Side,
    price_of: spec_fn(int) -> int,
) -> bool {
    &&& forall|k: int, i: int|
        0 <= k < levels.len() && 0 <= i < levels[k].len() ==> (#[trigger] levels[k][i]).price
            == price_of(k)
    &&& forall|j: int, k: int|
        0 <= j < k < levels.len() ==> model::no_worse(side, #[trigger] price_of(j), #[trigger] price_of(k))
            && price_of(j) != price_of(k)
}

pub proof fn lemma_flatten_split<A>(levels: Seq<Seq<A>>, k: int)
    requires
        0 <= k < levels.len(),
    ensures
        levels.flatten() == levels.take(k).flatten() + levels[k] + levels.skip(k + 1).flatten(),
{
    let tail = seq![levels[k]] + levels.skip(k + 1);
    assert(levels =~= levels.take(k) + tail);
    vstd::seq_lib::lemma_flatten_concat(levels.take(k), tail);
    assert(tail.drop_first() =~= levels.skip(k + 1));
    assert(tail.flatten() =~= levels[k] + levels.skip(k + 1).flatten());
    assert(levels.flatten() =~= levels.take(k).flatten() + levels[k] + levels.skip(
        k + 1,
    ).flatten());
}

/// Replacing one level replaces its orders in the flattened sequence.
pub proof fn lemma_flatten_update<A>(levels: Seq<Seq<A>>, k: int, level: Seq<A>)
    requires
        0 <= k < levels.len(),
    ensures
        levels.update(k, level).flatten() == levels.take(k).flatten() + level + levels.skip(
            k + 1,
        ).flatten(),
{
    let after = levels.update(k, level);
    lemma_flatten_split(after, k);
    assert(after.take(k) =~= levels.take(k));
    assert(after.skip(k + 1) =~= levels.skip(k + 1));
}

pub proof fn lemma_flatten_empty<A>(levels: Seq<Seq<A>>)
    requires
        forall|k: int| 0 <= k < levels.len() ==> (#[trigger] levels[k]).len() == 0,
    ensures
        levels.flatten() == Seq::<A>::empty(),
    decreases levels.len(),
{
    if levels.len() > 0 {
        let rest = levels.drop_first();
        assert forall|k: int| 0 <= k < rest.len() implies (#[trigger] rest[k]).len() == 0 by {
            assert(rest[k] == levels[k + 1]);
        }
        lemma_flatten_empty(rest);
        assert(levels[0].len() == 0);
    }
    assert(levels.flatten() =~= Seq::<A>::empty());
}

/// Every order of the flattened sequence comes from some level.
pub proof fn lemma_flatten_source<A>(levels: Seq<Seq<A>>, i: int) -> (place: (int, int))
    requires
        0 <= i < levels.flatten().len(),
    ensures
        0 <= place.0 < levels.len(),
        0 <= place.1 < levels[place.0].len(),
        levels.flatten()[i] == levels[place.0][place.1],
    decreases levels.len(),
{
    if i < levels[0].len() {
        (0, i)
    } else {
        let rest = lemma_flatten_source(levels.drop_first(), i - levels[0].len());
        (rest.0 + 1, rest.1)
    }
}

/// How many of the first `n` levels are not empty.
pub open spec fn used_below<A>(levels: Seq<Seq<A>>, n: nat) -> nat
    decreases n,
{
    if n == 0 {
        0
    } else {
        used_below(levels, (n - 1) as nat) + (if levels[n - 1].len() > 0 { 1nat } else { 0nat })
    }
}

pub proof fn lemma_used_below_same<A, B>(xs: Seq<Seq<A>>, ys: Seq<Seq<B>>, n: nat)
    requires
        forall|k: int| 0 <= k < n ==> #[trigger] xs[k].len() == ys[k].len(),
    ensures
        used_below(xs, n) == used_below(ys, n),
    decreases n,
{
    if n > 0 {
        lemma_used_below_same(xs, ys, (n - 1) as nat);
        assert(xs[n - 1].len() == ys[n - 1].len());
    }
}

pub proof fn lemma_filter_none<A>(s: Seq<A>, pred: spec_fn(A) -> bool)
    requires
        forall|i: int| 0 <= i < s.len() ==> !pred(#[trigger] s[i]),
    ensures
        s.filter(pred) == Seq::<A>::empty(),
    decreases s.len(),
{
    reveal(Seq::filter);
    if s.len() > 0 {
        lemma_filter_none(s.drop_last(), pred);
    }
    assert(s.filter(pred) =~= Seq::<A>::empty());
}

pub proof fn lemma_filter_all<A>(s: Seq<A>, pred: spec_fn(A) -> bool)
    requires
        forall|i: int| 0 <= i < s.len() ==> pred(#[trigger] s[i]),
    ensures
        s.filter(pred) == s,
    decreases s.len(),
{
    reveal(Seq::filter);
    if s.len() > 0 {
        lemma_filter_all(s.drop_last(), pred);
    }
    assert(s.filter(pred) =~= s);
}

/// No order is at a price that none of the levels has.
pub proof fn lemma_at_no_price(
    levels: Seq<Seq<RestingOrder>>,
    price_of: spec_fn(int) -> int,
    price: int,
)
    requires
        forall|k: int, i: int|
            0 <= k < levels.len() && 0 <= i < levels[k].len() ==> (#[trigger] levels[k][i]).price
                == price_of(k),
        forall|k: int| 0 <= k < levels.len() ==> #[trigger] price_of(k) != price,
    ensures
        model::at_price(levels.flatten(), price) == Seq::<RestingOrder>::empty(),
{
    let all = levels.flatten();
    let pred = |o: RestingOrder| o.price == price;
    assert forall|i: int| 0 <= i < all.len() implies !pred(#[trigger] all[i]) by {
        let place = lemma_flatten_source(levels, i);
        assert(levels[place.0][place.1].price == price_of(place.0));
    }
    lemma_filter_none(all, pred);
}

/// The orders at the price of a level are those of the level.
pub proof fn lemma_at_price(
    levels: Seq<Seq<RestingOrder>>,
    side: Side,
    price_of: spec_fn(int) -> int,
    k: int,
)
    requires
        graded(levels, side, price_of),
        0 <= k < levels.len(),
    ensures
        model::at_price(levels.flatten(), price_of(k)) == levels[k],
{
    let pred = |o: RestingOrder| o.price == price_of(k);
    let front = levels.take(k);
    let back = levels.skip(k + 1);
    lemma_flatten_split(levels, k);
    Seq::filter_distributes_over_add(front.flatten() + levels[k], back.flatten(), pred);
    Seq::filter_distributes_over_add(front.flatten(), levels[k], pred);
    assert forall|i: int| 0 <= i < front.flatten().len() implies !pred(
        #[trigger] front.flatten()[i],
    ) by {
        let place = lemma_flatten_source(front, i);
        assert(front[place.0] == levels[place.0]);
        assert(levels[place.0][place.1].price == price_of(place.0));
        assert(price_of(place.0) != price_of(k));
    }
    lemma_filter_none(front.flatten(), pred);
    assert forall|i: int| 0 <= i < back.flatten().len() implies !pred(
        #[trigger] back.flatten()[i],
    ) by {
        let place = lemma_flatten_source(back, i);
        assert(back[place.0] == levels[place.0 + k + 1]);
        assert(levels[place.0 + k + 1][place.1].price == price_of(place.0 + k + 1));
        assert(price_of(place.0 + k + 1) != price_of(k));
    }
    lemma_filter_none(back.flatten(), pred);
    assert forall|i: int| 0 <= i < levels[k].len() implies pred(#[trigger] levels[k][i]) by {
        assert(levels[k][i].price == price_of(k));
    }
    lemma_filter_all(levels[k], pred);
    assert(levels.flatten().filter(pred) =~= levels[k]);
}

proof fn lemma_ahead(
    front: Seq<RestingOrder>,
    back: Seq<RestingOrder>,
    side: Side,
    price: int,
)
    requires
        forall|i: int|
            0 <= i < front.len() ==> model::no_worse(side, (#[trigger] front[i]).price, price),
        back.len() > 0 ==> !model::no_worse(side, back[0].price, price),
    ensures
        model::ahead(front + back, side, price) == front.len(),
    decreases front.len(),
{
    let all = front + back;
    if front.len() > 0 {
        assert(all[0] == front[0]);
        assert(all.drop_first() =~= front.drop_first() + back);
        lemma_ahead(front.drop_first(), back, side, price);
    } else {
        assert(all =~= back);
    }
}

/// An order queued by priority lands at the end of the level of its price.
pub proof fn lemma_enqueue(
    levels: Seq<Seq<RestingOrder>>,
    side: Side,
    price_of: spec_fn(int) -> int,
    k: int,
    order: RestingOrder,
)
    requires
        graded(levels, side, price_of),
        0 <= k < levels.len(),
        order.price == price_of(k),
    ensures
        model::enqueue(levels.flatten(), side, order) == levels.update(
            k,
            levels[k].push(order),
        ).flatten(),
{
    let front = levels.take(k);
    let back = levels.skip(k + 1);
    let kept = front.flatten() + levels[k];
    lemma_flatten_split(levels, k);
    lemma_flatten_update(levels, k, levels[k].push(order));
    assert forall|i: int| 0 <= i < kept.len() implies model::no_worse(
        side,
        (#[trigger] kept[i]).price,
        order.price,
    ) by {
        if i < front.flatten().len() {
            let place = lemma_flatten_source(front, i);
            assert(front[place.0] == levels[place.0]);
            assert(levels[place.0][place.1].price == price_of(place.0));
            assert(model::no_worse(side, price_of(place.0), price_of(k)));
        } else {
            assert(kept[i] == levels[k][i - front.flatten().len()]);
        }
    }
    if back.flatten().len() > 0 {
        let place = lemma_flatten_source(back, 0);
        assert(back[place.0] == levels[place.0 + k + 1]);
        assert(levels[place.0 + k + 1][place.1].price == price_of(place.0 + k + 1));
        assert(model::no_worse(side, price_of(k), price_of(place.0 + k + 1)));
        assert(price_of(k) != price_of(place.0 + k + 1));
    }
    lemma_ahead(kept, back.flatten(), side, order.price);
    assert(levels.flatten() =~= kept + back.flatten());
    assert(model::enqueue(levels.flatten(), side, order) =~= front.flatten() + levels[k].push(order)
        + back.flatten());
}

/// The number of prices with orders is the number of levels that are not empty.
pub proof fn lemma_price_count(
    levels: Seq<Seq<RestingOrder>>,
    side: Side,
    price_of: spec_fn(int) -> int,
    n: nat,
)
    requires
        graded(levels, side, price_of),
        n <= levels.len(),
    ensures
        model::prices(levels.take(n as int).flatten()).finite(),
        model::prices(levels.take(n as int).flatten()).len() == used_below(levels, n),
    decreases n,
{
    let upto = levels.take(n as int);
    let price = |o: RestingOrder| o.price;
    if n == 0 {
        assert(upto.flatten() =~= Seq::<RestingOrder>::empty());
        assert(upto.flatten().map_values(price) =~= Seq::<int>::empty());
        assert(model::prices(upto.flatten()) =~= Set::<int>::empty());
    } else {
        let m = n - 1;
        let front = levels.take(m);
        lemma_price_count(levels, side, price_of, m as nat);
        lemma_flatten_split(upto, m);
        assert(upto.take(m) =~= front);
        assert(upto.skip(m + 1) =~= Seq::<Seq<RestingOrder>>::empty());
        assert(upto.flatten() =~= front.flatten() + levels[m]);
        let before = model::prices(front.flatten());
        let after = model::prices(upto.flatten());
        let mapped = upto.flatten().map_values(price);
        let front_mapped = front.flatten().map_values(price);
        assert forall|p: int| before.contains(p) implies p != price_of(m) by {
            let i = choose|i: int| 0 <= i < front_mapped.len() && front_mapped[i] == p;
            let place = lemma_flatten_source(front, i);
            assert(front[place.0] == levels[place.0]);
            assert(levels[place.0][place.1].price == price_of(place.0));
            assert(price_of(place.0) != price_of(m));
        }
        assert forall|p: int| before.contains(p) implies after.contains(p) by {
            let i = choose|i: int| 0 <= i < front_mapped.len() && front_mapped[i] == p;
            assert(mapped[i] == p);
        }
        assert forall|p: int| after.contains(p) implies before.contains(p) || (levels[m].len() > 0
            && p == price_of(m)) by {
            let i = choose|i: int| 0 <= i < mapped.len() && mapped[i] == p;
            if i < front.flatten().len() {
                assert(front_mapped[i] == p);
            } else {
                assert(upto.flatten()[i] == levels[m][i - front.flatten().len()]);
            }
        }
        if levels[m].len() > 0 {
            assert(levels[m][0].price == price_of(m));
            assert(mapped[front.flatten().len() as int] == price_of(m));
            assert(after =~= before.insert(price_of(m)));
        } else {
            assert(after =~= before);
        }
    }
}

} // verus!
