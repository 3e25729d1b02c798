//! Queues threaded through an arena of order slots.
//!
//! Slots refer to each other by index. A queue is the sequence of indices met when following
//! `next` from its head, and the free list is one more such sequence.

use vstd::prelude::*;
use crate::half::{Lvl, NIL};
use crate::matching;
use crate::model;
use crate::model::RestingOrder;
use crate::types::Side;

verus! {

/// An order slot: the quantity that is left, and the next slot of its queue or of the free list.
#[derive(Clone, Copy)]
pub struct Slot {
    pub qty: u64,
    pub next: u32,
}

/// The first index of a queue, `NIL` if it is empty.
pub open spec fn first_or_nil(q: Seq<u32>) -> u32 {
    if q.len() == 0 {
        NIL
    } else {
        q[0]
    }
}

/// The last index of a queue, `NIL` if it is empty.
pub open spec fn last_or_nil(q: Seq<u32>) -> u32 {
    if q.len() == 0 {
        NIL
    } else {
        q[q.len() - 1]
    }
}

/// The index behind position `i` of a queue, `NIL` at its end.
pub open spec fn next_of(q: Seq<u32>, i: int) -> u32 {
    if i + 1 < q.len() {
        q[i + 1]
    } else {
        NIL
    }
}

/// Whether the slot at position `i` of a queue refers to the one behind it.
pub open spec fn linked(slots: Seq<Slot>, q: Seq<u32>, i: int) -> bool {
    slots[q[i] as int].next == next_of(q, i)
}

/// Whether following `next` from `head` visits exactly `q`.
pub open spec fn chained(slots: Seq<Slot>, head: u32, q: Seq<u32>) -> bool {
    &&& slots.len() <= u32::MAX
    &&& head == first_or_nil(q)
    &&& q.no_duplicates()
    &&& forall|i: int| 0 <= i < q.len() ==> (#[trigger] q[i]) < slots.len()
    &&& forall|i: int| 0 <= i < q.len() ==> #[trigger] linked(slots, q, i)
}

/// The orders of a queue at a price.
pub open spec fn orders_of(slots: Seq<Slot>, ids: Seq<u64>, q: Seq<u32>, price: int) -> Seq<
    RestingOrder,
> {
    Seq::new(
        q.len(),
        |i: int|
            RestingOrder {
                id: ids[q[i] as int],
                price,
                quantity: slots[q[i] as int].qty as int,
            },
    )
}

/// Whether a level describes its queue.
pub open spec fn level_ok(
    slots: Seq<Slot>,
    ids: Seq<u64>,
    lvl: Lvl,
    q: Seq<u32>,
    price: int,
) -> bool {
    &&& chained(slots, lvl.head, q)
    &&& lvl.tail == last_or_nil(q)
    &&& lvl.qty == model::total(orders_of(slots, ids, q, price))
    &&& forall|i: int| 0 <= i < q.len() ==> slots[(#[trigger] q[i]) as int].qty > 0
    &&& q.len() > 0 ==> 0 <= price <= u64::MAX
}

pub proof fn lemma_chain_pop(slots: Seq<Slot>, head: u32, q: Seq<u32>)
    requires
        chained(slots, head, q),
        q.len() > 0,
    ensures
        head < slots.len(),
        chained(slots, slots[head as int].next, q.drop_first()),
        !q.drop_first().contains(head),
{
    assert(q[0] == head);
    assert(linked(slots, q, 0));
    let rest = q.drop_first();
    assert forall|i: int| 0 <= i < rest.len() implies #[trigger] linked(slots, rest, i) by {
        assert(linked(slots, q, i + 1));
        assert(rest[i] == q[i + 1]);
    }
}

pub proof fn lemma_chain_push_front(before: Seq<Slot>, after: Seq<Slot>, head: u32, q: Seq<u32>, n: u32)
    requires
        chained(before, head, q),
        after.len() == before.len(),
        n < after.len(),
        !q.contains(n),
        after[n as int].next == head,
        forall|i: int| 0 <= i < q.len() ==> after[(#[trigger] q[i]) as int] == before[q[i] as int],
    ensures
        chained(after, n, seq![n] + q),
{
    let longer = seq![n] + q;
    assert forall|i: int| 0 <= i < longer.len() implies (#[trigger] longer[i]) < after.len() by {
        if i > 0 {
            assert(longer[i] == q[i - 1]);
        }
    }
    assert forall|i: int| 0 <= i < longer.len() implies #[trigger] linked(after, longer, i) by {
        if i > 0 {
            assert(longer[i] == q[i - 1]);
            assert(linked(before, q, i - 1));
        }
    }
    assert forall|i: int, j: int|
        0 <= i < longer.len() && 0 <= j < longer.len() && i != j implies longer[i] != longer[j] by {
        if i > 0 {
            assert(longer[i] == q[i - 1]);
        }
        if j > 0 {
            assert(longer[j] == q[j - 1]);
        }
    }
}

/// A chain visits no more slots than there are.
pub proof fn lemma_chain_len(slots: Seq<Slot>, head: u32, q: Seq<u32>)
    requires
        chained(slots, head, q),
    ensures
        q.len() <= slots.len(),
{
    let indices = q.map_values(|x: u32| x as int);
    let all = vstd::set_lib::set_int_range(0, slots.len() as int);
    vstd::set_lib::lemma_int_range(0, slots.len() as int);
    assert(indices.no_duplicates()) by {
        assert forall|i: int, j: int|
            0 <= i < indices.len() && 0 <= j < indices.len() && i != j implies indices[i]
            != indices[j] by {
            assert(q[i] != q[j]);
        }
    }
    indices.unique_seq_to_set();
    assert(indices.to_set().subset_of(all)) by {
        assert forall|x: int| indices.to_set().contains(x) implies all.contains(x) by {
            let i = choose|i: int| 0 <= i < indices.len() && indices[i] == x;
            assert(q[i] < slots.len());
        }
    }
    vstd::set_lib::lemma_len_subset(indices.to_set(), all);
}

/// A chain whose slots are untouched stays a chain.
pub proof fn lemma_chain_frame(before: Seq<Slot>, after: Seq<Slot>, head: u32, q: Seq<u32>)
    requires
        chained(before, head, q),
        before.len() <= after.len() <= u32::MAX,
        forall|i: int| 0 <= i < q.len() ==> after[(#[trigger] q[i]) as int] == before[q[i] as int],
    ensures
        chained(after, head, q),
{
    assert forall|i: int| 0 <= i < q.len() implies #[trigger] linked(after, q, i) by {
        assert(linked(before, q, i));
        assert(after[q[i] as int] == before[q[i] as int]);
    }
}

/// A level whose slots are untouched stays what it is.
pub proof fn lemma_level_frame(
    before: Seq<Slot>,
    after: Seq<Slot>,
    ids_before: Seq<u64>,
    ids_after: Seq<u64>,
    lvl: Lvl,
    q: Seq<u32>,
    price: int,
)
    requires
        level_ok(before, ids_before, lvl, q, price),
        before.len() <= after.len() <= u32::MAX,
        forall|i: int| 0 <= i < q.len() ==> after[(#[trigger] q[i]) as int] == before[q[i] as int],
        forall|i: int|
            0 <= i < q.len() ==> ids_after[(#[trigger] q[i]) as int] == ids_before[q[i] as int],
    ensures
        level_ok(after, ids_after, lvl, q, price),
        orders_of(after, ids_after, q, price) == orders_of(before, ids_before, q, price),
{
    lemma_chain_frame(before, after, lvl.head, q);
    assert(orders_of(after, ids_after, q, price) =~= orders_of(before, ids_before, q, price));
}

/// A slot appended behind the tail of a queue extends the queue.
pub proof fn lemma_level_push(
    before: Seq<Slot>,
    after: Seq<Slot>,
    ids: Seq<u64>,
    lvl: Lvl,
    lvl_after: Lvl,
    q: Seq<u32>,
    n: u32,
    price: int,
)
    requires
        level_ok(before, ids, lvl, q, price),
        after.len() == before.len(),
        n < after.len(),
        !q.contains(n),
        after[n as int].next == NIL,
        after[n as int].qty > 0,
        forall|i: int|
            0 <= i < q.len() ==> after[(#[trigger] q[i]) as int].qty == before[q[i] as int].qty,
        forall|i: int|
            0 <= i < q.len() - 1 ==> after[(#[trigger] q[i]) as int].next
                == before[q[i] as int].next,
        q.len() > 0 ==> after[q[q.len() - 1] as int].next == n,
        lvl_after.head == (if q.len() == 0 { n } else { lvl.head }),
        lvl_after.tail == n,
        lvl_after.qty == lvl.qty + after[n as int].qty,
        0 <= price <= u64::MAX,
    ensures
        level_ok(after, ids, lvl_after, q.push(n), price),
        orders_of(after, ids, q.push(n), price) == orders_of(before, ids, q, price).push(
            RestingOrder {
                id: ids[n as int],
                price,
                quantity: after[n as int].qty as int,
            },
        ),
{
    let longer = q.push(n);
    assert forall|i: int| 0 <= i < longer.len() implies (#[trigger] longer[i]) < after.len()
        && after[longer[i] as int].qty > 0 by {
        if i < q.len() {
            assert(longer[i] == q[i]);
        }
    }
    assert forall|i: int| 0 <= i < longer.len() implies #[trigger] linked(after, longer, i) by {
        if i < q.len() {
            assert(longer[i] == q[i]);
            assert(linked(before, q, i));
        }
    }
    let order = RestingOrder { id: ids[n as int], price, quantity: after[n as int].qty as int };
    assert(orders_of(after, ids, longer, price) =~= orders_of(before, ids, q, price).push(order));
    model::lemma_total_push(orders_of(before, ids, q, price), order);
}

/// What is left of a queue after a taker has worked on it.
pub struct Drained {
    /// New head of the queue.
    pub head: u32,
    /// Quantity that is left in the queue.
    pub qty: u64,
    /// New head of the free list.
    pub free: u32,
    /// Quantity that the taker still wants.
    pub taker: u64,
    /// Trades that took place.
    pub trades: u32,
    /// Slots that went to the free list.
    pub freed: u32,
}

/// The free list after the first `n` slots of a queue were put in front of it.
pub open spec fn freed_list(q: Seq<u32>, n: int, free_list: Seq<u32>) -> Seq<u32> {
    q.take(n).reverse() + free_list
}

proof fn lemma_not_freed(q: Seq<u32>, n: int, free_list: Seq<u32>)
    requires
        q.no_duplicates(),
        0 <= n < q.len(),
        forall|i: int, j: int|
            0 <= i < q.len() && 0 <= j < free_list.len() ==> #[trigger] q[i] != #[trigger] free_list[j],
    ensures
        !freed_list(q, n, free_list).contains(q[n]),
{
    let freed = freed_list(q, n, free_list);
    assert forall|i: int| 0 <= i < freed.len() implies freed[i] != q[n] by {
        if i < n {
            assert(freed[i] == q[n - 1 - i]);
        } else {
            assert(freed[i] == free_list[i - n]);
        }
    }
}

/// Moving the first slot of a queue to the front of the free list leaves two chains.
proof fn lemma_retire(
    before: Seq<Slot>,
    after: Seq<Slot>,
    head: u32,
    free: u32,
    q: Seq<u32>,
    n: int,
    free_list: Seq<u32>,
)
    requires
        q.no_duplicates(),
        0 <= n < q.len(),
        forall|i: int, j: int|
            0 <= i < q.len() && 0 <= j < free_list.len() ==> #[trigger] q[i] != #[trigger] free_list[j],
        chained(before, head, q.skip(n)),
        chained(before, free, freed_list(q, n, free_list)),
        after == before.update(head as int, Slot { qty: 0, next: free }),
    ensures
        chained(after, before[head as int].next, q.skip(n + 1)),
        chained(after, head, freed_list(q, n + 1, free_list)),
{
    let freed = freed_list(q, n, free_list);
    lemma_chain_pop(before, head, q.skip(n));
    let rest = q.skip(n + 1);
    assert(q.skip(n).drop_first() =~= rest);
    assert forall|i: int| 0 <= i < rest.len() implies after[(#[trigger] rest[i]) as int]
        == before[rest[i] as int] by {
        assert(rest.contains(rest[i]));
    }
    lemma_chain_frame(before, after, before[head as int].next, rest);
    lemma_not_freed(q, n, free_list);
    assert forall|i: int| 0 <= i < freed.len() implies after[(#[trigger] freed[i]) as int]
        == before[freed[i] as int] by {
        assert(freed.contains(freed[i]));
    }
    lemma_chain_push_front(before, after, free, freed, head);
    assert(seq![head] + freed =~= freed_list(q, n + 1, free_list));
}

/// Takes from the front of a queue until the taker has enough or the queue is empty. Slots that
/// run empty are put at the front of the free list.
pub fn drain(
    slots: &mut Vec<Slot>,
    head: u32,
    qty: u64,
    free: u32,
    taker: u64,
    Ghost(ids): Ghost<Seq<u64>>,
    Ghost(q): Ghost<Seq<u32>>,
    Ghost(free_list): Ghost<Seq<u32>>,
    Ghost(side): Ghost<Side>,
    Ghost(price): Ghost<int>,
) -> (d: Drained)
    requires
        chained(old(slots)@, head, q),
        chained(old(slots)@, free, free_list),
        forall|i: int, j: int|
            0 <= i < q.len() && 0 <= j < free_list.len() ==> #[trigger] q[i] != #[trigger] free_list[j],
        forall|i: int| 0 <= i < q.len() ==> old(slots)@[(#[trigger] q[i]) as int].qty > 0,
        qty == model::total(orders_of(old(slots)@, ids, q, price)),
    ensures
        ({
            let s = model::sweep(orders_of(old(slots)@, ids, q, price), side, price, taker as int);
            &&& d.taker == taker - s.filled
            &&& d.trades == s.trades
            &&& d.qty == model::total(s.left)
            &&& orders_of(final(slots)@, ids, q.skip(d.freed as int), price) == s.left
        }),
        d.freed <= q.len(),
        final(slots)@.len() == old(slots)@.len(),
        chained(final(slots)@, d.head, q.skip(d.freed as int)),
        chained(final(slots)@, d.free, freed_list(q, d.freed as int, free_list)),
        forall|i: int|
            d.freed <= i < q.len() ==> final(slots)@[(#[trigger] q[i]) as int].qty > 0,
        forall|x: u32|
            x < old(slots)@.len() && !q.contains(x) ==> #[trigger] final(slots)@[x as int]
                == old(slots)@[x as int],
{
    let ghost want = taker as int;
    let ghost start = model::sweep(orders_of(slots@, ids, q, price), side, price, want);
    let mut d: Drained = Drained { head, qty, free, taker, trades: 0, freed: 0 };
    let ghost mut cur = orders_of(slots@, ids, q, price);
    proof {
        lemma_chain_len(slots@, head, q);
        assert(q.skip(0) =~= q);
        assert(freed_list(q, 0, free_list) =~= free_list);
    }
    while d.taker > 0 && d.head != NIL
        invariant
            old(slots)@.len() == slots@.len(),
            q.len() <= u32::MAX,
            q.no_duplicates(),
            forall|i: int| 0 <= i < q.len() ==> (#[trigger] q[i]) < slots@.len(),
            forall|i: int, j: int|
                0 <= i < q.len() && 0 <= j < free_list.len() ==> #[trigger] q[i]
                    != #[trigger] free_list[j],
            d.freed <= q.len(),
            d.trades <= d.freed + (if d.taker == 0 { 1int } else { 0int }),
            chained(slots@, d.head, q.skip(d.freed as int)),
            chained(slots@, d.free, freed_list(q, d.freed as int, free_list)),
            forall|i: int| d.freed <= i < q.len() ==> slots@[(#[trigger] q[i]) as int].qty > 0,
            forall|x: u32|
                x < slots@.len() && !q.contains(x) ==> #[trigger] slots@[x as int]
                    == old(slots)@[x as int],
            cur == orders_of(slots@, ids, q.skip(d.freed as int), price),
            d.qty == model::total(cur),
            0 <= d.taker <= want,
            ({
                let rest = model::sweep(cur, side, price, d.taker as int);
                &&& start.left == rest.left
                &&& start.filled == want - d.taker + rest.filled
                &&& start.trades == d.trades + rest.trades
            }),
        ensures
            d.taker == 0 || d.head == NIL,
            d.freed <= q.len(),
            chained(slots@, d.head, q.skip(d.freed as int)),
            chained(slots@, d.free, freed_list(q, d.freed as int, free_list)),
        decreases d.taker, q.len() - d.freed,
    {
        let slot: Slot = slots[d.head as usize];
        proof {
            let queue = q.skip(d.freed as int);
            assert(queue[0] == q[d.freed as int]);
            assert(cur[0].quantity == slot.qty);
            assert(matching::positive(cur)) by {
                assert forall|i: int| 0 <= i < cur.len() implies (#[trigger] cur[i]).quantity
                    > 0 by {
                    assert(queue[i] == q[i + d.freed]);
                }
            }
            assert(matching::positive(cur.drop_first()));
            matching::lemma_total_nonnegative(cur.drop_first());
        }
        d.trades = d.trades + 1;
        let ghost before = slots@;
        if slot.qty <= d.taker {
            slots[d.head as usize] = Slot { qty: 0, next: d.free };
            proof {
                lemma_retire(before, slots@, d.head, d.free, q, d.freed as int, free_list);
                let rest = q.skip(d.freed + 1);
                assert forall|i: int| 0 <= i < rest.len() implies slots@[(
                #[trigger] rest[i]) as int] == before[rest[i] as int] by {
                    assert(rest[i] == q[i + d.freed + 1]);
                }
                assert forall|i: int| d.freed + 1 <= i < q.len() implies slots@[(
                #[trigger] q[i]) as int].qty > 0 by {
                    assert(q[i] != q[d.freed as int]);
                }
                assert(cur.drop_first() =~= orders_of(slots@, ids, rest, price));
                cur = cur.drop_first();
            }
            d.qty = d.qty - slot.qty;
            d.taker = d.taker - slot.qty;
            d.free = d.head;
            d.head = slot.next;
            d.freed = d.freed + 1;
        } else {
            slots[d.head as usize] = Slot { qty: slot.qty - d.taker, next: slot.next };
            proof {
                let queue = q.skip(d.freed as int);
                let freed = freed_list(q, d.freed as int, free_list);
                lemma_not_freed(q, d.freed as int, free_list);
                assert forall|i: int| 0 <= i < freed.len() implies slots@[(
                #[trigger] freed[i]) as int] == before[freed[i] as int] by {
                    assert(freed.contains(freed[i]));
                }
                lemma_chain_frame(before, slots@, d.free, freed);
                assert forall|i: int| 1 <= i < queue.len() implies #[trigger] queue[i] != d.head by {
                    assert(queue[i] == q[i + d.freed]);
                }
                assert forall|i: int| 0 <= i < queue.len() implies #[trigger] linked(
                    slots@,
                    queue,
                    i,
                ) by {
                    assert(linked(before, queue, i));
                }
                let reduced = RestingOrder { quantity: cur[0].quantity - d.taker, ..cur[0] };
                assert(cur.update(0, reduced) =~= orders_of(slots@, ids, queue, price));
                assert(cur.update(0, reduced).drop_first() =~= cur.drop_first());
                cur = cur.update(0, reduced);
            }
            d.qty = d.qty - d.taker;
            d.taker = 0;
        }
    }
    d
}

} // verus!
