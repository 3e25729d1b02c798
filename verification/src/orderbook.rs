//! The matching engine: a limit order book over a flat price band.
//!
//! Price levels lie in one array and are addressed by tick, orders lie in one arena and are
//! addressed by index. The buy side counts its ticks downwards, so on both sides the best price
//! is the lowest key and one loop serves takers of either direction.

use vstd::prelude::*;
use crate::arena;
use crate::arena::{Drained, Slot};
use crate::half;
use crate::half::{Half, Lvl, NIL};
use crate::laws;
use crate::levels;
use crate::matching;
use crate::matching_laws;
use crate::model;
use crate::model::{BookView, RestingOrder, Sweep};
use crate::types::{Order, Side};

pub use crate::model::{Fill, SubmitError, BAND, BAND_BITS};

verus! {

/// Index of the sell side, whose keys are ticks.
const ASK: usize = 0;

/// Index of the buy side, whose keys count ticks from the top of the band.
const BID: usize = 1;

/// The highest tick.
const TOP: u32 = 8191;

/// A limit order book of one instrument.
pub struct OrderBook {
    h: [Half; 2],
    arena: Vec<Slot>,
    ids: Vec<u64>,
    free_head: u32,
    /// Lowest price of the band.
    base: u64,
    /// Whether an order or the constructor has fixed the band.
    base_pinned: bool,
    resting: u32,
    /// Trades so far.
    pub trades_count: u64,
    /// Volume traded so far.
    pub matched_volume: u64,
    /// Orders refused so far.
    pub rejected: u64,
    /// The free list, from its head on.
    free: Ghost<Seq<u32>>,
    /// The level that each slot belongs to; negative for a slot that belongs to none.
    owner: Ghost<Seq<int>>,
}

/// The side whose orders rest in a half.
spec fn side_in(s: int) -> Side {
    if s == ASK {
        Side::Sell
    } else {
        Side::Buy
    }
}

/// The tick of a key.
spec fn tick(s: int, k: int) -> int {
    if s == ASK {
        k
    } else {
        TOP - k
    }
}

/// The number of a level over both halves.
spec fn code(s: int, k: int) -> int {
    s * BAND + k
}

impl View for OrderBook {
    type V = BookView;

    closed spec fn view(&self) -> BookView {
        BookView {
            bids: self.flat(BID as int),
            asks: self.flat(ASK as int),
            band: if self.base_pinned {
                Some(self.base)
            } else {
                None
            },
            trades: self.trades_count as int,
            volume: self.matched_volume as int,
            rejected: self.rejected as int,
        }
    }
}

impl OrderBook {
    /// How many order slots the book holds.
    pub closed spec fn capacity(&self) -> nat {
        self.arena@.len()
    }

    /// The book is consistent, and what it stands for is a valid book.
    pub open spec fn wf(&self) -> bool {
        self.consistent() && self@.valid()
    }

    /// The parts of the book fit together.
    pub closed spec fn consistent(&self) -> bool {
        self.shape() && self.counted()
    }

    spec fn price_at(&self, s: int, k: int) -> int {
        self.base + tick(s, k)
    }

    spec fn queue(&self, s: int, k: int) -> Seq<u32> {
        self.h@[s].queues@[k]
    }

    /// The orders at a key.
    spec fn level(&self, s: int, k: int) -> Seq<RestingOrder> {
        arena::orders_of(self.arena@, self.ids@, self.queue(s, k), self.price_at(s, k))
    }

    spec fn levels(&self, s: int) -> Seq<Seq<RestingOrder>> {
        Seq::new(BAND as nat, |k: int| self.level(s, k))
    }

    /// All orders of a half, best first.
    spec fn flat(&self, s: int) -> Seq<RestingOrder> {
        self.levels(s).flatten()
    }

    spec fn level_holds(&self, s: int, k: int) -> bool {
        &&& arena::level_ok(
            self.arena@,
            self.ids@,
            self.h@[s].lv@[k],
            self.queue(s, k),
            self.price_at(s, k),
        )
        &&& forall|i: int|
            0 <= i < self.queue(s, k).len() ==> self.owner@[(#[trigger] self.queue(s, k)[i]) as int]
                == code(s, k)
    }

    /// Levels, queues, bitmaps and free list fit together, and no slot is in two of them.
    spec fn shape(&self) -> bool {
        &&& 64 <= self.arena@.len() <= u32::MAX
        &&& self.ids@.len() == self.arena@.len()
        &&& self.owner@.len() == self.arena@.len()
        &&& self.h@[0].wf()
        &&& self.h@[1].wf()
        &&& forall|s: int, k: int| 0 <= s < 2 && 0 <= k < BAND ==> #[trigger] self.level_holds(s, k)
        &&& arena::chained(self.arena@, self.free_head, self.free@)
        &&& forall|i: int|
            0 <= i < self.free@.len() ==> self.owner@[(#[trigger] self.free@[i]) as int] == -1
        &&& self.free@.len() + self.resting == self.arena@.len()
    }

    /// What a taker of `want` does to one level.
    spec fn level_sweep(&self, s: int, k: int, want: int) -> Sweep {
        model::sweep(self.level(s, k), side_in(s).opposite(), self.price_at(s, k), want)
    }

    /// Takes liquidity from the best level of a half.
    fn take(&mut self, half: usize, key: u32, taker: u64) -> (left: u64)
        requires
            old(self).shape(),
            half < 2,
            key == old(self).h@[half as int].best,
            key != NIL,
            taker > 0,
            ({
                let s = old(self).level_sweep(half as int, key as int, taker as int);
                &&& old(self).trades_count + s.trades <= u64::MAX
                &&& old(self).matched_volume + s.filled <= u64::MAX
            }),
        ensures
            final(self).shape(),
            ({
                let s = old(self).level_sweep(half as int, key as int, taker as int);
                &&& left == taker - s.filled
                &&& final(self).trades_count == old(self).trades_count + s.trades
                &&& final(self).matched_volume == old(self).matched_volume + s.filled
                &&& final(self).levels(half as int) == old(self).levels(half as int).update(
                    key as int,
                    s.left,
                )
                &&& final(self).resting + old(self).level(half as int, key as int).len()
                    == old(self).resting + s.left.len()
            }),
            final(self).levels(1 - half) == old(self).levels(1 - half),
            final(self).arena@.len() == old(self).arena@.len(),
            final(self).base == old(self).base,
            final(self).base_pinned == old(self).base_pinned,
            final(self).rejected == old(self).rejected,
    {
        let ti: usize = key as usize;
        let ghost s = half as int;
        let ghost k = key as int;
        let ghost own = code(s, k);
        let ghost price = self.price_at(s, k);
        let ghost q0 = self.queue(s, k);
        let ghost book0 = *self;
        let ghost cur = self.level_sweep(s, k, taker as int).left;
        proof {
            assert(self.level_holds(s, k));
            assert(half::marked(self.h@[s].l1@, k));
            assert forall|i: int, j: int|
                0 <= i < q0.len() && 0 <= j < self.free@.len() implies #[trigger] q0[i]
                != #[trigger] self.free@[j] by {
                assert(self.owner@[self.queue(s, k)[i] as int] == own);
                assert(self.owner@[self.free@[j] as int] == -1);
            }
        }
        let lvl: Lvl = self.h[half].lv[ti];
        let d: Drained = arena::drain(
            &mut self.arena,
            lvl.head,
            lvl.qty,
            self.free_head,
            taker,
            Ghost(self.ids@),
            Ghost(q0),
            Ghost(self.free@),
            Ghost(side_in(s).opposite()),
            Ghost(price),
        );
        let ghost q = q0.skip(d.freed as int);
        let ghost free_list = arena::freed_list(q0, d.freed as int, self.free@);
        let ghost owner = Seq::new(
            self.owner@.len(),
            |x: int|
                if q0.take(d.freed as int).contains(x as u32) {
                    -1int
                } else {
                    self.owner@[x]
                },
        );
        proof {
            arena::lemma_chain_len(self.arena@, d.free, free_list);
            matching::lemma_sweep_bounds(
                book0.level(s, k),
                side_in(s).opposite(),
                price,
                taker as int,
            );
        }
        self.free_head = d.free;
        self.trades_count = self.trades_count + d.trades as u64;
        self.matched_volume = self.matched_volume + (taker - d.taker);
        self.resting = self.resting - d.freed;
        self.h[half].lv[ti].head = d.head;
        self.h[half].lv[ti].qty = d.qty;
        if d.head == NIL {
            self.h[half].lv[ti].tail = NIL;
            self.h[half].unmark(ti);
        }
        proof {
            self.free@ = free_list;
            self.owner@ = owner;
        }
        let ghost queues = self.h@[s].queues@.update(k, q);
        self.h[half].queues = Ghost(queues);
        proof {
            assert(q.len() > 0 ==> arena::last_or_nil(q) == arena::last_or_nil(q0));
            assert(self.level(s, k) =~= cur);
            assert forall|i: int| 0 <= i < free_list.len() implies owner[(
            #[trigger] free_list[i]) as int] == -1 by {
                if i < d.freed {
                    assert(free_list[i] == q0[d.freed - 1 - i]);
                    assert(q0.take(d.freed as int)[d.freed - 1 - i] == free_list[i]);
                } else {
                    assert(free_list[i] == book0.free@[i - d.freed]);
                }
            }
            assert forall|i: int| 0 <= i < q.len() implies owner[(#[trigger] q[i]) as int]
                == own && self.arena@[q[i] as int].qty > 0 by {
                assert(q[i] == q0[i + d.freed]);
                assert(book0.owner@[book0.queue(s, k)[i + d.freed] as int] == own);
            }
            assert forall|s2: int, k2: int|
                0 <= s2 < 2 && 0 <= k2 < BAND implies #[trigger] self.level_holds(s2, k2) && (s2 != s
                || k2 != k ==> self.level(s2, k2) == book0.level(s2, k2)) by {
                assert(book0.level_holds(s2, k2));
                if s2 != s || k2 != k {
                    let q2 = book0.queue(s2, k2);
                    assert(self.queue(s2, k2) == q2);
                    assert(code(s2, k2) != own);
                    assert forall|i: int| 0 <= i < q2.len() implies self.arena@[(
                    #[trigger] q2[i]) as int] == book0.arena@[q2[i] as int] && self.owner@[q2[i] as int]
                        == code(s2, k2) by {
                        assert(book0.owner@[book0.queue(s2, k2)[i] as int] == code(s2, k2));
                        assert forall|j: int| 0 <= j < q0.len() implies q0[j] != q2[i] by {
                            assert(book0.owner@[book0.queue(s, k)[j] as int] == own);
                        }
                    }
                    arena::lemma_level_frame(
                        book0.arena@,
                        self.arena@,
                        book0.ids@,
                        self.ids@,
                        self.h@[s2].lv@[k2],
                        q2,
                        self.price_at(s2, k2),
                    );
                }
            }
            assert forall|k2: int| 0 <= k2 < BAND implies (#[trigger] half::marked(
                self.h@[s].l1@,
                k2,
            ) <==> self.h@[s].queues@[k2].len() > 0) by {
                assert(half::marked(book0.h@[s].l1@, k2) <==> book0.h@[s].queues@[k2].len() > 0);
            }
            let o = 1 - s;
            assert forall|k2: int| 0 <= k2 < BAND implies #[trigger] self.level(o, k2)
                == book0.level(o, k2) by {
                assert(self.level_holds(o, k2));
            }
            assert forall|k2: int| 0 <= k2 < BAND && k2 != k implies #[trigger] self.level(s, k2)
                == book0.level(s, k2) by {
                assert(self.level_holds(s, k2));
            }
            assert(self.levels(s) =~= book0.levels(s).update(k, cur));
            assert(self.levels(o) =~= book0.levels(o));
        }
        d.taker
    }

    /// Whether the two books hold the same orders.
    spec fn same_orders(&self, other: &OrderBook) -> bool {
        &&& self.levels(ASK as int) == other.levels(ASK as int)
        &&& self.levels(BID as int) == other.levels(BID as int)
        &&& self.base == other.base
        &&& self.base_pinned == other.base_pinned
        &&& self.trades_count == other.trades_count
        &&& self.matched_volume == other.matched_volume
        &&& self.rejected == other.rejected
    }

    /// Levels stay what they are while only slots outside of them change.
    proof fn lemma_levels_frame(before: &OrderBook, after: &OrderBook)
        requires
            before.shape(),
            after.h == before.h,
            after.base == before.base,
            before.arena@.len() <= after.arena@.len() <= u32::MAX,
            after.ids@.len() == after.arena@.len(),
            after.owner@.len() == after.arena@.len(),
            forall|x: int|
                0 <= x < before.arena@.len() && before.owner@[x] >= 0 ==> #[trigger] after.arena@[x]
                    == before.arena@[x] && after.ids@[x] == before.ids@[x] && after.owner@[x]
                    == before.owner@[x],
        ensures
            forall|s: int, k: int|
                0 <= s < 2 && 0 <= k < BAND ==> #[trigger] after.level_holds(s, k),
            after.levels(ASK as int) == before.levels(ASK as int),
            after.levels(BID as int) == before.levels(BID as int),
    {
        assert forall|s: int, k: int| 0 <= s < 2 && 0 <= k < BAND implies #[trigger] after.level_holds(
            s,
            k,
        ) && after.level(s, k) == before.level(s, k) by {
            assert(before.level_holds(s, k));
            let q = before.queue(s, k);
            assert forall|i: int| 0 <= i < q.len() implies after.arena@[(#[trigger] q[i]) as int]
                == before.arena@[q[i] as int] && after.ids@[q[i] as int] == before.ids@[q[i] as int]
                && after.owner@[q[i] as int] == code(s, k) by {
                assert(before.owner@[before.queue(s, k)[i] as int] == code(s, k));
            }
            arena::lemma_level_frame(
                before.arena@,
                after.arena@,
                before.ids@,
                after.ids@,
                before.h@[s].lv@[k],
                q,
                before.price_at(s, k),
            );
        }
        assert forall|s: int, k: int| 0 <= s < 2 && 0 <= k < BAND implies #[trigger] after.level(
            s,
            k,
        ) == before.level(s, k) by {
            assert(after.level_holds(s, k));
        }
        assert(after.levels(ASK as int) =~= before.levels(ASK as int));
        assert(after.levels(BID as int) =~= before.levels(BID as int));
    }

    /// Doubles the arena. Indices stay valid, so no reference changes.
    fn grow(&mut self)
        requires
            old(self).shape(),
            old(self).free_head == NIL,
            2 * old(self).arena@.len() <= u32::MAX,
        ensures
            final(self).shape(),
            final(self).same_orders(old(self)),
            final(self).arena@.len() == 2 * old(self).arena@.len(),
            final(self).free_head != NIL,
            final(self).resting == old(self).resting,
            final(self).h == old(self).h,
    {
        let ghost book0 = *self;
        let old_len: usize = self.arena.len();
        let new_len: usize = old_len * 2;
        let mut i: usize = old_len;
        while i < new_len
            invariant
                old_len == book0.arena@.len(),
                new_len == 2 * old_len,
                new_len <= u32::MAX,
                old_len <= i <= new_len,
                self.arena@.len() == i,
                self.ids@.len() == i,
                book0.ids@.len() == old_len,
                forall|x: int| 0 <= x < old_len ==> #[trigger] self.arena@[x] == book0.arena@[x],
                forall|x: int| 0 <= x < old_len ==> #[trigger] self.ids@[x] == book0.ids@[x],
                forall|x: int|
                    old_len <= x < i ==> (#[trigger] self.arena@[x]).next == (if x + 1 < new_len {
                        x + 1
                    } else {
                        NIL as int
                    }),
                self.h == book0.h,
                self.free_head == book0.free_head,
                self.free == book0.free,
                self.owner == book0.owner,
                self.base == book0.base,
                self.base_pinned == book0.base_pinned,
                self.resting == book0.resting,
                self.trades_count == book0.trades_count,
                self.matched_volume == book0.matched_volume,
                self.rejected == book0.rejected,
            decreases new_len - i,
        {
            let next: u32 = if i + 1 < new_len {
                (i + 1) as u32
            } else {
                NIL
            };
            self.arena.push(Slot { qty: 0, next });
            self.ids.push(0);
            i = i + 1;
        }
        self.free_head = old_len as u32;
        let ghost fresh = Seq::new(old_len as nat, |j: int| (old_len + j) as u32);
        proof {
            self.free@ = fresh;
            self.owner@ = book0.owner@ + Seq::new(old_len as nat, |j: int| -1int);
            assert forall|j: int| 0 <= j < fresh.len() implies #[trigger] arena::linked(
                self.arena@,
                fresh,
                j,
            ) by {
                assert(self.arena@[old_len + j].next == (if old_len + j + 1 < new_len {
                    old_len + j + 1
                } else {
                    NIL as int
                }));
            }
            OrderBook::lemma_levels_frame(&book0, self);
        }
    }

    /// Takes a slot from the free list for an order. The slot is in no queue yet.
    fn alloc_slot(&mut self, id: u64, qty: u64) -> (node: u32)
        requires
            old(self).shape(),
            qty > 0,
            old(self).resting < old(self).arena@.len() || 2 * old(self).arena@.len() <= u32::MAX,
        ensures
            final(self).shape(),
            final(self).same_orders(old(self)),
            final(self).h == old(self).h,
            final(self).arena@.len() == (if old(self).resting < old(self).arena@.len() {
                old(self).arena@.len()
            } else {
                2 * old(self).arena@.len()
            }),
            final(self).resting == old(self).resting + 1,
            node < final(self).arena@.len(),
            final(self).owner@[node as int] == -2,
            final(self).arena@[node as int] == (Slot { qty, next: NIL }),
            final(self).ids@[node as int] == id,
    {
        if self.free_head == NIL {
            proof {
                assert(self.free@.len() == 0);
            }
            self.grow();
        }
        let ghost book0 = *self;
        let idx: u32 = self.free_head;
        proof {
            assert(self.free@.len() > 0);
            arena::lemma_chain_pop(self.arena@, idx, self.free@);
            assert(self.owner@[self.free@[0] as int] == -1);
        }
        self.free_head = self.arena[idx as usize].next;
        self.arena[idx as usize] = Slot { qty, next: NIL };
        self.ids[idx as usize] = id;
        self.resting = self.resting + 1;
        proof {
            let rest = self.free@.drop_first();
            self.free@ = rest;
            self.owner@ = self.owner@.update(idx as int, -2);
            assert forall|i: int| 0 <= i < rest.len() implies self.arena@[(
            #[trigger] rest[i]) as int] == book0.arena@[rest[i] as int] && self.owner@[rest[i] as int]
                == -1 by {
                assert(rest.contains(rest[i]));
                assert(rest[i] == book0.free@[i + 1]);
            }
            arena::lemma_chain_frame(book0.arena@, self.arena@, self.free_head, rest);
            OrderBook::lemma_levels_frame(&book0, self);
        }
        idx
    }

    /// Appends a slot to the queue at a key.
    fn rest(&mut self, half: usize, key: u32, node: u32, qty: u64)
        requires
            old(self).shape(),
            half < 2,
            key < BAND,
            node < old(self).arena@.len(),
            old(self).owner@[node as int] == -2,
            old(self).arena@[node as int] == (Slot { qty, next: NIL }),
            qty > 0,
            model::total(old(self).level(half as int, key as int)) + qty <= u64::MAX,
            old(self).price_at(half as int, key as int) <= u64::MAX,
        ensures
            final(self).shape(),
            final(self).levels(half as int) == old(self).levels(half as int).update(
                key as int,
                old(self).level(half as int, key as int).push(
                    RestingOrder {
                        id: old(self).ids@[node as int],
                        price: old(self).price_at(half as int, key as int),
                        quantity: qty as int,
                    },
                ),
            ),
            final(self).levels(1 - half) == old(self).levels(1 - half),
            final(self).arena@.len() == old(self).arena@.len(),
            final(self).resting == old(self).resting,
            final(self).base == old(self).base,
            final(self).base_pinned == old(self).base_pinned,
            final(self).trades_count == old(self).trades_count,
            final(self).matched_volume == old(self).matched_volume,
            final(self).rejected == old(self).rejected,
    {
        let t: usize = key as usize;
        let ghost s = half as int;
        let ghost k = key as int;
        let ghost book0 = *self;
        let ghost q = self.queue(s, k);
        proof {
            assert(self.level_holds(s, k));
            assert forall|i: int| 0 <= i < q.len() implies #[trigger] q[i] != node by {
                assert(self.owner@[self.queue(s, k)[i] as int] == code(s, k));
            }
        }
        let tail: u32 = self.h[half].lv[t].tail;
        self.h[half].lv[t].tail = node;
        self.h[half].lv[t].qty = self.h[half].lv[t].qty + qty;
        if tail == NIL {
            self.h[half].lv[t].head = node;
            self.h[half].mark(t);
        } else {
            let slot: Slot = self.arena[tail as usize];
            self.arena[tail as usize] = Slot { qty: slot.qty, next: node };
        }
        let ghost queues = self.h@[s].queues@.update(k, q.push(node));
        self.h[half].queues = Ghost(queues);
        proof {
            self.owner@ = self.owner@.update(node as int, code(s, k));
            arena::lemma_level_push(
                book0.arena@,
                self.arena@,
                self.ids@,
                book0.h@[s].lv@[k],
                self.h@[s].lv@[k],
                q,
                node,
                self.price_at(s, k),
            );
            assert forall|s2: int, k2: int|
                0 <= s2 < 2 && 0 <= k2 < BAND implies #[trigger] self.level_holds(s2, k2) && (s2 != s
                || k2 != k ==> self.level(s2, k2) == book0.level(s2, k2)) by {
                assert(book0.level_holds(s2, k2));
                let q2 = book0.queue(s2, k2);
                if s2 != s || k2 != k {
                    assert(code(s2, k2) != code(s, k));
                    assert forall|i: int| 0 <= i < q2.len() implies self.arena@[(
                    #[trigger] q2[i]) as int] == book0.arena@[q2[i] as int] && self.owner@[q2[i] as int]
                        == code(s2, k2) by {
                        assert(book0.owner@[book0.queue(s2, k2)[i] as int] == code(s2, k2));
                        if q.len() > 0 {
                            assert(book0.owner@[book0.queue(s, k)[q.len() - 1] as int] == code(
                                s,
                                k,
                            ));
                        }
                    }
                    arena::lemma_level_frame(
                        book0.arena@,
                        self.arena@,
                        book0.ids@,
                        self.ids@,
                        self.h@[s2].lv@[k2],
                        q2,
                        self.price_at(s2, k2),
                    );
                } else {
                    assert forall|i: int| 0 <= i < self.queue(s, k).len() implies self.owner@[(
                    #[trigger] self.queue(s, k)[i]) as int] == code(s, k) by {
                        if i < q.len() {
                            assert(book0.owner@[book0.queue(s, k)[i] as int] == code(s, k));
                        }
                    }
                }
            }
            assert forall|k2: int| 0 <= k2 < BAND implies (#[trigger] half::marked(
                self.h@[s].l1@,
                k2,
            ) <==> self.h@[s].queues@[k2].len() > 0) by {
                assert(half::marked(book0.h@[s].l1@, k2) <==> book0.h@[s].queues@[k2].len() > 0);
            }
            let o = 1 - s;
            assert forall|k2: int| 0 <= k2 < BAND implies #[trigger] self.level(o, k2)
                == book0.level(o, k2) by {
                assert(self.level_holds(o, k2));
            }
            assert forall|k2: int| 0 <= k2 < BAND && k2 != k implies #[trigger] self.level(s, k2)
                == book0.level(s, k2) by {
                assert(self.level_holds(s, k2));
            }
            assert(self.levels(s) =~= book0.levels(s).update(k, self.level(s, k)));
            assert(self.levels(o) =~= book0.levels(o));
            let fl = self.free@;
            assert forall|i: int| 0 <= i < fl.len() implies self.arena@[(#[trigger] fl[i]) as int]
                == book0.arena@[fl[i] as int] && self.owner@[fl[i] as int] == -1 by {
                assert(book0.owner@[book0.free@[i] as int] == -1);
                if q.len() > 0 {
                    assert(book0.owner@[book0.queue(s, k)[q.len() - 1] as int] == code(s, k));
                }
            }
            arena::lemma_chain_frame(book0.arena@, self.arena@, self.free_head, fl);
        }
    }

    spec fn counted(&self) -> bool {
        self.resting == self.flat(ASK as int).len() + self.flat(BID as int).len()
    }

    spec fn prices_of(&self, s: int) -> spec_fn(int) -> int {
        |k: int| self.price_at(s, k)
    }

    /// A level holds orders at its price only, and prices get worse from key to key.
    proof fn lemma_graded(&self, s: int)
        requires
            0 <= s < 2,
        ensures
            levels::graded(self.levels(s), side_in(s), self.prices_of(s)),
    {
    }

    /// The first level in use comes first among the orders of a half.
    proof fn lemma_best_first(&self, s: int)
        requires
            self.shape(),
            0 <= s < 2,
        ensures
            self.h@[s].best == NIL ==> self.flat(s) == Seq::<RestingOrder>::empty(),
            self.h@[s].best != NIL ==> {
                let k = self.h@[s].best as int;
                &&& 0 <= k < BAND
                &&& self.level(s, k).len() > 0
                &&& self.levels(s).take(k).flatten() == Seq::<RestingOrder>::empty()
                &&& self.flat(s) == self.level(s, k) + self.levels(s).skip(k + 1).flatten()
            },
    {
        let half = self.h@[s];
        let ls = self.levels(s);
        assert(half.wf());
        if half.best == NIL {
            assert forall|k: int| 0 <= k < ls.len() implies (#[trigger] ls[k]).len() == 0 by {
                assert(!half::marked(half.l1@, k));
            }
            levels::lemma_flatten_empty(ls);
        } else {
            let k = half.best as int;
            assert(half::marked(half.l1@, k));
            let front = ls.take(k);
            assert forall|j: int| 0 <= j < front.len() implies (#[trigger] front[j]).len() == 0 by {
                assert(!half::marked(half.l1@, j));
                assert(front[j] == self.level(s, j));
            }
            levels::lemma_flatten_empty(front);
            levels::lemma_flatten_split(ls, k);
            assert(self.flat(s) =~= self.level(s, k) + ls.skip(k + 1).flatten());
        }
    }

    proof fn lemma_positive(&self, s: int)
        requires
            self.shape(),
            0 <= s < 2,
        ensures
            matching::positive(self.flat(s)),
            forall|k: int| 0 <= k < BAND ==> matching::positive(#[trigger] self.level(s, k)),
    {
        assert forall|k: int| 0 <= k < BAND implies matching::positive(
            #[trigger] self.level(s, k),
        ) by {
            assert(self.level_holds(s, k));
            assert forall|i: int| 0 <= i < self.level(s, k).len() implies (
            #[trigger] self.level(s, k)[i]).quantity > 0 by {
                assert(self.arena@[self.queue(s, k)[i] as int].qty > 0);
            }
        }
        let all = self.flat(s);
        assert forall|i: int| 0 <= i < all.len() implies (#[trigger] all[i]).quantity > 0 by {
            let place = levels::lemma_flatten_source(self.levels(s), i);
            assert(matching::positive(self.level(s, place.0)));
            assert(self.levels(s)[place.0][place.1] == self.level(s, place.0)[place.1]);
        }
    }

    /// Takes from one half, best level first, until the taker has enough or prices no longer
    /// cross.
    fn match_against(&mut self, consume: usize, ckey: u32, quantity: u64) -> (left: u64)
        requires
            old(self).shape(),
            old(self).counted(),
            consume < 2,
            ckey < BAND,
            ({
                let s = consume as int;
                let taken = model::sweep(
                    old(self).flat(s),
                    side_in(s).opposite(),
                    old(self).price_at(s, ckey as int),
                    quantity as int,
                );
                &&& old(self).trades_count + taken.trades <= u64::MAX
                &&& old(self).matched_volume + taken.filled <= u64::MAX
            }),
        ensures
            final(self).shape(),
            final(self).counted(),
            ({
                let s = consume as int;
                let taken = model::sweep(
                    old(self).flat(s),
                    side_in(s).opposite(),
                    old(self).price_at(s, ckey as int),
                    quantity as int,
                );
                &&& final(self).flat(s) == taken.left
                &&& left == quantity - taken.filled
                &&& final(self).trades_count == old(self).trades_count + taken.trades
                &&& final(self).matched_volume == old(self).matched_volume + taken.filled
            }),
            final(self).levels(1 - consume) == old(self).levels(1 - consume),
            final(self).arena@.len() == old(self).arena@.len(),
            final(self).base == old(self).base,
            final(self).base_pinned == old(self).base_pinned,
            final(self).rejected == old(self).rejected,
    {
        let mut qty: u64 = quantity;
        let ghost book0 = *self;
        let ghost c = consume as int;
        let ghost r = 1 - c;
        let ghost side = side_in(c).opposite();
        let ghost limit = self.price_at(c, ckey as int);
        let ghost taken = model::sweep(self.flat(c), side, limit, quantity as int);
        proof {
            self.lemma_positive(c);
            matching::lemma_sweep_bounds(self.flat(c), side, limit, quantity as int);
        }
        loop
            invariant
                self.shape(),
                self.counted(),
                side == side_in(c).opposite(),
                consume == c,
                c == ASK || c == BID,
                r == 1 - c,
                ckey < BAND,
                limit == self.price_at(c, ckey as int),
                self.base == book0.base,
                self.base_pinned == book0.base_pinned,
                self.rejected == book0.rejected,
                self.levels(r) == book0.levels(r),
                self.arena@.len() == book0.arena@.len(),
                qty <= quantity,
                book0.trades_count + taken.trades <= u64::MAX,
                book0.matched_volume + taken.filled <= u64::MAX,
                0 <= taken.filled <= quantity,
                ({
                    let s = model::sweep(self.flat(c), side, limit, qty as int);
                    &&& taken.left == s.left
                    &&& taken.filled == quantity - qty + s.filled
                    &&& taken.trades == self.trades_count - book0.trades_count + s.trades
                    &&& self.matched_volume == book0.matched_volume + quantity - qty
                }),
            ensures
                self.flat(c) == taken.left,
                taken.filled == quantity - qty,
                taken.trades == self.trades_count - book0.trades_count,
            decreases self.flat(c).len() + (if qty > 0 { 1int } else { 0int }),
        {
            let best: u32 = self.h[consume].best;
            proof {
                self.lemma_best_first(c);
                self.lemma_positive(c);
            }
            // `NIL` exceeds every key, so an empty side ends the loop too.
            if qty == 0 || best > ckey {
                break ;
            }
            let ghost k = best as int;
            let ghost level = self.level(c, k);
            let ghost back = self.levels(c).skip(k + 1).flatten();
            let ghost before = *self;
            proof {
                assert(matching::all_cross(level, side, limit));
                assert(matching::all_cross(level, side, self.price_at(c, k)));
                matching::lemma_sweep_limit(level, side, limit, self.price_at(c, k), qty as int);
                matching::lemma_sweep_concat(level, back, side, limit, qty as int);
                matching::lemma_sweep_bounds(level, side, limit, qty as int);
                let f = model::sweep(level, side, limit, qty as int);
                self.lemma_back_positive(c, k);
                matching::lemma_sweep_bounds(back, side, limit, qty - f.filled);
            }
            qty = self.take(consume, best, qty);
            proof {
                levels::lemma_flatten_update(before.levels(c), k, self.levels(c)[k]);
                assert(before.levels(c).take(k).flatten() =~= Seq::<RestingOrder>::empty());
                assert(self.flat(c) =~= self.levels(c)[k] + back);
                if self.levels(c)[k].len() == 0 {
                    assert(self.flat(c) =~= back);
                }
                assert(self.flat(r) == before.flat(r));
            }
        }
        qty
    }

    /// Queues an order that found no counterpart.
    fn queue_order(&mut self, rest_at: usize, rkey: u32, id: u64, qty: u64)
        requires
            old(self).shape(),
            old(self).counted(),
            rest_at < 2,
            rkey < BAND,
            qty > 0,
            old(self).price_at(rest_at as int, rkey as int) <= u64::MAX,
            model::total(
                model::at_price(
                    old(self).flat(rest_at as int),
                    old(self).price_at(rest_at as int, rkey as int),
                ),
            ) + qty <= u64::MAX,
            old(self).resting < old(self).arena@.len() || 2 * old(self).arena@.len() <= u32::MAX,
        ensures
            final(self).shape(),
            final(self).counted(),
            final(self).flat(rest_at as int) == model::enqueue(
                old(self).flat(rest_at as int),
                side_in(rest_at as int),
                RestingOrder {
                    id,
                    price: old(self).price_at(rest_at as int, rkey as int),
                    quantity: qty as int,
                },
            ),
            final(self).flat(1 - rest_at) == old(self).flat(1 - rest_at),
            final(self).arena@.len() == (if old(self).resting < old(self).arena@.len() {
                old(self).arena@.len()
            } else {
                2 * old(self).arena@.len()
            }),
            final(self).base == old(self).base,
            final(self).base_pinned == old(self).base_pinned,
            final(self).trades_count == old(self).trades_count,
            final(self).matched_volume == old(self).matched_volume,
            final(self).rejected == old(self).rejected,
    {
        let ghost r = rest_at as int;
        let ghost k = rkey as int;
        let ghost c = 1 - r;
        let ghost book0 = *self;
        let ghost order = RestingOrder { id, price: self.price_at(r, k), quantity: qty as int };
        proof {
            self.lemma_level_at_price(r, k);
            self.lemma_enqueued(r, k, order);
        }
        let node: u32 = self.alloc_slot(id, qty);
        proof {
            assert(self.levels(c) == book0.levels(c));
            assert(self.levels(r) == book0.levels(r));
            assert(self.levels(r)[k] == self.level(r, k));
        }
        self.rest(rest_at, rkey, node, qty);
        proof {
            assert(self.flat(r) == book0.levels(r).update(
                k,
                book0.level(r, k).push(order),
            ).flatten());
            assert(self.flat(c) == book0.flat(c));
        }
    }

    /// The orders at the price of a key are those of its level.
    proof fn lemma_level_at_price(&self, s: int, k: int)
        requires
            0 <= s < 2,
            0 <= k < BAND,
        ensures
            model::at_price(self.flat(s), self.price_at(s, k)) == self.level(s, k),
    {
        self.lemma_graded(s);
        levels::lemma_at_price(self.levels(s), side_in(s), self.prices_of(s), k);
    }

    /// Queueing an order adds it to the level of its price.
    proof fn lemma_enqueued(&self, s: int, k: int, order: RestingOrder)
        requires
            0 <= s < 2,
            0 <= k < BAND,
            order.price == self.price_at(s, k),
        ensures
            model::enqueue(self.flat(s), side_in(s), order) == self.levels(s).update(
                k,
                self.level(s, k).push(order),
            ).flatten(),
            model::enqueue(self.flat(s), side_in(s), order).len() == self.flat(s).len() + 1,
    {
        self.lemma_graded(s);
        levels::lemma_enqueue(self.levels(s), side_in(s), self.prices_of(s), k, order);
        levels::lemma_flatten_split(self.levels(s), k);
        levels::lemma_flatten_update(self.levels(s), k, self.level(s, k).push(order));
    }

    /// Matches an order whose price lies in the band, and queues what is left of it.
    fn execute(&mut self, id: u64, tick: u32, quantity: u64, side: Side) -> (fill: Fill)
        requires
            old(self).shape(),
            old(self).counted(),
            old(self).base_pinned,
            tick < BAND,
            old(self).base + tick <= u64::MAX,
            quantity > 0,
            ({
                let b = old(self)@;
                let price = (old(self).base + tick) as u64;
                let taken = b.taken(price, quantity, side);
                let remainder = quantity - taken.filled;
                &&& b.trades + taken.trades <= u64::MAX
                &&& b.volume + taken.filled <= u64::MAX
                &&& remainder > 0 ==> {
                    &&& model::total(model::at_price(b.side(side), price as int)) + remainder
                        <= u64::MAX
                    &&& b.side(side).len() + taken.left.len() < old(self).capacity() || 2
                        * old(self).capacity() <= u32::MAX
                }
            }),
        ensures
            final(self).shape(),
            final(self).counted(),
            final(self).base == old(self).base,
            final(self).base_pinned,
            ({
                let b = old(self)@;
                let price = (old(self).base + tick) as u64;
                let taken = b.taken(price, quantity, side);
                &&& final(self)@ == (BookView {
                    trades: b.trades + taken.trades,
                    volume: b.volume + taken.filled,
                    ..b.with_sides(side, b.own_side_after(id, price, quantity, side), taken.left)
                })
                &&& fill.trades == taken.trades
                &&& fill.filled == taken.filled
                &&& fill.resting == quantity - taken.filled
                &&& final(self).capacity() == (if fill.resting > 0 && b.side(side).len()
                    + taken.left.len() >= old(self).capacity() {
                    2 * old(self).capacity()
                } else {
                    old(self).capacity()
                })
            }),
    {
        // A buyer takes from the sell side and rests on the buy side, a seller the other way round.
        let (consume, rest_at) = match side {
            Side::Buy => (ASK, BID),
            Side::Sell => (BID, ASK),
        };
        let ckey: u32 = if consume == BID {
            TOP - tick
        } else {
            tick
        };
        let rkey: u32 = if rest_at == BID {
            TOP - tick
        } else {
            tick
        };
        let start_trades: u64 = self.trades_count;
        let ghost book0 = *self;
        proof {
            self.lemma_positive(consume as int);
            matching::lemma_sweep_bounds(
                self.flat(consume as int),
                side,
                self.base + tick,
                quantity as int,
            );
            assert(self.price_at(consume as int, ckey as int) == self.base + tick);
            assert(self.price_at(rest_at as int, rkey as int) == self.base + tick);
        }
        let qty: u64 = self.match_against(consume, ckey, quantity);
        proof {
            assert(self.flat(rest_at as int) == book0.flat(rest_at as int));
        }
        if qty > 0 {
            self.queue_order(rest_at, rkey, id, qty);
        }
        Fill {
            trades: (self.trades_count - start_trades) as u32,
            filled: quantity - qty,
            resting: qty,
        }
    }

    proof fn lemma_back_positive(&self, s: int, k: int)
        requires
            self.shape(),
            0 <= s < 2,
            0 <= k < BAND,
        ensures
            matching::positive(self.levels(s).skip(k + 1).flatten()),
    {
        let back = self.levels(s).skip(k + 1);
        self.lemma_positive(s);
        assert forall|i: int| 0 <= i < back.flatten().len() implies (
        #[trigger] back.flatten()[i]).quantity > 0 by {
            let place = levels::lemma_flatten_source(back, i);
            assert(back[place.0] == self.level(s, place.0 + k + 1));
            assert(matching::positive(self.level(s, place.0 + k + 1)));
        }
    }

    /// An empty book has empty levels only, so its band can lie anywhere.
    proof fn lemma_band_moves(before: &OrderBook, after: &OrderBook)
        requires
            before.shape(),
            before.counted(),
            before.resting == 0,
            after.h == before.h,
            after.arena == before.arena,
            after.ids == before.ids,
            after.owner == before.owner,
            after.free == before.free,
            after.free_head == before.free_head,
            after.resting == before.resting,
        ensures
            after.shape(),
            after.counted(),
            after.flat(ASK as int) == before.flat(ASK as int),
            after.flat(BID as int) == before.flat(BID as int),
    {
        assert forall|s: int, k: int| 0 <= s < 2 && 0 <= k < BAND implies #[trigger] before.queue(
            s,
            k,
        ).len() == 0 by {
            levels::lemma_flatten_split(before.levels(s), k);
            assert(before.levels(s)[k] == before.level(s, k));
        }
        assert forall|s: int, k: int| 0 <= s < 2 && 0 <= k < BAND implies #[trigger] after.level_holds(
            s,
            k,
        ) by {
            assert(before.level_holds(s, k));
            assert(before.queue(s, k).len() == 0);
            assert(after.queue(s, k) == before.queue(s, k));
            assert(after.level(s, k) =~= before.level(s, k));
        }
        assert forall|s: int| 0 <= s < 2 implies #[trigger] after.flat(s) == before.flat(s) by {
            assert forall|k: int| 0 <= k < BAND implies #[trigger] after.levels(s)[k]
                == before.levels(s)[k] by {
                assert(before.queue(s, k).len() == 0);
                assert(after.queue(s, k) == before.queue(s, k));
                assert(after.level(s, k) =~= before.level(s, k));
            }
            assert(after.levels(s) =~= before.levels(s));
        }
    }

    /// The tick of a price in the band.
    fn tick_of(&self, price: u64) -> (t: Option<u32>)
        ensures
            match t {
                Some(t) => t < BAND && price == self.base + t,
                None => !model::in_band(self.base as int, price as int),
            },
    {
        if price >= self.base && price - self.base < BAND as u64 {
            Some((price - self.base) as u32)
        } else {
            None
        }
    }

    /// Centres the band around a price. A band with orders in it stays where it is.
    fn rebase(&mut self, price: u64) -> (moved: bool)
        requires
            old(self).wf(),
        ensures
            final(self).shape(),
            final(self).counted(),
            final(self).arena@.len() == old(self).arena@.len(),
            moved <==> old(self).resting == 0,
            !moved ==> *final(self) == *old(self),
            moved ==> {
                &&& final(self).base == model::centred(price)
                &&& final(self)@ == (BookView { band: Some(model::centred(price)), ..old(self)@ })
            },
    {
        if self.resting != 0 {
            return false;
        }
        let ghost book0 = *self;
        let half_band: u64 = BAND as u64 / 2;
        self.base = if price < half_band {
            0
        } else {
            price - half_band
        };
        self.base_pinned = true;
        proof {
            OrderBook::lemma_band_moves(&book0, self);
        }
        true
    }

    /// Counts a refusal.
    fn reject(&mut self, e: SubmitError) -> (out: SubmitError)
        requires
            old(self).wf(),
            old(self).rejected < u64::MAX,
        ensures
            out == e,
            final(self).wf(),
            final(self).capacity() == old(self).capacity(),
            final(self)@ == (BookView { rejected: old(self)@.rejected + 1, ..old(self)@ }),
    {
        let ghost book0 = *self;
        self.rejected = self.rejected + 1;
        proof {
            OrderBook::lemma_levels_frame(&book0, self);
        }
        e
    }

    /// Submits an order.
    ///
    /// It trades with the orders of the other side whose price crosses its own, best price first
    /// and at one price the oldest first. What is left of it rests in the book.
    pub fn submit(&mut self, id: u64, price: u64, quantity: u64, side: Side) -> (result: Result<
        Fill,
        SubmitError,
    >)
        requires
            old(self).wf(),
            old(self)@.fits(old(self).capacity() as int, price, quantity, side),
        ensures
            final(self).wf(),
            final(self)@ == old(self)@.submit(id, price, quantity, side),
            old(self)@.answers(price, quantity, side, result),
            final(self).capacity() == old(self)@.capacity_after(
                old(self).capacity() as int,
                price,
                quantity,
                side,
            ),
    {
        proof {
            laws::law_submit_keeps_book_valid(self@, id, price, quantity, side);
        }
        if quantity == 0 {
            return Err(self.reject(SubmitError::ZeroQuantity));
        }
        let found: Option<u32> = if self.base_pinned {
            self.tick_of(price)
        } else {
            None
        };
        let tick: u32 = match found {
            Some(t) => t,
            None => {
                if !self.rebase(price) {
                    return Err(self.reject(SubmitError::PriceOutOfBand));
                }
                (price - self.base) as u32
            },
        };
        Ok(self.execute(id, tick, quantity, side))
    }

    /// Submits an order and drops the answer.
    pub fn process_order(&mut self, order: Order)
        requires
            old(self).wf(),
            old(self)@.fits(
                old(self).capacity() as int,
                order.price,
                order.quantity,
                order.side,
            ),
        ensures
            final(self).wf(),
            final(self)@ == old(self)@.submit(order.id, order.price, order.quantity, order.side),
            final(self).capacity() == old(self)@.capacity_after(
                old(self).capacity() as int,
                order.price,
                order.quantity,
                order.side,
            ),
    {
        let _ = self.submit(order.id, order.price, order.quantity, order.side);
    }

    /// A free list over all slots is in place and every level is empty.
    proof fn lemma_empty_book(&self)
        requires
            64 <= self.arena@.len() <= u32::MAX,
            self.ids@.len() == self.arena@.len(),
            self.owner@ == Seq::new(self.arena@.len(), |x: int| -1int),
            self.free@ == Seq::new(self.arena@.len(), |x: int| x as u32),
            self.free_head == 0,
            self.resting == 0,
            forall|x: int|
                0 <= x < self.arena@.len() ==> (#[trigger] self.arena@[x]).next == (if x + 1
                    < self.arena@.len() {
                    x + 1
                } else {
                    NIL as int
                }),
            forall|s: int|
                0 <= s < 2 ==> {
                    &&& (#[trigger] self.h@[s]).wf()
                    &&& self.h@[s].lv@ == Seq::new(BAND as nat, |k: int| half::empty_level())
                    &&& self.h@[s].queues@ == Seq::new(BAND as nat, |k: int| Seq::<u32>::empty())
                },
        ensures
            self.shape(),
            self.counted(),
            self.flat(ASK as int) == Seq::<RestingOrder>::empty(),
            self.flat(BID as int) == Seq::<RestingOrder>::empty(),
    {
        assert(self.h@[0].wf() && self.h@[1].wf());
        assert forall|s: int, k: int| 0 <= s < 2 && 0 <= k < BAND implies #[trigger] self.level_holds(
            s,
            k,
        ) && self.level(s, k).len() == 0 by {
            assert(self.h@[s].wf());
            assert(self.queue(s, k) == Seq::<u32>::empty());
            assert(self.h@[s].lv@[k] == half::empty_level());
        }
        assert forall|j: int| 0 <= j < self.free@.len() implies #[trigger] arena::linked(
            self.arena@,
            self.free@,
            j,
        ) by {
            assert(self.arena@[j].next == (if j + 1 < self.arena@.len() {
                j + 1
            } else {
                NIL as int
            }));
        }
        assert forall|s: int| 0 <= s < 2 implies #[trigger] self.flat(s) == Seq::<
            RestingOrder,
        >::empty() by {
            assert forall|k: int| 0 <= k < BAND implies (#[trigger] self.levels(s)[k]).len()
                == 0 by {
                assert(self.level_holds(s, k));
            }
            levels::lemma_flatten_empty(self.levels(s));
        }
    }

    /// A book whose band is centred around `base_price`; if that is zero, around the price of the
    /// first order.
    pub fn new(capacity: usize, base_price: u64) -> (book: OrderBook)
        requires
            capacity <= u32::MAX,
        ensures
            book.wf(),
            book.capacity() == (if capacity < 64 {
                64
            } else {
                capacity as int
            }),
            book@ == BookView::empty(
                if base_price == 0 {
                    None
                } else {
                    Some(model::centred(base_price))
                },
            ),
            base_price >= 4096 ==> book@.band == Some((base_price - 4096) as u64),
            0 < base_price < 4096 ==> book@.band == Some(0u64),
    {
        let cap: usize = if capacity < 64 {
            64
        } else {
            capacity
        };
        let mut slots: Vec<Slot> = Vec::with_capacity(cap);
        let mut ids: Vec<u64> = Vec::with_capacity(cap);
        let mut i: usize = 0;
        while i < cap
            invariant
                i <= cap,
                64 <= cap <= u32::MAX,
                slots@.len() == i,
                ids@.len() == i,
                forall|x: int|
                    0 <= x < i ==> (#[trigger] slots@[x]).next == (if x + 1 < cap {
                        x + 1
                    } else {
                        NIL as int
                    }),
            decreases cap - i,
        {
            let next: u32 = if i + 1 < cap {
                (i + 1) as u32
            } else {
                NIL
            };
            slots.push(Slot { qty: 0, next });
            ids.push(0);
            i = i + 1;
        }
        let half_band: u64 = BAND as u64 / 2;
        let base: u64 = if base_price < half_band {
            0
        } else {
            base_price - half_band
        };
        let book = OrderBook {
            h: [Half::new(), Half::new()],
            arena: slots,
            ids,
            free_head: 0,
            base,
            base_pinned: base_price != 0,
            resting: 0,
            trades_count: 0,
            matched_volume: 0,
            rejected: 0,
            free: Ghost(Seq::new(cap as nat, |x: int| x as u32)),
            owner: Ghost(Seq::new(cap as nat, |x: int| -1int)),
        };
        proof {
            book.lemma_empty_book();
        }
        book
    }

    /// A book whose band is centred around the price of the first order.
    pub fn with_capacity(capacity: usize) -> (book: OrderBook)
        requires
            capacity <= u32::MAX,
        ensures
            book.wf(),
            book.capacity() == (if capacity < 64 {
                64
            } else {
                capacity as int
            }),
            book@ == BookView::empty(None),
    {
        OrderBook::new(capacity, 0)
    }

    /// Empties the book and forgets its history and its band. No memory is given back or taken.
    pub fn reset(&mut self)
        requires
            old(self).wf(),
        ensures
            final(self).wf(),
            final(self).capacity() == old(self).capacity(),
            final(self)@ == BookView::empty(None),
    {
        proof {
            assert forall|s: int, k: int|
                0 <= s < 2 && 0 <= k < BAND && !half::marked(
                    self.h@[s].l1@,
                    k,
                ) implies #[trigger] self.h@[s].lv@[k] == half::empty_level() by {
                assert(self.h@[s].wf());
                assert(self.level_holds(s, k));
                assert(self.queue(s, k).len() == 0);
                assert(self.level(s, k) =~= Seq::<RestingOrder>::empty());
            }
        }
        self.h[0].clear();
        self.h[1].clear();
        let n: usize = self.arena.len();
        let mut i: usize = 0;
        let ghost halves = self.h;
        while i < n
            invariant
                i <= n,
                64 <= n <= u32::MAX,
                self.arena@.len() == n,
                self.ids@.len() == n,
                self.h == halves,
                forall|x: int|
                    0 <= x < i ==> (#[trigger] self.arena@[x]).next == (if x + 1 < n {
                        x + 1
                    } else {
                        NIL as int
                    }),
            decreases n - i,
        {
            let next: u32 = if i + 1 < n {
                (i + 1) as u32
            } else {
                NIL
            };
            self.arena[i] = Slot { qty: 0, next };
            i = i + 1;
        }
        self.free_head = 0;
        self.resting = 0;
        self.base_pinned = false;
        self.trades_count = 0;
        self.matched_volume = 0;
        self.rejected = 0;
        proof {
            self.free@ = Seq::new(n as nat, |x: int| x as u32);
            self.owner@ = Seq::new(n as nat, |x: int| -1int);
            self.lemma_empty_book();
        }
    }

    /// The price of a tick.
    fn price_of(&self, tick: u32) -> (price: u64)
        requires
            self.base + tick <= u64::MAX,
        ensures
            price == self.base + tick,
    {
        self.base + tick as u64
    }

    /// The price of the first order of a half.
    proof fn lemma_best_price(&self, s: int)
        requires
            self.shape(),
            0 <= s < 2,
        ensures
            self.h@[s].best == NIL <==> self.flat(s).len() == 0,
            self.h@[s].best != NIL ==> {
                &&& self.h@[s].best < BAND
                &&& self.flat(s)[0].price == self.price_at(s, self.h@[s].best as int)
                &&& self.price_at(s, self.h@[s].best as int) <= u64::MAX
            },
    {
        self.lemma_best_first(s);
        if self.h@[s].best != NIL {
            assert(self.level_holds(s, self.h@[s].best as int));
        }
    }

    /// The highest price at which a buy order rests.
    pub fn best_bid(&self) -> (price: Option<u64>)
        requires
            self.wf(),
        ensures
            match price {
                Some(p) => self@.bids.len() > 0 && p == self@.bids[0].price,
                None => self@.bids.len() == 0,
            },
            forall|i: int|
                0 <= i < self@.bids.len() ==> price is Some && (#[trigger] self@.bids[i]).price
                    <= price->0,
    {
        proof {
            self.lemma_best_price(BID as int);
            assert forall|i: int| 0 < i < self@.bids.len() implies model::no_worse(
                Side::Buy,
                self@.bids[0].price,
                (#[trigger] self@.bids[i]).price,
            ) by {}
        }
        let b: u32 = self.h[BID].best;
        if b != NIL {
            Some(self.price_of(TOP - b))
        } else {
            None
        }
    }

    /// The lowest price at which a sell order rests.
    pub fn best_ask(&self) -> (price: Option<u64>)
        requires
            self.wf(),
        ensures
            match price {
                Some(p) => self@.asks.len() > 0 && p == self@.asks[0].price,
                None => self@.asks.len() == 0,
            },
            forall|i: int|
                0 <= i < self@.asks.len() ==> price is Some && price->0 <= (
                #[trigger] self@.asks[i]).price,
    {
        proof {
            self.lemma_best_price(ASK as int);
            assert forall|i: int| 0 < i < self@.asks.len() implies model::no_worse(
                Side::Sell,
                self@.asks[0].price,
                (#[trigger] self@.asks[i]).price,
            ) by {}
        }
        let a: u32 = self.h[ASK].best;
        if a != NIL {
            Some(self.price_of(a))
        } else {
            None
        }
    }

    /// The levels of a half in use are as many as the prices of its orders.
    proof fn lemma_level_count(&self, s: int)
        requires
            0 <= s < 2,
            self.h@[s].wf(),
        ensures
            model::prices(self.flat(s)).finite(),
            model::prices(self.flat(s)).len() == levels::used_below(
                self.h@[s].queues@,
                BAND as nat,
            ),
    {
        self.lemma_graded(s);
        levels::lemma_price_count(self.levels(s), side_in(s), self.prices_of(s), BAND as nat);
        assert(self.levels(s).take(BAND as int) =~= self.levels(s));
        levels::lemma_used_below_same(self.levels(s), self.h@[s].queues@, BAND as nat);
    }

    /// How many prices have buy orders.
    pub fn bid_levels(&self) -> (n: usize)
        requires
            self.wf(),
        ensures
            model::prices(self@.bids).finite(),
            n == model::prices(self@.bids).len(),
            n <= BAND,
    {
        proof {
            self.lemma_level_count(BID as int);
        }
        self.h[BID].level_count()
    }

    /// How many prices have sell orders.
    pub fn ask_levels(&self) -> (n: usize)
        requires
            self.wf(),
        ensures
            model::prices(self@.asks).finite(),
            n == model::prices(self@.asks).len(),
            n <= BAND,
    {
        proof {
            self.lemma_level_count(ASK as int);
        }
        self.h[ASK].level_count()
    }

    /// No order rests at a price outside the band.
    proof fn lemma_off_band(&self, s: int, price: int)
        requires
            0 <= s < 2,
            !model::in_band(self.base as int, price),
        ensures
            model::at_price(self.flat(s), price) == Seq::<RestingOrder>::empty(),
    {
        self.lemma_graded(s);
        levels::lemma_at_no_price(self.levels(s), self.prices_of(s), price);
    }

    /// The half and the key of an order's price level.
    fn level_address(&self, side: Side, price: u64) -> (address: Option<(usize, usize)>)
        requires
            self.shape(),
        ensures
            match address {
                Some((s, k)) => {
                    &&& s < 2
                    &&& k < BAND
                    &&& side == side_in(s as int)
                    &&& self.level_holds(s as int, k as int)
                    &&& model::at_price(self@.side(side), price as int) == self.level(
                        s as int,
                        k as int,
                    )
                },
                None => model::at_price(self@.side(side), price as int) == Seq::<
                    RestingOrder,
                >::empty(),
            },
    {
        match self.tick_of(price) {
            None => {
                proof {
                    self.lemma_off_band(ASK as int, price as int);
                    self.lemma_off_band(BID as int, price as int);
                }
                None
            },
            Some(tick) => {
                let (s, k) = match side {
                    Side::Buy => (BID, (TOP - tick) as usize),
                    Side::Sell => (ASK, tick as usize),
                };
                proof {
                    self.lemma_level_at_price(s as int, k as int);
                    assert(self.level_holds(s as int, k as int));
                }
                Some((s, k))
            },
        }
    }

    /// The total quantity that rests at a price.
    pub fn level_qty(&self, side: Side, price: u64) -> (qty: u64)
        requires
            self.wf(),
        ensures
            qty == model::total(model::at_price(self@.side(side), price as int)),
            qty > 0 <==> exists|i: int|
                0 <= i < self@.side(side).len() && (#[trigger] self@.side(side)[i]).price == price,
    {
        proof {
            matching_laws::law_quantity_shows_orders(self@.side(side), price as int);
        }
        match self.level_address(side, price) {
            None => 0,
            Some((s, k)) => self.h[s].lv[k].qty,
        }
    }

    /// How many orders rest at a price.
    pub fn level_orders(&self, side: Side, price: u64) -> (n: usize)
        requires
            self.wf(),
        ensures
            n == model::at_price(self@.side(side), price as int).len(),
            n <= self@.side(side).len(),
            n > 0 <==> exists|i: int|
                0 <= i < self@.side(side).len() && (#[trigger] self@.side(side)[i]).price == price,
    {
        proof {
            matching_laws::law_first_at_a_price_is_foremost(self@.side(side), price as int);
        }
        let (s, k) = match self.level_address(side, price) {
            None => {
                return 0;
            },
            Some(address) => address,
        };
        let ghost q = self.queue(s as int, k as int);
        let mut n: usize = 0;
        let mut cur: u32 = self.h[s].lv[k].head;
        proof {
            arena::lemma_chain_len(self.arena@, cur, q);
            assert(q.skip(0) =~= q);
        }
        while cur != NIL
            invariant
                n <= q.len() <= self.arena@.len() <= u32::MAX,
                arena::chained(self.arena@, cur, q.skip(n as int)),
            decreases q.len() - n,
        {
            proof {
                arena::lemma_chain_pop(self.arena@, cur, q.skip(n as int));
                assert(q.skip(n as int).drop_first() =~= q.skip(n + 1));
            }
            n = n + 1;
            cur = self.arena[cur as usize].next;
        }
        n
    }

    /// The identifier of the order that is next in line at a price.
    pub fn front_order_id(&self, side: Side, price: u64) -> (id: Option<u64>)
        requires
            self.wf(),
        ensures
            ({
                let queue = model::at_price(self@.side(side), price as int);
                match id {
                    Some(id) => queue.len() > 0 && id == queue[0].id,
                    None => queue.len() == 0,
                }
            }),
            id is None <==> forall|i: int|
                0 <= i < self@.side(side).len() ==> (#[trigger] self@.side(side)[i]).price != price,
            id matches Some(id) ==> exists|i: int|
                {
                    &&& 0 <= i < self@.side(side).len()
                    &&& (#[trigger] self@.side(side)[i]).price == price
                    &&& self@.side(side)[i].id == id
                    &&& forall|j: int|
                        0 <= j < i ==> (#[trigger] self@.side(side)[j]).price != price
                },
    {
        proof {
            matching_laws::law_first_at_a_price_is_foremost(self@.side(side), price as int);
        }
        match self.level_address(side, price) {
            None => None,
            Some((s, k)) => {
                let head: u32 = self.h[s].lv[k].head;
                if head != NIL {
                    Some(self.ids[head as usize])
                } else {
                    None
                }
            },
        }
    }

    /// How many orders rest in the book.
    pub fn resting_orders(&self) -> (n: usize)
        requires
            self.wf(),
        ensures
            n == self@.resting(),
    {
        self.resting as usize
    }

    /// What a taker would do to one level.
    fn preview_level(&self, s: usize, k: usize, want: u64) -> (p: Preview)
        requires
            self.shape(),
            s < 2,
            k < BAND,
        ensures
            p.shows(
                self.level(s as int, k as int),
                self.level_sweep(s as int, k as int, want as int),
                want,
            ),
    {
        let ghost q = self.queue(s as int, k as int);
        let ghost level = self.level(s as int, k as int);
        let ghost price = self.price_at(s as int, k as int);
        let ghost side = side_in(s as int).opposite();
        let ghost start = self.level_sweep(s as int, k as int, want as int);
        let mut p: Preview = Preview { left: want, trades: 0, gone: 0 };
        proof {
            assert(self.level_holds(s as int, k as int));
            arena::lemma_chain_len(self.arena@, self.h@[s as int].lv@[k as int].head, q);
            assert(q.skip(0) =~= q);
            assert(level.skip(0) =~= level);
            self.lemma_positive(s as int);
        }
        let mut cur: u32 = self.h[s].lv[k].head;
        while p.left > 0 && cur != NIL
            invariant
                s < 2,
                k < BAND,
                q == self.queue(s as int, k as int),
                level == self.level(s as int, k as int),
                price == self.price_at(s as int, k as int),
                side == side_in(s as int).opposite(),
                matching::positive(level),
                q.len() <= self.arena@.len() <= u32::MAX,
                p.gone <= q.len(),
                p.left > 0 ==> p.trades == p.gone,
                p.trades <= p.gone + 1,
                p.left <= want,
                arena::chained(self.arena@, cur, q.skip(p.gone as int)),
                ({
                    let rest = model::sweep(level.skip(p.gone as int), side, price, p.left as int);
                    &&& start.left.len() == rest.left.len()
                    &&& start.filled == want - p.left + rest.filled
                    &&& start.trades == p.trades + rest.trades
                }),
            decreases p.left, q.len() - p.gone,
        {
            let slot: Slot = self.arena[cur as usize];
            let ghost rest = level.skip(p.gone as int);
            proof {
                arena::lemma_chain_pop(self.arena@, cur, q.skip(p.gone as int));
                assert(q.skip(p.gone as int).drop_first() =~= q.skip(p.gone + 1));
                assert(rest.drop_first() =~= level.skip(p.gone + 1));
                assert(q.skip(p.gone as int)[0] == q[p.gone as int]);
                assert(rest[0] == level[p.gone as int]);
            }
            p.trades = p.trades + 1;
            if slot.qty <= p.left {
                p.left = p.left - slot.qty;
                p.gone = p.gone + 1;
                cur = slot.next;
            } else {
                p.left = 0;
            }
        }
        p
    }

    /// Orders behind a key do not cross the price of the key.
    proof fn lemma_behind_no_cross(&self, s: int, key: int, n: int)
        requires
            0 <= s < 2,
            0 <= key < n <= BAND,
        ensures
            ({
                let behind = self.levels(s).skip(n).flatten();
                behind.len() > 0 ==> !model::crosses(
                    side_in(s).opposite(),
                    self.price_at(s, key),
                    behind[0].price,
                )
            }),
    {
        let levels = self.levels(s).skip(n);
        if levels.flatten().len() > 0 {
            let place = levels::lemma_flatten_source(levels, 0);
            assert(levels[place.0] == self.level(s, place.0 + n));
        }
    }

    /// What a taker would do to one half.
    fn preview(&self, s: usize, ckey: u32, quantity: u64) -> (p: Preview)
        requires
            self.shape(),
            self.counted(),
            s < 2,
            ckey < BAND,
        ensures
            p.shows(
                self.flat(s as int),
                model::sweep(
                    self.flat(s as int),
                    side_in(s as int).opposite(),
                    self.price_at(s as int, ckey as int),
                    quantity as int,
                ),
                quantity,
            ),
    {
        let ghost h = s as int;
        let ghost side = side_in(h).opposite();
        let ghost limit = self.price_at(h, ckey as int);
        let ghost all = self.flat(h);
        let ghost start = model::sweep(all, side, limit, quantity as int);
        let mut p: Preview = Preview { left: quantity, trades: 0, gone: 0 };
        let mut k: u32 = 0;
        proof {
            assert(self.levels(h).skip(0) =~= self.levels(h));
        }
        while p.left > 0 && k <= ckey
            invariant
                self.shape(),
                s < 2,
                h == s as int,
                k <= ckey + 1,
                ckey < BAND,
                side == side_in(h).opposite(),
                limit == self.price_at(h, ckey as int),
                all == self.flat(h),
                all.len() <= u32::MAX,
                p.left <= quantity,
                p.left > 0 ==> p.trades == p.gone,
                p.trades <= p.gone + 1,
                ({
                    let rest = self.levels(h).skip(k as int).flatten();
                    let t = model::sweep(rest, side, limit, p.left as int);
                    &&& p.gone + rest.len() <= all.len()
                    &&& start.filled == quantity - p.left + t.filled
                    &&& start.trades == p.trades + t.trades
                    &&& start.left.len() == all.len() - rest.len() - p.gone + t.left.len()
                }),
            decreases ckey + 1 - k,
        {
            let ghost rest = self.levels(h).skip(k as int);
            let ghost level = self.level(h, k as int);
            let ghost back = self.levels(h).skip(k + 1).flatten();
            proof {
                assert(rest.drop_first() =~= self.levels(h).skip(k + 1));
                assert(rest[0] == level);
                assert(rest.flatten() == level + back);
                self.lemma_positive(h);
                assert(matching::positive(level));
                assert(matching::all_cross(level, side, limit));
                assert(matching::all_cross(level, side, self.price_at(h, k as int)));
                matching::lemma_sweep_limit(
                    level,
                    side,
                    limit,
                    self.price_at(h, k as int),
                    p.left as int,
                );
                matching::lemma_sweep_concat(level, back, side, limit, p.left as int);
                matching::lemma_sweep_bounds(level, side, limit, p.left as int);
            }
            let l: Preview = self.preview_level(s, k as usize, p.left);
            p = Preview { left: l.left, trades: p.trades + l.trades, gone: p.gone + l.gone };
            k = k + 1;
        }
        proof {
            if p.left > 0 {
                self.lemma_behind_no_cross(h, ckey as int, k as int);
            }
        }
        p
    }

    /// Whether an order can be submitted: neither the counters nor the quantity at its price nor
    /// the order slots would exceed the machine's number ranges.
    pub fn fits(&self, price: u64, quantity: u64, side: Side) -> (yes: bool)
        requires
            self.wf(),
        ensures
            yes == self@.fits(self.capacity() as int, price, quantity, side),
    {
        if quantity == 0 {
            return self.rejected < u64::MAX;
        }
        let found: Option<u32> = if self.base_pinned {
            self.tick_of(price)
        } else {
            None
        };
        let tick: u32 = match found {
            Some(t) => t,
            None => {
                if self.resting != 0 {
                    return self.rejected < u64::MAX;
                }
                // The book is empty, so nothing trades and the order is the first to rest.
                assert(self@.taken(price, quantity, side).left.len() == 0);
                assert(self@.side(side) =~= Seq::<RestingOrder>::empty());
                proof {
                    reveal(Seq::filter);
                }
                return true;
            },
        };
        let (consume, ckey) = match side {
            Side::Buy => (ASK, tick),
            Side::Sell => (BID, TOP - tick),
        };
        let level_qty: u64 = self.level_qty(side, price);
        let roomy: bool = self.arena.len() <= 0x7fff_ffff;
        proof {
            assert(self.price_at(consume as int, ckey as int) == price);
            self.lemma_positive(consume as int);
            matching::lemma_sweep_bounds(
                self.flat(consume as int),
                side,
                price as int,
                quantity as int,
            );
        }
        if self.resting as u64 <= u64::MAX - self.trades_count && quantity <= u64::MAX
            - self.matched_volume && level_qty <= u64::MAX - quantity && (roomy || (
        self.resting as usize) < self.arena.len()) {
            return true;
        }
        let p: Preview = self.preview(consume, ckey, quantity);
        p.trades <= u64::MAX - self.trades_count && quantity - p.left <= u64::MAX
            - self.matched_volume && (p.left == 0 || (level_qty <= u64::MAX - p.left && (roomy || (
        self.resting as u64 - p.gone) < self.arena.len() as u64)))
    }

    /// The trades and the volume so far.
    pub fn totals(&self) -> (t: (u64, u64))
        requires
            self.wf(),
        ensures
            t.0 == self@.trades,
            t.1 == self@.volume,
    {
        (self.trades_count, self.matched_volume)
    }

    /// The orders refused so far.
    pub fn refused(&self) -> (n: u64)
        requires
            self.wf(),
        ensures
            n == self@.rejected,
    {
        self.rejected
    }
}

/// How a taker would fare.
struct Preview {
    /// What it would still want.
    left: u64,
    /// The trades it would make.
    trades: u64,
    /// The orders it would take in full.
    gone: u64,
}

impl Preview {
    spec fn shows(self, orders: Seq<RestingOrder>, s: Sweep, want: u64) -> bool {
        &&& s.filled == want - self.left
        &&& s.trades == self.trades
        &&& s.left.len() == orders.len() - self.gone
        &&& self.trades <= self.gone + 1
        &&& self.left > 0 ==> self.trades == self.gone
    }
}

} // verus!
