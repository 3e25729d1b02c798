//! One side of the book: price levels, and a three-level bitmap of those in use.
//!
//! A level is addressed by its key, so that on either side a lower key is a better price. The
//! best price is the lowest key in use, found in three words of the bitmap.

use vstd::prelude::*;
use crate::bits;
use crate::levels;
use crate::model::BAND;

verus! {

/// Words of the lowest bitmap level: one bit for each key.
pub const L1W: usize = 128;

/// Words of the middle bitmap level: one bit for each word below.
pub const L2W: usize = 2;

/// The absent index.
pub const NIL: u32 = u32::MAX;

/// A price level: its total quantity, and the ends of its queue in the order arena.
#[derive(Clone, Copy)]
pub struct Lvl {
    pub qty: u64,
    pub head: u32,
    pub tail: u32,
}

/// One side of the book.
pub struct Half {
    /// The lowest key in use, `NIL` if there is none.
    pub best: u32,
    pub l3: u64,
    pub l2: [u64; L2W],
    pub l1: Vec<u64>,
    pub lv: Vec<Lvl>,
    /// The queue of each level, as arena indices from the oldest order on.
    pub queues: Ghost<Seq<Seq<u32>>>,
}

/// Whether the bitmap marks a key.
pub open spec fn marked(l1: Seq<u64>, key: int) -> bool {
    bits::bit(l1[key / 64], key % 64)
}

/// Whether the upper bitmap levels say which words below them are in use.
pub open spec fn bitmap_ok(l1: Seq<u64>, l2: Seq<u64>, l3: u64) -> bool {
    &&& l1.len() == L1W
    &&& l2.len() == L2W
    &&& forall|i: int| 0 <= i < L1W ==> (#[trigger] bits::bit(l2[i / 64], i % 64) <==> l1[i] != 0)
    &&& forall|i: int| 0 <= i < 64 ==> (#[trigger] bits::bit(l3, i) <==> i < L2W && l2[i] != 0)
}

/// Whether `best` is the lowest marked key.
pub open spec fn is_best(l1: Seq<u64>, best: u32) -> bool {
    if best == NIL {
        forall|k: int| 0 <= k < BAND ==> !#[trigger] marked(l1, k)
    } else {
        &&& best < BAND
        &&& marked(l1, best as int)
        &&& forall|k: int| 0 <= k < best ==> !#[trigger] marked(l1, k)
    }
}

/// A level without orders.
pub open spec fn empty_level() -> Lvl {
    Lvl { qty: 0, head: NIL, tail: NIL }
}

impl Half {
    /// The bitmap marks exactly the levels with a queue, and `best` is the first of them.
    pub open spec fn wf(&self) -> bool {
        &&& bitmap_ok(self.l1@, self.l2@, self.l3)
        &&& is_best(self.l1@, self.best)
        &&& self.lv@.len() == BAND
        &&& self.queues@.len() == BAND
        &&& forall|k: int|
            0 <= k < BAND ==> (#[trigger] marked(self.l1@, k) <==> self.queues@[k].len() > 0)
    }

    /// A side without orders.
    pub fn new() -> (half: Half)
        ensures
            half.wf(),
            half.best == NIL,
            half.lv@ =~= Seq::new(BAND as nat, |k: int| empty_level()),
            half.queues@ =~= Seq::new(BAND as nat, |k: int| Seq::<u32>::empty()),
    {
        let mut l1: Vec<u64> = Vec::new();
        let mut i: usize = 0;
        while i < L1W
            invariant
                i <= L1W,
                l1@ =~= Seq::new(i as nat, |k: int| 0u64),
            decreases L1W - i,
        {
            l1.push(0);
            i = i + 1;
        }
        let mut lv: Vec<Lvl> = Vec::new();
        let mut k: usize = 0;
        while k < BAND
            invariant
                k <= BAND,
                lv@ =~= Seq::new(k as nat, |k: int| empty_level()),
            decreases BAND - k,
        {
            lv.push(Lvl { qty: 0, head: NIL, tail: NIL });
            k = k + 1;
        }
        let half = Half {
            best: NIL,
            l3: 0,
            l2: [0u64; L2W],
            l1,
            lv,
            queues: Ghost(Seq::new(BAND as nat, |k: int| Seq::<u32>::empty())),
        };
        proof {
            bits::lemma_zero_word();
        }
        half
    }

    /// Marks a key as in use.
    pub fn mark(&mut self, t: usize)
        requires
            t < BAND,
            bitmap_ok(old(self).l1@, old(self).l2@, old(self).l3),
            is_best(old(self).l1@, old(self).best),
        ensures
            bitmap_ok(final(self).l1@, final(self).l2@, final(self).l3),
            is_best(final(self).l1@, final(self).best),
            forall|k: int|
                0 <= k < BAND ==> (#[trigger] marked(final(self).l1@, k) <==> k == t || marked(
                    old(self).l1@,
                    k,
                )),
            final(self).lv == old(self).lv,
            final(self).queues == old(self).queues,
    {
        let i1: usize = t / 64;
        let b1: u64 = (t % 64) as u64;
        let i2: usize = i1 / 64;
        let b2: u64 = (i1 % 64) as u64;
        proof {
            bits::lemma_set_bit(self.l1@[i1 as int], b1);
            bits::lemma_set_bit(self.l2@[i2 as int], b2);
            bits::lemma_set_bit(self.l3, i2 as u64);
        }
        self.l1[i1] = self.l1[i1] | (1u64 << b1);
        self.l2[i2] = self.l2[i2] | (1u64 << b2);
        self.l3 = self.l3 | (1u64 << (i2 as u64));
        let t32: u32 = t as u32;
        if t32 < self.best {
            self.best = t32;
        }
        proof {
            assert forall|k: int| 0 <= k < BAND implies (#[trigger] marked(self.l1@, k) <==> k == t
                || marked(old(self).l1@, k)) by {}
            assert forall|i: int| 0 <= i < L1W implies (#[trigger] bits::bit(
                self.l2@[i / 64],
                i % 64,
            ) <==> self.l1@[i] != 0) by {
                assert(bits::bit(old(self).l2@[i / 64], i % 64) <==> old(self).l1@[i] != 0);
            }
        }
    }

    /// Clears the mark of the best key, whose queue has run empty.
    ///
    /// If keys in the same word are still in use the lowest of them is the new best; else the
    /// search starts from the top of the bitmap.
    pub fn unmark(&mut self, t: usize)
        requires
            t < BAND,
            old(self).best == t,
            bitmap_ok(old(self).l1@, old(self).l2@, old(self).l3),
            is_best(old(self).l1@, old(self).best),
        ensures
            bitmap_ok(final(self).l1@, final(self).l2@, final(self).l3),
            is_best(final(self).l1@, final(self).best),
            forall|k: int|
                0 <= k < BAND ==> (#[trigger] marked(final(self).l1@, k) <==> k != t && marked(
                    old(self).l1@,
                    k,
                )),
            final(self).lv == old(self).lv,
            final(self).queues == old(self).queues,
    {
        let i1: usize = t / 64;
        let b1: u64 = (t % 64) as u64;
        let i2: usize = i1 / 64;
        let b2: u64 = (i1 % 64) as u64;
        let v: u64 = self.l1[i1] & !(1u64 << b1);
        proof {
            bits::lemma_clear_bit(self.l1@[i1 as int], b1);
            bits::lemma_clear_bit(self.l2@[i2 as int], b2);
            bits::lemma_clear_bit(self.l3, i2 as u64);
            bits::lemma_word_is_zero(self.l1@[i1 as int]);
        }
        self.l1[i1] = v;
        assert forall|k: int| 0 <= k < BAND implies (#[trigger] marked(self.l1@, k) <==> k != t
            && marked(old(self).l1@, k)) by {}
        if v != 0 {
            let low: u32 = v.trailing_zeros();
            proof {
                bits::lemma_lowest_bit(v, low);
                assert(bits::bit(old(self).l1@[i1 as int], b1 as int));
                assert forall|i: int| 0 <= i < L1W implies (#[trigger] bits::bit(
                    self.l2@[i / 64],
                    i % 64,
                ) <==> self.l1@[i] != 0) by {
                    assert(bits::bit(old(self).l2@[i / 64], i % 64) <==> old(self).l1@[i] != 0);
                }
                assert forall|k: int| 0 <= k < i1 * 64 + low implies !#[trigger] marked(
                    self.l1@,
                    k,
                ) by {
                    if k / 64 == i1 {
                        assert(k % 64 < low);
                    }
                }
                assert((i1 * 64 + low) / 64 == i1 && (i1 * 64 + low) % 64 == low);
                assert(marked(self.l1@, i1 * 64 + low));
            }
            self.best = (i1 * 64) as u32 + low;
            return ;
        }
        self.l2[i2] = self.l2[i2] & !(1u64 << b2);
        assert forall|i: int| 0 <= i < L1W implies (#[trigger] bits::bit(self.l2@[i / 64], i % 64)
            <==> self.l1@[i] != 0) by {
            assert(bits::bit(old(self).l2@[i / 64], i % 64) <==> old(self).l1@[i] != 0);
        }
        proof {
            bits::lemma_word_is_zero(old(self).l2@[i2 as int]);
            assert(bits::bit(old(self).l2@[i1 as int / 64], i1 as int % 64));
        }
        if self.l2[i2] == 0 {
            self.l3 = self.l3 & !(1u64 << (i2 as u64));
        }
        assert forall|i: int| 0 <= i < 64 implies (#[trigger] bits::bit(self.l3, i) <==> i < L2W
            && self.l2@[i] != 0) by {
            assert(bits::bit(old(self).l3, i) <==> i < L2W && old(self).l2@[i] != 0);
        }
        self.best = self.scan_min();
    }

    /// The lowest marked key: the lowest bit of three words.
    pub fn scan_min(&self) -> (best: u32)
        requires
            bitmap_ok(self.l1@, self.l2@, self.l3),
        ensures
            is_best(self.l1@, best),
    {
        if self.l3 == 0 {
            proof {
                bits::lemma_zero_word();
                assert forall|k: int| 0 <= k < BAND implies !#[trigger] marked(self.l1@, k) by {
                    let i = k / 64;
                    assert(bits::bit(self.l2@[i / 64], i % 64) <==> self.l1@[i] != 0);
                    assert(bits::bit(self.l3, i / 64) <==> self.l2@[i / 64] != 0);
                }
            }
            return NIL;
        }
        let i2: u32 = self.l3.trailing_zeros();
        proof {
            bits::lemma_lowest_bit(self.l3, i2);
        }
        let w2: u64 = self.l2[i2 as usize];
        let b2: u32 = w2.trailing_zeros();
        proof {
            bits::lemma_lowest_bit(w2, b2);
        }
        let i1: u32 = i2 * 64 + b2;
        proof {
            assert(i1 / 64 == i2 && i1 % 64 == b2);
            assert(bits::bit(self.l2@[i1 as int / 64], i1 as int % 64));
        }
        let w1: u64 = self.l1[i1 as usize];
        let b1: u32 = w1.trailing_zeros();
        proof {
            bits::lemma_lowest_bit(w1, b1);
            let best = i1 * 64 + b1;
            assert(best / 64 == i1 && best % 64 == b1);
            assert(marked(self.l1@, best));
            bits::lemma_zero_word();
            assert forall|k: int| 0 <= k < best implies !#[trigger] marked(self.l1@, k) by {
                let i = k / 64;
                assert(bits::bit(self.l2@[i / 64], i % 64) <==> self.l1@[i] != 0);
                assert(bits::bit(self.l3, i / 64) <==> self.l2@[i / 64] != 0);
                if i < i1 {
                    if i / 64 == i2 {
                        assert(i % 64 < b2);
                    }
                } else {
                    assert(k % 64 < b1);
                }
            }
        }
        i1 * 64 + b1
    }

    /// How many levels are in use.
    pub fn level_count(&self) -> (n: usize)
        requires
            self.wf(),
        ensures
            n == levels::used_below(self.queues@, BAND as nat),
            n <= BAND,
    {
        let mut n: usize = 0;
        let mut i: usize = 0;
        while i < L1W
            invariant
                self.wf(),
                i <= L1W,
                n <= 64 * i,
                n == levels::used_below(self.queues@, (64 * i) as nat),
            decreases L1W - i,
        {
            proof {
                self.lemma_word_counts_levels(i as int, 64);
            }
            n = n + bits::count_ones(self.l1[i]) as usize;
            i = i + 1;
        }
        n
    }

    /// The set bits of a bitmap word count the levels in use among its keys.
    proof fn lemma_word_counts_levels(&self, i: int, n: nat)
        requires
            self.wf(),
            0 <= i < L1W,
            n <= 64,
        ensures
            levels::used_below(self.queues@, (64 * i + n) as nat) == levels::used_below(
                self.queues@,
                (64 * i) as nat,
            ) + bits::ones_below(self.l1@[i], n),
        decreases n,
    {
        if n > 0 {
            self.lemma_word_counts_levels(i, (n - 1) as nat);
            let k = 64 * i + n - 1;
            assert(k / 64 == i && k % 64 == n - 1);
            assert(marked(self.l1@, k) <==> self.queues@[k].len() > 0);
        }
    }

    /// Empties the side. Only the levels that the bitmap marks are touched.
    pub fn clear(&mut self)
        requires
            old(self).wf(),
            forall|k: int|
                0 <= k < BAND && !marked(old(self).l1@, k) ==> #[trigger] old(self).lv@[k]
                    == empty_level(),
        ensures
            final(self).wf(),
            final(self).best == NIL,
            final(self).lv@ =~= Seq::new(BAND as nat, |k: int| empty_level()),
            final(self).queues@ =~= Seq::new(BAND as nat, |k: int| Seq::<u32>::empty()),
    {
        let mut i1: usize = 0;
        while i1 < L1W
            invariant
                i1 <= L1W,
                self.l1@.len() == L1W,
                self.lv@.len() == BAND,
                forall|i: int| 0 <= i < i1 ==> self.l1@[i] == 0,
                forall|i: int| i1 <= i < L1W ==> self.l1@[i] == old(self).l1@[i],
                forall|k: int|
                    0 <= k < BAND && !marked(old(self).l1@, k) ==> #[trigger] self.lv@[k]
                        == empty_level(),
                forall|k: int| 0 <= k < 64 * i1 ==> #[trigger] self.lv@[k] == empty_level(),
            decreases L1W - i1,
        {
            let mut w: u64 = self.l1[i1];
            let ghost word = w;
            let ghost mut done: int = 0;
            while w != 0
                invariant
                    i1 < L1W,
                    word == old(self).l1@[i1 as int],
                    self.l1@.len() == L1W,
                    self.lv@.len() == BAND,
                    forall|i: int| 0 <= i < i1 ==> self.l1@[i] == 0,
                    forall|i: int| i1 <= i < L1W ==> self.l1@[i] == old(self).l1@[i],
                    forall|k: int|
                        0 <= k < BAND && !marked(old(self).l1@, k) ==> #[trigger] self.lv@[k]
                            == empty_level(),
                    forall|k: int| 0 <= k < 64 * i1 ==> #[trigger] self.lv@[k] == empty_level(),
                    0 <= done <= 64,
                    forall|j: int| 0 <= j < done ==> !#[trigger] bits::bit(w, j),
                    forall|j: int|
                        done <= j < 64 ==> (#[trigger] bits::bit(w, j) <==> bits::bit(word, j)),
                    forall|j: int|
                        0 <= j < done ==> #[trigger] self.lv@[64 * i1 + j] == empty_level(),
                decreases 64 - done,
            {
                let b: u32 = w.trailing_zeros();
                proof {
                    bits::lemma_lowest_bit(w, b);
                    bits::lemma_clear_bit(w, b as u64);
                    if b < done {
                        assert(!bits::bit(w, b as int));
                    }
                }
                let k: usize = i1 * 64 + b as usize;
                let ghost w0 = w;
                w = w & !(1u64 << (b as u64));
                self.lv[k] = Lvl { qty: 0, head: NIL, tail: NIL };
                proof {
                    assert forall|j: int| 0 <= j < b + 1 implies #[trigger] self.lv@[64 * i1 + j]
                        == empty_level() by {
                        if done <= j < b {
                            let key = 64 * i1 + j;
                            assert(key / 64 == i1 && key % 64 == j);
                            assert(!bits::bit(w0, j));
                            assert(!marked(old(self).l1@, key));
                        }
                    }
                    done = b + 1;
                }
            }
            proof {
                bits::lemma_zero_word();
                assert forall|k: int| 0 <= k < 64 * (i1 + 1) implies #[trigger] self.lv@[k]
                    == empty_level() by {
                    if 64 * i1 <= k {
                        let j = k - 64 * i1;
                        assert(k / 64 == i1 && k % 64 == j);
                        if j < done {
                            assert(self.lv@[64 * i1 + j] == empty_level());
                        } else {
                            assert(!bits::bit(w, j));
                            assert(!marked(old(self).l1@, k));
                        }
                    }
                }
            }
            self.l1[i1] = 0;
            i1 = i1 + 1;
        }
        self.l2 = [0u64; L2W];
        self.l3 = 0;
        self.best = NIL;
        self.queues = Ghost(Seq::new(BAND as nat, |k: int| Seq::<u32>::empty()));
        proof {
            bits::lemma_zero_word();
        }
    }
}

} // verus!
