//! A reproducible stream of orders.

use vstd::prelude::*;
use crate::types::{Order, Side};

verus! {

/// The xorshift generator with shifts 13, 7 and 17.
pub struct Xorshift64 {
    state: u64,
}

/// The state that follows `v`.
pub open spec fn step(v: u64) -> u64 {
    let a = v ^ (v << 13);
    let b = a ^ (a >> 7);
    b ^ (b << 17)
}

/// The state in which a generator starts: the seed, or a fixed state in place of zero.
pub open spec fn seeded(seed: u64) -> u64 {
    if seed == 0 {
        0xDEAD_BEEF_CAFE_1234
    } else {
        seed
    }
}

/// The state after `n` steps.
pub open spec fn state_after(start: u64, n: nat) -> u64
    decreases n,
{
    if n == 0 {
        start
    } else {
        step(state_after(start, (n - 1) as nat))
    }
}

/// Order `i` of the stream: three numbers give its side, its price within 100 ticks below and 99
/// above 10 000, and its quantity from 1 to 100.
pub open spec fn order_at(seed: u64, i: int) -> Order {
    let start = seeded(seed);
    let r1 = state_after(start, (3 * i + 1) as nat);
    let r2 = state_after(start, (3 * i + 2) as nat);
    let r3 = state_after(start, (3 * i + 3) as nat);
    Order {
        id: (i + 1) as u64,
        price: (9900 + r2 % 200) as u64,
        quantity: (1 + r3 % 100) as u64,
        side: if r1 % 2 == 0 {
            Side::Buy
        } else {
            Side::Sell
        },
    }
}

impl View for Xorshift64 {
    type V = u64;

    closed spec fn view(&self) -> u64 {
        self.state
    }
}

impl Xorshift64 {
    /// A generator for a seed. Zero, which would repeat itself forever, is replaced.
    pub fn new(seed: u64) -> (rng: Xorshift64)
        ensures
            rng@ == seeded(seed),
    {
        let s: u64 = if seed == 0 {
            0xDEAD_BEEF_CAFE_1234
        } else {
            seed
        };
        Xorshift64 { state: s }
    }

    /// The next number, which is also the next state.
    pub fn next(&mut self) -> (v: u64)
        ensures
            final(self)@ == step(old(self)@),
            v == final(self)@,
    {
        let mut v: u64 = self.state;
        v = v ^ (v << 13);
        v = v ^ (v >> 7);
        v = v ^ (v << 17);
        self.state = v;
        v
    }
}

/// The first `n` orders of the stream of a seed.
pub fn generate_orders(n: usize, seed: u64) -> (orders: Vec<Order>)
    ensures
        orders@ == Seq::new(n as nat, |i: int| order_at(seed, i)),
{
    let mut rng = Xorshift64::new(seed);
    let mut orders: Vec<Order> = Vec::with_capacity(n);
    let mut i: usize = 0;
    while i < n
        invariant
            i <= n,
            rng@ == state_after(seeded(seed), (3 * i) as nat),
            orders@ == Seq::new(i as nat, |j: int| order_at(seed, j)),
        decreases n - i,
    {
        let r1: u64 = rng.next();
        let r2: u64 = rng.next();
        let r3: u64 = rng.next();
        proof {
            assert(r1 == state_after(seeded(seed), (3 * i + 1) as nat));
            assert(r2 == state_after(seeded(seed), (3 * i + 2) as nat));
            assert(r3 == state_after(seeded(seed), (3 * i + 3) as nat));
            assert(r1 & 1 == r1 % 2) by (bit_vector);
        }
        let side: Side = if (r1 & 1) == 0 {
            Side::Buy
        } else {
            Side::Sell
        };
        let price_offset: i64 = (r2 % 200) as i64 - 100;
        let price: u64 = (10000i64 + price_offset) as u64;
        let quantity: u64 = 1 + (r3 % 100);
        orders.push(Order { id: (i + 1) as u64, price, quantity, side });
        assert(orders@ =~= Seq::new((i + 1) as nat, |j: int| order_at(seed, j)));
        i = i + 1;
    }
    orders
}

/// The generator never gets stuck at zero.
pub proof fn law_state_never_zero(seed: u64, n: nat)
    ensures
        state_after(seeded(seed), n) != 0,
    decreases n,
{
    if n > 0 {
        law_state_never_zero(seed, (n - 1) as nat);
        let v = state_after(seeded(seed), (n - 1) as nat);
        let a = v ^ (v << 13);
        let b = a ^ (a >> 7);
        assert(v != 0 ==> v ^ (v << 13) != 0) by (bit_vector);
        assert(a != 0 ==> a ^ (a >> 7) != 0) by (bit_vector);
        assert(b != 0 ==> b ^ (b << 17) != 0) by (bit_vector);
    }
}

/// No two states have the same successor.
pub proof fn law_step_is_injective(v: u64, w: u64)
    requires
        step(v) == step(w),
    ensures
        v == w,
{
    let a = v ^ (v << 13);
    let c = w ^ (w << 13);
    let b = a ^ (a >> 7);
    let d = c ^ (c >> 7);
    assert(b ^ (b << 17) == d ^ (d << 17) ==> b == d) by (bit_vector);
    assert(a ^ (a >> 7) == c ^ (c >> 7) ==> a == c) by (bit_vector);
    assert(v ^ (v << 13) == w ^ (w << 13) ==> v == w) by (bit_vector);
}

/// Every order of the stream has a price from 9 900 to 10 099 and a quantity from 1 to 100.
pub proof fn law_generated_orders_in_range(seed: u64, i: int)
    ensures
        9900 <= order_at(seed, i).price <= 10099,
        1 <= order_at(seed, i).quantity <= 100,
{
}

} // verus!
