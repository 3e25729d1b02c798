//! Laws of fingerprints and of generated orders.

use vstd::prelude::*;
use crate::bench;
use crate::generator;
use crate::model;
use crate::model::{BookView, RestingOrder};
use crate::replay;
use crate::types::{Order, Side};

verus! {

/// What the orders at a price add up to.
pub open spec fn quantity_at(orders: Seq<RestingOrder>, price: int) -> int
    decreases orders.len(),
{
    if orders.len() == 0 {
        0
    } else {
        quantity_at(orders.drop_last(), price) + (if orders.last().price == price {
            orders.last().quantity
        } else {
            0
        })
    }
}

proof fn lemma_quantity_at(orders: Seq<RestingOrder>, price: int)
    ensures
        model::total(model::at_price(orders, price)) == quantity_at(orders, price),
    decreases orders.len(),
{
    reveal(Seq::filter);
    if orders.len() > 0 {
        let front = orders.drop_last();
        lemma_quantity_at(front, price);
        model::lemma_total_push(model::at_price(front, price), orders.last());
    }
}

/// How many different prices orders have.
pub open spec fn different_prices(orders: Seq<RestingOrder>) -> nat {
    orders.map_values(|o: RestingOrder| o.price).to_set().len()
}

proof fn lemma_different_prices(orders: Seq<RestingOrder>)
    ensures
        model::prices(orders).len() == different_prices(orders),
        different_prices(orders) <= orders.len(),
{
    orders.map_values(|o: RestingOrder| o.price).lemma_cardinality_of_set();
}

/// Whether what is to be recorded of a book fits in the words for it.
pub open spec fn recordable(book: BookView) -> bool {
    &&& 0 <= book.trades <= u64::MAX
    &&& 0 <= book.volume <= u64::MAX
    &&& book.bids.len() <= u32::MAX
    &&& book.asks.len() <= u32::MAX
    &&& book.bids.len() > 0 ==> 0 <= book.bids[0].price <= u64::MAX && 0 <= quantity_at(
        book.bids,
        book.bids[0].price,
    ) <= u64::MAX
    &&& book.asks.len() > 0 ==> 0 <= book.asks[0].price <= u64::MAX && 0 <= quantity_at(
        book.asks,
        book.asks[0].price,
    ) <= u64::MAX
}

/// What is recorded of a book: its trades and volume; the highest price of its buy orders and the
/// lowest of its sell orders; in one word the numbers of different prices of both; what rests at the
/// two prices; and the oldest orders there. A side without orders is recorded as zeros.
pub proof fn law_every_word_of_a_record(book: BookView)
    requires
        book.valid(),
        recordable(book),
    ensures
        ({
            let w = bench::observed(book);
            &&& w.len() == 9
            &&& w[0] == book.trades
            &&& w[1] == book.volume
            &&& book.bids.len() == 0 ==> w[2] == 0 && w[5] == 0 && w[7] == 0
            &&& book.bids.len() > 0 ==> {
                &&& book.bids[0].price == w[2]
                &&& forall|i: int|
                    0 <= i < book.bids.len() ==> (#[trigger] book.bids[i]).price <= w[2]
                &&& w[5] == quantity_at(book.bids, w[2] as int)
                &&& w[7] == book.bids[0].id
            }
            &&& book.asks.len() == 0 ==> w[3] == 0 && w[6] == 0 && w[8] == 0
            &&& book.asks.len() > 0 ==> {
                &&& book.asks[0].price == w[3]
                &&& forall|i: int|
                    0 <= i < book.asks.len() ==> w[3] <= (#[trigger] book.asks[i]).price
                &&& w[6] == quantity_at(book.asks, w[3] as int)
                &&& w[8] == book.asks[0].id
            }
            &&& w[4] as int / 0x1_0000_0000 == different_prices(book.bids)
            &&& w[4] as int % 0x1_0000_0000 == different_prices(book.asks)
        }),
{
    lemma_different_prices(book.bids);
    lemma_different_prices(book.asks);
    if book.bids.len() > 0 {
        lemma_quantity_at(book.bids, book.bids[0].price);
        assert forall|i: int| 0 <= i < book.bids.len() implies (#[trigger] book.bids[i]).price
            <= book.bids[0].price by {
            assert(i > 0 ==> model::no_worse(Side::Buy, book.bids[0].price, book.bids[i].price));
        }
    }
    if book.asks.len() > 0 {
        lemma_quantity_at(book.asks, book.asks[0].price);
        assert forall|i: int| 0 <= i < book.asks.len() implies book.asks[0].price <= (
        #[trigger] book.asks[i]).price by {
            assert(i > 0 ==> model::no_worse(Side::Sell, book.asks[0].price, book.asks[i].price));
        }
    }
}

/// Books with different numbers of bid levels or of ask levels are recorded differently.
pub proof fn law_numbers_of_levels_show(a: BookView, b: BookView)
    requires
        a.valid(),
        b.valid(),
        recordable(a),
        recordable(b),
        different_prices(a.bids) != different_prices(b.bids) || different_prices(a.asks)
            != different_prices(b.asks),
    ensures
        bench::observed(a)[4] != bench::observed(b)[4],
{
    law_every_word_of_a_record(a);
    law_every_word_of_a_record(b);
}

/// One byte is mixed in by an exclusive or and a multiplication in 64 bits; bytes one behind the
/// other are mixed in one after the other.
pub proof fn law_bytes_are_mixed_in_turn(h: u64, c: u8, a: Seq<u8>, b: Seq<u8>)
    ensures
        bench::fnv(h, Seq::empty()) == h,
        bench::fnv(h, seq![c]) as int == ((h ^ (c as u64)) * 1099511628211) % 0x1_0000_0000_0000_0000,
        bench::fnv(h, a + b) == bench::fnv(bench::fnv(h, a), b),
    decreases a.len(),
{
    reveal_with_fuel(bench::fnv, 2);
    assert(seq![c].drop_first() =~= Seq::<u8>::empty());
    if a.len() == 0 {
        assert(a + b =~= b);
    } else {
        assert((a + b).drop_first() =~= a.drop_first() + b);
        law_bytes_are_mixed_in_turn(bench::stir(h, a[0]), c, a.drop_first(), b);
    }
}

/// Byte `j` of a number, little end first.
pub open spec fn byte_of(v: nat, j: nat) -> u8
    decreases j,
{
    if j == 0 {
        (v % 256) as u8
    } else {
        byte_of(v / 256, (j - 1) as nat)
    }
}

/// Numbers in eight bytes each, little end first.
pub open spec fn words(values: Seq<u64>) -> Seq<u8> {
    Seq::new(8 * values.len(), |i: int| byte_of(values[i / 8] as nat, (i % 8) as nat))
}

proof fn lemma_bytes_of_number(v: nat, n: nat)
    ensures
        crate::binary::bytes(v, n) == Seq::new(n, |j: int| byte_of(v, j as nat)),
    decreases n,
{
    let s = crate::binary::bytes(v, n);
    let t = Seq::new(n, |j: int| byte_of(v, j as nat));
    if n > 0 {
        lemma_bytes_of_number(v / 256, (n - 1) as nat);
        let rest = crate::binary::bytes(v / 256, (n - 1) as nat);
        assert forall|j: int| 0 <= j < n implies #[trigger] s[j] == t[j] by {
            if j > 0 {
                assert(s[j] == rest[j - 1]);
            }
        }
    }
    assert(s =~= t);
}

proof fn lemma_fnv_numbers(h: u64, values: Seq<u64>)
    ensures
        bench::fnv_numbers(h, values) == bench::fnv(h, words(values)),
    decreases values.len(),
{
    if values.len() == 0 {
        assert(words(values) =~= Seq::<u8>::empty());
    } else {
        let rest = values.drop_first();
        let first = crate::binary::bytes(values[0] as nat, 8);
        lemma_bytes_of_number(values[0] as nat, 8);
        lemma_fnv_numbers(bench::fnv(h, first), rest);
        law_bytes_are_mixed_in_turn(h, 0, first, words(rest));
        assert(words(values) =~= first + words(rest)) by {
            assert forall|i: int| 0 <= i < words(values).len() implies #[trigger] words(values)[i]
                == (first + words(rest))[i] by {
                if i >= 8 {
                    assert((i - 8) / 8 == i / 8 - 1 && (i - 8) % 8 == i % 8);
                    assert(rest[i / 8 - 1] == values[i / 8]);
                }
            }
        }
    }
}

/// A fingerprint begins with a fixed number, and each further order mixes in what is then recorded
/// of the book, every number in eight bytes, little end first.
pub proof fn law_fingerprint_grows_with_every_order(orders: Seq<Order>, o: Order)
    ensures
        bench::trace(Seq::empty()) == 14695981039346656037,
        bench::trace(orders.push(o)) == bench::fnv(
            bench::trace(orders),
            words(bench::observed(replay::accept(BookView::empty(None), orders.push(o)))),
        ),
{
    assert(orders.push(o).drop_last() =~= orders);
    lemma_fnv_numbers(
        bench::trace(orders),
        bench::observed(replay::accept(BookView::empty(None), orders.push(o))),
    );
}

/// The first argument with the name decides.
pub proof fn law_first_argument_of_a_name_decides(args: Seq<String>, name: Seq<char>)
    ensures
        ({
            let i = bench::argument(args, name, 0);
            &&& 0 <= i <= args.len()
            &&& i < args.len() ==> args[i]@ == name
            &&& forall|j: int| 0 <= j < i ==> (#[trigger] args[j])@ != name
        }),
{
    lemma_argument(args, name, 0);
}

proof fn lemma_argument(args: Seq<String>, name: Seq<char>, i: int)
    requires
        0 <= i <= args.len(),
    ensures
        ({
            let k = bench::argument(args, name, i);
            &&& i <= k <= args.len()
            &&& k < args.len() ==> args[k]@ == name
            &&& forall|j: int| i <= j < k ==> (#[trigger] args[j])@ != name
        }),
    decreases args.len() - i,
{
    if i < args.len() && args[i]@ != name {
        lemma_argument(args, name, i + 1);
    }
}

/// The successor of a state is found by three shifts, each followed by an exclusive or: left by 13,
/// right by 7 and left by 17. Successors of states combine as the states do.
pub proof fn law_successor_of_a_state(v: u64, w: u64)
    ensures
        generator::step(v) == ({
            let a = v ^ (v << 13);
            let b = a ^ (a >> 7);
            b ^ (b << 17)
        }),
        generator::step(v ^ w) == generator::step(v) ^ generator::step(w),
        generator::step(0) == 0,
{
    let a = v ^ (v << 13);
    let b = a ^ (a >> 7);
    assert(generator::step(v) == (b ^ (b << 17)));
    let c = w ^ (w << 13);
    let d = c ^ (c >> 7);
    let x = v ^ w;
    let e = x ^ (x << 13);
    let f = e ^ (e >> 7);
    assert(e == a ^ c) by (bit_vector)
        requires
            x == v ^ w,
            e == x ^ (x << 13),
            a == v ^ (v << 13),
            c == w ^ (w << 13),
    ;
    assert(f == b ^ d) by (bit_vector)
        requires
            e == a ^ c,
            f == e ^ (e >> 7),
            b == a ^ (a >> 7),
            d == c ^ (c >> 7),
    ;
    assert(f ^ (f << 17) == (b ^ (b << 17)) ^ (d ^ (d << 17))) by (bit_vector)
        requires
            f == b ^ d,
    ;
    let z = 0u64;
    assert(z ^ (z << 13) == 0 && z ^ (z >> 7) == 0 && z ^ (z << 17) == 0) by (bit_vector)
        requires
            z == 0,
    ;
}

/// Every order takes three successive states: the lowest bit of the first gives the side, the second
/// the price, the third the quantity. A zero seed is replaced.
pub proof fn law_orders_take_three_states_each(seed: u64, i: int)
    requires
        0 <= i,
    ensures
        ({
            let o = generator::order_at(seed, i);
            let start = if seed == 0 {
                0xDEAD_BEEF_CAFE_1234
            } else {
                seed
            };
            let before = generator::state_after(start, (3 * i) as nat);
            let first = generator::step(before);
            let second = generator::step(first);
            let third = generator::step(second);
            &&& i < u64::MAX ==> o.id == i + 1
            &&& o.side == Side::Buy <==> first % 2 == 0
            &&& o.price == 9900 + second % 200
            &&& o.quantity == 1 + third % 100
        }),
{
    reveal_with_fuel(generator::state_after, 4);
}

/// The stream goes on as a stream that starts from a later state.
pub proof fn law_stream_goes_on(start: u64, m: nat, n: nat)
    ensures
        generator::state_after(start, 0) == start,
        generator::state_after(start, m + n) == generator::state_after(
            generator::state_after(start, m),
            n,
        ),
    decreases n,
{
    if n > 0 {
        law_stream_goes_on(start, m, (n - 1) as nat);
    }
}

} // verus!
