//! What a benchmark run rests on: a fingerprint of every state that a book goes through, and the
//! choices that the command line leaves open.

use vstd::prelude::*;
use crate::binary;
use crate::generator;
use crate::levels;
use crate::model;
use crate::model::{BookView, RestingOrder};
use crate::orderbook::OrderBook;
use crate::replay;
use crate::text;
use crate::types::{Order, Side};

verus! {

/// Where the fingerprint starts.
pub const FNV_BASIS: u64 = 14695981039346656037;

/// The factor by which the fingerprint grows.
pub const FNV_PRIME: u64 = 1099511628211;

/// The fingerprint after one byte.
pub open spec fn stir(h: u64, byte: u8) -> u64 {
    (h ^ (byte as u64)).wrapping_mul(FNV_PRIME)
}

/// The fingerprint after bytes.
pub open spec fn fnv(h: u64, data: Seq<u8>) -> u64
    decreases data.len(),
{
    if data.len() == 0 {
        h
    } else {
        fnv(stir(h, data[0]), data.drop_first())
    }
}

/// The fingerprint after numbers, each in eight bytes, little end first.
pub open spec fn fnv_numbers(h: u64, values: Seq<u64>) -> u64
    decreases values.len(),
{
    if values.len() == 0 {
        h
    } else {
        fnv_numbers(fnv(h, binary::bytes(values[0] as nat, 8)), values.drop_first())
    }
}

/// The best price of a side; zero without orders.
pub open spec fn best_price(orders: Seq<RestingOrder>) -> u64 {
    if orders.len() > 0 {
        orders[0].price as u64
    } else {
        0
    }
}

/// The quantity at the best price of a side; zero without orders.
pub open spec fn best_quantity(orders: Seq<RestingOrder>) -> u64 {
    if orders.len() > 0 {
        model::total(model::at_price(orders, orders[0].price)) as u64
    } else {
        0
    }
}

/// The identifier of the order that trades first on a side; zero without orders.
pub open spec fn best_front(orders: Seq<RestingOrder>) -> u64 {
    if orders.len() > 0 {
        orders[0].id
    } else {
        0
    }
}

/// What is recorded of a book: trades and volume, the best prices, the numbers of prices in use,
/// and the quantities at the best prices and the orders that trade first.
pub open spec fn observed(book: BookView) -> Seq<u64> {
    seq![
        book.trades as u64,
        book.volume as u64,
        best_price(book.bids),
        best_price(book.asks),
        (model::prices(book.bids).len() * 0x1_0000_0000 + model::prices(book.asks).len()) as u64,
        best_quantity(book.bids),
        best_quantity(book.asks),
        best_front(book.bids),
        best_front(book.asks),
    ]
}

/// The fingerprint of all states that a fresh book goes through.
pub open spec fn trace(orders: Seq<Order>) -> u64
    decreases orders.len(),
{
    if orders.len() == 0 {
        FNV_BASIS
    } else {
        fnv_numbers(
            trace(orders.drop_last()),
            observed(replay::accept(BookView::empty(None), orders)),
        )
    }
}

/// The fingerprint after a number in eight bytes, little end first.
fn mix(h: u64, v: u64) -> (mixed: u64)
    ensures
        mixed == fnv(h, binary::bytes(v as nat, 8)),
{
    let mut g: u64 = h;
    let mut rest: u64 = v;
    let mut i: u64 = 0;
    while i < 8
        invariant
            i <= 8,
            fnv(h, binary::bytes(v as nat, 8)) == fnv(
                g,
                binary::bytes(rest as nat, (8 - i) as nat),
            ),
        decreases 8 - i,
    {
        proof {
            let data = binary::bytes(rest as nat, (8 - i) as nat);
            assert(data[0] == (rest % 256) as u8);
            assert(data.drop_first() =~= binary::bytes((rest / 256) as nat, (7 - i) as nat));
        }
        g = (g ^ (rest % 256)).wrapping_mul(FNV_PRIME);
        rest = rest / 256;
        i = i + 1;
    }
    g
}

/// The order that trades first is the first one at the best price.
proof fn lemma_first_at_best(orders: Seq<RestingOrder>)
    requires
        orders.len() > 0,
    ensures
        model::at_price(orders, orders[0].price).len() > 0,
        model::at_price(orders, orders[0].price)[0] == orders[0],
{
    let pred = |o: RestingOrder| o.price == orders[0].price;
    let first = seq![orders[0]];
    assert(orders =~= first + orders.drop_first());
    Seq::filter_distributes_over_add(first, orders.drop_first(), pred);
    levels::lemma_filter_all(first, pred);
}

/// What is recorded of a book.
fn observe(book: &OrderBook) -> (values: Vec<u64>)
    requires
        book.wf(),
    ensures
        values@ == observed(book@),
{
    let (trades, volume) = book.totals();
    let bid: Option<u64> = book.best_bid();
    let ask: Option<u64> = book.best_ask();
    let bids: usize = book.bid_levels();
    let asks: usize = book.ask_levels();
    let (bid_price, bid_quantity, bid_front): (u64, u64, u64) = match bid {
        None => (0, 0, 0),
        Some(p) => {
            proof {
                lemma_first_at_best(book@.bids);
            }
            let front: u64 = match book.front_order_id(Side::Buy, p) {
                Some(id) => id,
                None => 0,
            };
            (p, book.level_qty(Side::Buy, p), front)
        },
    };
    let (ask_price, ask_quantity, ask_front): (u64, u64, u64) = match ask {
        None => (0, 0, 0),
        Some(p) => {
            proof {
                lemma_first_at_best(book@.asks);
            }
            let front: u64 = match book.front_order_id(Side::Sell, p) {
                Some(id) => id,
                None => 0,
            };
            (p, book.level_qty(Side::Sell, p), front)
        },
    };
    let values: Vec<u64> = vec![
        trades,
        volume,
        bid_price,
        ask_price,
        (bids as u64) * 0x1_0000_0000 + asks as u64,
        bid_quantity,
        ask_quantity,
        bid_front,
        ask_front,
    ];
    assert(values@ =~= observed(book@));
    values
}

/// The fingerprint after what is recorded of a book.
fn mix_all(h: u64, values: &Vec<u64>) -> (mixed: u64)
    ensures
        mixed == fnv_numbers(h, values@),
{
    let mut g: u64 = h;
    let mut i: usize = 0;
    assert(values@.skip(0) =~= values@);
    while i < values.len()
        invariant
            i <= values@.len(),
            fnv_numbers(h, values@) == fnv_numbers(g, values@.skip(i as int)),
        decreases values@.len() - i,
    {
        assert(values@.skip(i as int).drop_first() =~= values@.skip(i + 1));
        g = mix(g, values[i]);
        i = i + 1;
    }
    g
}

/// The order slots of a fresh book.
pub open spec fn fresh_slots(capacity: usize) -> int {
    if capacity < 64 {
        64
    } else {
        capacity as int
    }
}

/// The fingerprint of all states that a fresh book with room for `n` orders goes through, if it can
/// handle all orders within the machine's number ranges.
pub fn try_trace_hash(orders: &[Order], n: usize) -> (h: Option<u64>)
    ensures
        h == (if n <= u32::MAX && replay::handled(
            BookView::empty(None),
            fresh_slots(n),
            orders@,
        ) == orders@.len() {
            Some(trace(orders@))
        } else {
            None
        }),
{
    if n as u64 > u32::MAX as u64 {
        return None;
    }
    let mut book = OrderBook::with_capacity(n);
    let ghost start = book;
    let mut h: u64 = FNV_BASIS;
    let mut i: usize = 0;
    while i < orders.len()
        invariant
            n <= u32::MAX,
            start@ == BookView::empty(None),
            start.capacity() == fresh_slots(n),
            book.wf(),
            i <= orders@.len(),
            replay::handled(start@, start.capacity() as int, orders@.take(i as int)) == i,
            book@ == replay::accept(start@, orders@.take(i as int)),
            book.capacity() == replay::slots(
                start@,
                start.capacity() as int,
                orders@.take(i as int),
            ),
            h == trace(orders@.take(i as int)),
        decreases orders@.len() - i,
    {
        if !replay::submit_next(
            &mut book,
            orders[i],
            Ghost(start),
            Ghost(orders@),
            Ghost(i as int),
        ) {
            return None;
        }
        assert(orders@.take(i + 1).drop_last() =~= orders@.take(i as int));
        let values: Vec<u64> = observe(&book);
        h = mix_all(h, &values);
        i = i + 1;
    }
    assert(orders@.take(i as int) =~= orders@);
    Some(h)
}

/// The fingerprint of all states that a fresh book with room for `n` orders goes through.
pub fn trace_hash(orders: &[Order], n: usize) -> (h: u64)
    requires
        n <= u32::MAX,
        replay::handled(BookView::empty(None), fresh_slots(n), orders@) == orders@.len(),
    ensures
        h == trace(orders@),
{
    match try_trace_hash(orders, n) {
        Some(h) => h,
        None => 0,
    }
}

/// A fingerprint does not depend on the room that the book has at first: up to 2147483648 orders
/// whose quantities sum up to no more than 64 bits hold have it whatever that room is.
pub proof fn law_fingerprint_does_not_depend_on_the_room(orders: Seq<Order>, n: usize)
    requires
        orders.len() <= 0x8000_0000,
        replay::quantities(orders) <= u64::MAX,
    ensures
        replay::handled(BookView::empty(None), fresh_slots(n), orders) == orders.len(),
{
    replay::law_moderate_orders_are_handled(None, fresh_slots(n), orders);
}

/// Up to 2147483648 generated orders can be handed to a fresh book of any size.
pub proof fn law_generated_orders_are_handled(n: nat, seed: u64, capacity: usize)
    requires
        n <= 0x8000_0000,
    ensures
        replay::handled(
            BookView::empty(None),
            fresh_slots(capacity),
            Seq::new(n, |i: int| generator::order_at(seed, i)),
        ) == n,
{
    lemma_generated_quantities(n, seed);
    replay::law_moderate_orders_are_handled(
        None,
        fresh_slots(capacity),
        Seq::new(n, |i: int| generator::order_at(seed, i)),
    );
}

proof fn lemma_generated_quantities(n: nat, seed: u64)
    ensures
        replay::quantities(Seq::new(n, |i: int| generator::order_at(seed, i))) <= 100 * n,
    decreases n,
{
    let orders = Seq::new(n, |i: int| generator::order_at(seed, i));
    if n > 0 {
        lemma_generated_quantities((n - 1) as nat, seed);
        assert(orders.drop_last() =~= Seq::new(
            (n - 1) as nat,
            |i: int| generator::order_at(seed, i),
        ));
    }
}

/// The first position at or behind `i` with an argument `name`; the length if there is none.
pub open spec fn argument(args: Seq<String>, name: Seq<char>, i: int) -> int
    decreases args.len() - i,
{
    if 0 <= i < args.len() {
        if args[i]@ == name {
            i
        } else {
            argument(args, name, i + 1)
        }
    } else {
        args.len() as int
    }
}

/// The value of an option on the command line: the argument behind the first one that is its name.
pub fn arg_val(args: &[String], name: &str) -> (value: Option<String>)
    ensures
        ({
            let i = argument(args@, name@, 0);
            match value {
                Some(v) => i + 1 < args@.len() && v@ == args@[i + 1]@,
                None => i + 1 >= args@.len(),
            }
        }),
{
    let mut i: usize = 0;
    while i < args.len()
        invariant
            i <= args@.len(),
            argument(args@, name@, 0) == argument(args@, name@, i as int),
        decreases args@.len() - i,
    {
        proof {
            vstd::utf8::encode_utf8_decode_utf8(args@[i as int]@);
            vstd::utf8::encode_utf8_decode_utf8(name@);
        }
        if text::same_bytes(args[i].as_str().as_bytes(), name.as_bytes()) {
            if i + 1 < args.len() {
                return Some(args[i + 1].clone());
            }
            return None;
        }
        i = i + 1;
    }
    None
}

/// How many books one measurement fills with `n` orders each: about 20 000 orders in all, but no
/// more than 250 books.
pub fn books_per_iter(n: usize) -> (k: usize)
    requires
        n > 0,
    ensures
        n >= 20_000 ==> k == 1,
        n < 20_000 ==> k == (if 20_000usize / n > 250 {
            250
        } else {
            20_000usize / n
        }),
        1 <= k <= 250,
        n >= 20_000 || k == 250 || k * n <= 20_000 < (k + 1) * n,
        n < 20_000 && k == 250 ==> 250 * n <= 20_000,
{
    if n >= 20_000 {
        1
    } else {
        let k: usize = 20_000 / n;
        assert(k >= 1 && k * n <= 20_000 && 20_000 < (k + 1) * n) by (nonlinear_arith)
            requires
                0 < n < 20_000,
                k == 20_000usize / n,
        ;
        assert(k >= 250 ==> 250 * n <= k * n) by (nonlinear_arith)
            requires
                0 < n,
        ;
        if k > 250 {
            250
        } else {
            k
        }
    }
}

/// Where the median, the 95th and the 99th percentile stand among `n` sorted measurements.
pub fn ranks(n: usize) -> (r: (usize, usize, usize))
    requires
        0 < n,
        n * 99 <= usize::MAX,
    ensures
        r.0 == n / 2,
        r.1 == n * 95 / 100,
        r.2 == n * 99 / 100,
        r.0 <= r.1 <= r.2 < n,
        2 * r.0 <= n < 2 * (r.0 + 1),
        100 * r.1 <= 95 * n < 100 * (r.1 + 1),
        100 * r.2 <= 99 * n < 100 * (r.2 + 1),
{
    (n / 2, n * 95 / 100, n * 99 / 100)
}

} // verus!
