use matching_engine::generator::generate_orders;
use matching_engine::orderbook::{OrderBook, SubmitError, BAND};
use matching_engine::types::{Order, Side};

#[test]
fn test_matching_logic() {
    let mut ob = OrderBook::with_capacity(100);

    // A sell order of 10 at 100 comes to rest.
    ob.process_order(Order { id: 1, price: 100, quantity: 10, side: Side::Sell });
    assert_eq!(ob.ask_levels(), 1);
    assert_eq!(ob.level_qty(Side::Sell, 100), 10);
    assert_eq!(ob.best_ask(), Some(100));

    // A buy order of 6 at 100 takes a part of it.
    ob.process_order(Order { id: 2, price: 100, quantity: 6, side: Side::Buy });
    assert_eq!(ob.trades_count, 1);
    assert_eq!(ob.matched_volume, 6);
    assert_eq!(ob.level_qty(Side::Sell, 100), 4);

    // A buy order of 10 at 101 takes the rest, and 6 of it come to rest.
    ob.process_order(Order { id: 3, price: 101, quantity: 10, side: Side::Buy });
    assert_eq!(ob.trades_count, 2);
    assert_eq!(ob.matched_volume, 10);
    assert_eq!(ob.ask_levels(), 0);
    assert_eq!(ob.bid_levels(), 1);
    assert_eq!(ob.best_bid(), Some(101));
    assert_eq!(ob.level_qty(Side::Buy, 101), 6);
}

#[test]
fn test_price_time_priority() {
    let mut ob = OrderBook::with_capacity(64);
    // Three sell orders at one price trade in the order in which they came.
    ob.process_order(Order { id: 10, price: 500, quantity: 5, side: Side::Sell });
    ob.process_order(Order { id: 11, price: 500, quantity: 5, side: Side::Sell });
    ob.process_order(Order { id: 12, price: 500, quantity: 5, side: Side::Sell });
    assert_eq!(ob.level_orders(Side::Sell, 500), 3);
    assert_eq!(ob.front_order_id(Side::Sell, 500), Some(10));

    ob.process_order(Order { id: 13, price: 500, quantity: 5, side: Side::Buy });
    assert_eq!(ob.front_order_id(Side::Sell, 500), Some(11));
    assert_eq!(ob.level_orders(Side::Sell, 500), 2);
}

#[test]
fn test_price_priority_across_levels() {
    let mut ob = OrderBook::with_capacity(64);
    ob.process_order(Order { id: 1, price: 105, quantity: 5, side: Side::Sell });
    ob.process_order(Order { id: 2, price: 101, quantity: 5, side: Side::Sell });
    ob.process_order(Order { id: 3, price: 103, quantity: 5, side: Side::Sell });
    // The cheapest sell order is the best.
    assert_eq!(ob.best_ask(), Some(101));

    // The taker sweeps 101 and 103 but leaves 105 alone.
    ob.process_order(Order { id: 4, price: 104, quantity: 10, side: Side::Buy });
    assert_eq!(ob.matched_volume, 10);
    assert_eq!(ob.best_ask(), Some(105));
    assert_eq!(ob.bid_levels(), 0);
}

#[test]
fn test_out_of_band_is_rejected_not_corrupting() {
    let mut ob = OrderBook::new(64, 10_000);
    assert_eq!(ob.submit(1, 10_000, 0, Side::Buy), Err(SubmitError::ZeroQuantity));
    assert_eq!(ob.rejected, 1);

    // With an order in it the book holds on to its band.
    assert!(ob.submit(2, 10_000, 7, Side::Buy).is_ok());
    assert_eq!(ob.best_bid(), Some(10_000));

    // A price outside the band is refused.
    let far = 10_000 + BAND as u64;
    assert_eq!(ob.submit(3, far, 10, Side::Buy), Err(SubmitError::PriceOutOfBand));
    assert_eq!(ob.rejected, 2);
    // The book is as it was.
    assert_eq!(ob.best_bid(), Some(10_000));
    assert_eq!(ob.resting_orders(), 1);
}

#[test]
fn test_rebase_on_empty_book() {
    // The band of an empty book follows the market.
    let mut ob = OrderBook::with_capacity(64);
    assert!(ob.submit(1, 100, 5, Side::Sell).is_ok());
    assert_eq!(ob.best_ask(), Some(100));
    ob.submit(2, 100, 5, Side::Buy).unwrap();
    assert_eq!(ob.ask_levels(), 0);
    // The book is empty, so the band moves to quite another range of prices.
    assert!(ob.submit(3, 5_000_000, 5, Side::Sell).is_ok());
    assert_eq!(ob.best_ask(), Some(5_000_000));
    assert_eq!(ob.rejected, 0);
}

#[test]
fn test_arena_growth_beyond_capacity() {
    // More orders rest than the book has slots for at first.
    let mut ob = OrderBook::new(64, 1_000);
    for i in 0..500u64 {
        ob.process_order(Order {
            id: i + 1,
            price: 1_000 + (i % 50),
            quantity: 3,
            side: Side::Buy,
        });
    }
    assert_eq!(ob.resting_orders(), 500);
    assert_eq!(ob.trades_count, 0);
    assert_eq!(ob.best_bid(), Some(1_049));
    // One sell order sweeps them all.
    ob.process_order(Order { id: 9_999, price: 1_000, quantity: 1_500, side: Side::Sell });
    assert_eq!(ob.matched_volume, 1_500);
    assert_eq!(ob.resting_orders(), 0);
}

#[test]
fn test_reset_is_clean_and_reusable() {
    let mut ob = OrderBook::with_capacity(1024);
    for i in 0..100u64 {
        ob.process_order(Order {
            id: i,
            price: 9_990 + (i % 20),
            quantity: 4,
            side: Side::Buy,
        });
    }
    ob.reset();
    assert_eq!(ob.trades_count, 0);
    assert_eq!(ob.matched_volume, 0);
    assert_eq!(ob.bid_levels(), 0);
    assert_eq!(ob.ask_levels(), 0);
    assert_eq!(ob.resting_orders(), 0);
    assert_eq!(ob.best_bid(), None);
    assert_eq!(ob.best_ask(), None);
    // The book works after a reset.
    ob.process_order(Order { id: 1, price: 10_000, quantity: 1, side: Side::Sell });
    assert_eq!(ob.best_ask(), Some(10_000));
}

#[test]
fn test_determinism_100k() {
    const SEED: u64 = 0xDEADBEEFCAFE1234;
    const N: usize = 100_000;

    let orders = generate_orders(N, SEED);
    let mut ob = OrderBook::with_capacity(N + 64);

    for order in orders {
        ob.process_order(order);
    }

    assert_eq!(ob.trades_count, 77_576);
    assert_eq!(ob.matched_volume, 1_973_216);
    assert_eq!(ob.bid_levels(), 55);
    assert_eq!(ob.ask_levels(), 50);
    assert_eq!(ob.resting_orders(), 21_620);
    assert_eq!(ob.best_bid(), Some(10_038));
    assert_eq!(ob.best_ask(), Some(10_043));
    assert_eq!(ob.rejected, 0);
}

fn assert_send<T: Send>() {}

#[test]
fn test_book_is_send() {
    assert_send::<OrderBook>();
}
