use matching_engine::orderbook::{Fill, OrderBook, SubmitError, BAND, BAND_BITS};
use matching_engine::replay::replay;
use matching_engine::types::{Order, Side};

fn buy(id: u64, price: u64, quantity: u64) -> Order {
    Order { id, price, quantity, side: Side::Buy }
}

fn sell(id: u64, price: u64, quantity: u64) -> Order {
    Order { id, price, quantity, side: Side::Sell }
}

fn resting_quantity(book: &OrderBook, prices: std::ops::Range<u64>) -> u64 {
    let mut sum = 0;
    for p in prices {
        sum += book.level_qty(Side::Buy, p) + book.level_qty(Side::Sell, p);
    }
    sum
}

#[test]
fn band_is_a_power_of_two() {
    assert_eq!(BAND, 1 << BAND_BITS);
    assert_eq!(BAND, 8192);
}

#[test]
fn fill_tells_what_became_of_an_order() {
    let mut ob = OrderBook::new(64, 10_000);
    assert_eq!(
        ob.submit(1, 10_000, 10, Side::Sell),
        Ok(Fill { trades: 0, filled: 0, resting: 10 })
    );
    assert_eq!(ob.submit(2, 10_000, 4, Side::Buy), Ok(Fill { trades: 1, filled: 4, resting: 0 }));
    assert_eq!(
        ob.submit(3, 10_001, 9, Side::Buy),
        Ok(Fill { trades: 1, filled: 6, resting: 3 })
    );
    assert_eq!(Fill::default(), Fill { trades: 0, filled: 0, resting: 0 });
}

#[test]
fn partly_taken_order_keeps_its_place() {
    let mut ob = OrderBook::with_capacity(64);
    ob.process_order(buy(1, 700, 5));
    ob.process_order(buy(2, 700, 5));
    ob.process_order(sell(3, 700, 2));
    assert_eq!(ob.front_order_id(Side::Buy, 700), Some(1));
    assert_eq!(ob.level_qty(Side::Buy, 700), 8);
    ob.process_order(sell(4, 700, 3));
    assert_eq!(ob.front_order_id(Side::Buy, 700), Some(2));
    assert_eq!(ob.level_orders(Side::Buy, 700), 1);
}

#[test]
fn newcomer_is_last_at_its_price() {
    let mut ob = OrderBook::with_capacity(64);
    ob.process_order(sell(1, 100, 1));
    ob.process_order(sell(2, 101, 1));
    ob.process_order(sell(3, 100, 1));
    assert_eq!(ob.front_order_id(Side::Sell, 100), Some(1));
    ob.process_order(buy(4, 100, 1));
    assert_eq!(ob.front_order_id(Side::Sell, 100), Some(3));
    assert_eq!(ob.front_order_id(Side::Sell, 101), Some(2));
}

#[test]
fn sellers_sweep_the_highest_bids_first() {
    let mut ob = OrderBook::with_capacity(64);
    ob.process_order(buy(1, 95, 5));
    ob.process_order(buy(2, 99, 5));
    ob.process_order(buy(3, 97, 5));
    assert_eq!(ob.best_bid(), Some(99));
    ob.process_order(sell(4, 96, 12));
    assert_eq!(ob.matched_volume, 10);
    assert_eq!(ob.trades_count, 2);
    assert_eq!(ob.best_bid(), Some(95));
    assert_eq!(ob.best_ask(), Some(96));
    assert_eq!(ob.level_qty(Side::Sell, 96), 2);
}

#[test]
fn quantity_is_conserved() {
    let mut ob = OrderBook::with_capacity(64);
    let orders = [
        buy(1, 100, 7),
        sell(2, 101, 9),
        buy(3, 101, 12),
        sell(4, 99, 8),
        sell(5, 105, 0),
        buy(6, 104, 3),
    ];
    let mut accepted = 0;
    for o in orders {
        if ob.submit(o.id, o.price, o.quantity, o.side).is_ok() {
            accepted += o.quantity;
        }
        assert_eq!(resting_quantity(&ob, 90..110) + 2 * ob.matched_volume, accepted);
    }
    assert_eq!(ob.rejected, 1);
}

#[test]
fn refused_order_changes_nothing_else() {
    let mut ob = OrderBook::new(64, 10_000);
    ob.process_order(buy(1, 10_000, 5));
    assert_eq!(ob.submit(2, 10_000, 0, Side::Sell), Err(SubmitError::ZeroQuantity));
    assert_eq!(ob.submit(3, 1, 5, Side::Sell), Err(SubmitError::PriceOutOfBand));
    assert_eq!(ob.rejected, 2);
    assert_eq!(ob.trades_count, 0);
    assert_eq!(ob.matched_volume, 0);
    assert_eq!(ob.level_qty(Side::Buy, 10_000), 5);
    assert_eq!(ob.resting_orders(), 1);
}

#[test]
fn band_reaches_from_its_base_to_its_width() {
    let mut ob = OrderBook::new(64, 10_000);
    let base = 10_000 - BAND as u64 / 2;
    assert!(ob.submit(1, base, 1, Side::Buy).is_ok());
    assert!(ob.submit(2, base + BAND as u64 - 1, 1, Side::Sell).is_ok());
    assert_eq!(ob.submit(3, base - 1, 1, Side::Buy), Err(SubmitError::PriceOutOfBand));
    assert_eq!(
        ob.submit(4, base + BAND as u64, 1, Side::Sell),
        Err(SubmitError::PriceOutOfBand)
    );
    assert_eq!(ob.best_bid(), Some(base));
    assert_eq!(ob.best_ask(), Some(base + BAND as u64 - 1));
    assert_eq!(ob.level_qty(Side::Buy, base - 1), 0);
    assert_eq!(ob.level_orders(Side::Buy, base - 1), 0);
    assert_eq!(ob.front_order_id(Side::Buy, base - 1), None);
}

#[test]
fn first_order_centres_the_band() {
    let mut ob = OrderBook::with_capacity(64);
    assert!(ob.submit(1, 5_000, 1, Side::Buy).is_ok());
    assert!(ob.submit(2, 9_000, 1, Side::Sell).is_ok());
    assert_eq!(ob.submit(3, 100, 1, Side::Buy), Err(SubmitError::PriceOutOfBand));
}

#[test]
fn band_at_the_end_of_the_price_range() {
    let mut ob = OrderBook::with_capacity(64);
    assert!(ob.submit(1, u64::MAX, 2, Side::Sell).is_ok());
    assert_eq!(ob.best_ask(), Some(u64::MAX));
    assert_eq!(ob.submit(2, 0, 1, Side::Buy), Err(SubmitError::PriceOutOfBand));
    assert!(ob.submit(3, u64::MAX, 2, Side::Buy).is_ok());
    assert_eq!(ob.matched_volume, 2);
    assert!(ob.submit(4, 0, 1, Side::Buy).is_ok());
    assert_eq!(ob.best_bid(), Some(0));
}

#[test]
fn taker_may_be_split() {
    let mut whole = OrderBook::with_capacity(64);
    let mut parts = OrderBook::with_capacity(64);
    for o in [sell(1, 100, 4), sell(2, 100, 4), sell(3, 102, 4)] {
        whole.process_order(o);
        parts.process_order(o);
    }
    whole.process_order(buy(4, 102, 10));
    parts.process_order(buy(5, 102, 6));
    parts.process_order(buy(6, 102, 4));
    assert_eq!(whole.matched_volume, parts.matched_volume);
    assert_eq!(whole.level_qty(Side::Sell, 102), 2);
    assert_eq!(parts.level_qty(Side::Sell, 102), 2);
    assert_eq!(whole.trades_count, 3);
    assert_eq!(parts.trades_count, 4);
}

#[test]
fn sides_mirror_each_other() {
    let mut up = OrderBook::new(64, 10_000);
    let mut down = OrderBook::new(64, 10_000);
    for (id, offset, quantity) in [(1, 3, 5), (2, 1, 5), (3, 2, 5)] {
        up.process_order(sell(id, 10_000 + offset, quantity));
        down.process_order(buy(id, 10_000 - offset, quantity));
    }
    up.process_order(buy(4, 10_002, 7));
    down.process_order(sell(4, 10_000 - 2, 7));
    assert_eq!(up.matched_volume, down.matched_volume);
    assert_eq!(up.best_ask(), Some(10_002));
    assert_eq!(down.best_bid(), Some(9_998));
    assert_eq!(up.level_qty(Side::Sell, 10_002), down.level_qty(Side::Buy, 9_998));
}

#[test]
fn slots_are_used_again() {
    let mut ob = OrderBook::new(64, 10_000);
    for round in 0..1_000u64 {
        ob.process_order(buy(2 * round, 10_000 - round % 7, 3));
        ob.process_order(sell(2 * round + 1, 9_990, 3));
    }
    assert_eq!(ob.resting_orders(), 0);
    assert_eq!(ob.matched_volume, 3_000);
    assert_eq!(ob.trades_count, 1_000);
}

#[test]
fn levels_far_apart_are_found() {
    let mut ob = OrderBook::new(64, 10_000);
    ob.process_order(sell(1, 14_000, 1));
    ob.process_order(sell(2, 6_000, 1));
    ob.process_order(sell(3, 10_000, 1));
    assert_eq!(ob.ask_levels(), 3);
    assert_eq!(ob.best_ask(), Some(6_000));
    ob.process_order(buy(4, 6_000, 1));
    assert_eq!(ob.best_ask(), Some(10_000));
    ob.process_order(buy(5, 13_000, 1));
    assert_eq!(ob.best_ask(), Some(14_000));
    assert_eq!(ob.ask_levels(), 1);
}

#[test]
fn reset_forgets_the_band() {
    let mut ob = OrderBook::new(64, 10_000);
    ob.process_order(buy(1, 10_000, 5));
    ob.process_order(sell(2, 10_000, 3));
    assert!(ob.submit(3, 1_000_000, 1, Side::Buy).is_err());
    ob.reset();
    assert_eq!(ob.rejected, 0);
    assert_eq!(ob.trades_count, 0);
    assert!(ob.submit(4, 1_000_000, 1, Side::Buy).is_ok());
    assert_eq!(ob.best_bid(), Some(1_000_000));
}

#[test]
fn fits_sees_the_end_of_the_number_range() {
    let mut ob = OrderBook::new(64, 10_000);
    assert!(ob.fits(10_000, u64::MAX, Side::Buy));
    ob.process_order(buy(1, 10_000, u64::MAX));
    assert!(!ob.fits(10_000, 1, Side::Buy));
    assert!(ob.fits(10_001, 1, Side::Buy));
    assert!(ob.fits(10_000, 1, Side::Sell));
    ob.process_order(sell(2, 10_000, 10));
    assert!(ob.fits(10_000, 10, Side::Buy));
    assert!(!ob.fits(10_000, 11, Side::Buy));
    assert!(ob.fits(10_000, u64::MAX - 10, Side::Sell));
    assert!(ob.fits(10_000, 0, Side::Sell));
}

#[test]
fn volume_that_would_overflow_does_not_fit() {
    let mut ob = OrderBook::new(64, 10_000);
    ob.process_order(buy(1, 10_000, u64::MAX));
    ob.process_order(sell(2, 10_000, u64::MAX));
    assert_eq!(ob.totals(), (1, u64::MAX));
    ob.process_order(buy(3, 10_000, 1));
    assert!(!ob.fits(10_000, 1, Side::Sell));
    assert!(ob.fits(10_001, 1, Side::Sell));
    assert_eq!(ob.refused(), 0);
}

#[test]
fn replay_stops_at_an_order_that_does_not_fit() {
    let mut ob = OrderBook::new(64, 10_000);
    let orders = [buy(1, 10_000, u64::MAX), buy(2, 10_000, 1), buy(3, 10_001, 1)];
    assert_eq!(replay(&mut ob, &orders), 1);
    assert_eq!(ob.resting_orders(), 1);
    assert_eq!(replay(&mut ob, &orders[2..]), 1);
    assert_eq!(ob.resting_orders(), 2);
}

#[test]
fn replay_in_parts_is_replay() {
    let orders = matching_engine::generator::generate_orders(500, 42);
    let mut whole = OrderBook::with_capacity(64);
    let mut parts = OrderBook::with_capacity(64);
    assert_eq!(replay(&mut whole, &orders), 500);
    assert_eq!(replay(&mut parts, &orders[..123]), 123);
    assert_eq!(replay(&mut parts, &orders[123..]), 377);
    assert_eq!(whole.totals(), parts.totals());
    assert_eq!(whole.best_bid(), parts.best_bid());
    assert_eq!(whole.best_ask(), parts.best_ask());
    assert_eq!(whole.resting_orders(), parts.resting_orders());
}

#[test]
fn book_is_never_crossed() {
    let orders = matching_engine::generator::generate_orders(2_000, 7);
    let mut ob = OrderBook::with_capacity(64);
    for o in orders {
        ob.process_order(o);
        if let (Some(b), Some(a)) = (ob.best_bid(), ob.best_ask()) {
            assert!(b < a);
        }
    }
}

#[test]
fn histories_mirror_each_other() {
    let mut a = OrderBook::new(64, 10_000);
    let mut b = OrderBook::new(64, 10_000);
    for o in matching_engine::generator::generate_orders(1_000, 11) {
        let turned = match o.side {
            Side::Buy => Side::Sell,
            Side::Sell => Side::Buy,
        };
        assert_eq!(
            a.submit(o.id, o.price, o.quantity, o.side),
            b.submit(o.id, 19_999 - o.price, o.quantity, turned)
        );
        assert_eq!(b.best_bid(), a.best_ask().map(|p| 19_999 - p));
        assert_eq!(b.best_ask(), a.best_bid().map(|p| 19_999 - p));
        assert_eq!(b.bid_levels(), a.ask_levels());
        assert_eq!(b.ask_levels(), a.bid_levels());
        assert_eq!(b.level_qty(Side::Sell, 9_999), a.level_qty(Side::Buy, 10_000));
    }
}

#[test]
fn first_order_is_taken_at_any_price() {
    for p in [0, 1, 4_095, 4_096, 10_000, u64::MAX] {
        let mut ob = OrderBook::with_capacity(0);
        assert!(ob.fits(p, u64::MAX, Side::Buy));
        assert_eq!(
            ob.submit(1, p, u64::MAX, Side::Buy),
            Ok(Fill { trades: 0, filled: 0, resting: u64::MAX })
        );
        let base = p.saturating_sub(4_096);
        if let Some(top) = base.checked_add(8_191) {
            assert!(ob.submit(2, top, 1, Side::Sell).is_ok());
            if let Some(over) = top.checked_add(1) {
                assert_eq!(
                    ob.submit(3, over, 1, Side::Sell),
                    Err(SubmitError::PriceOutOfBand)
                );
            }
        }
        if base > 0 {
            assert_eq!(ob.submit(4, base - 1, 1, Side::Buy), Err(SubmitError::PriceOutOfBand));
        }
    }
}

#[test]
fn reset_book_is_like_a_fresh_one() {
    let mut used = OrderBook::with_capacity(64);
    for i in 0..300 {
        used.process_order(buy(i, 500 + i % 9, 2));
    }
    used.reset();
    let mut fresh = OrderBook::with_capacity(64);
    for o in matching_engine::generator::generate_orders(1_000, 5) {
        assert_eq!(
            used.submit(o.id, o.price, o.quantity, o.side),
            fresh.submit(o.id, o.price, o.quantity, o.side)
        );
        assert_eq!(used.totals(), fresh.totals());
        assert_eq!(used.best_bid(), fresh.best_bid());
        assert_eq!(used.best_ask(), fresh.best_ask());
        assert_eq!(used.resting_orders(), fresh.resting_orders());
    }
}

#[test]
fn moderate_orders_are_handled() {
    let orders = matching_engine::generator::generate_orders(5_000, 8);
    let mut ob = OrderBook::with_capacity(1);
    assert_eq!(replay(&mut ob, &orders), 5_000);
}
