use matching_engine::bench::{arg_val, books_per_iter, ranks, trace_hash, try_trace_hash};
use matching_engine::generator::generate_orders;
use matching_engine::types::{Order, Side};

fn args(list: &[&str]) -> Vec<String> {
    list.iter().map(|s| s.to_string()).collect()
}

fn fnv(values: &[u64]) -> u64 {
    let mut h: u64 = 14695981039346656037;
    for v in values {
        for b in v.to_le_bytes() {
            h = (h ^ b as u64).wrapping_mul(1099511628211);
        }
    }
    h
}

#[test]
fn trace_of_no_orders() {
    assert_eq!(trace_hash(&[], 10), 14695981039346656037);
}

#[test]
fn trace_records_every_state() {
    let orders = [
        Order { id: 5, price: 100, quantity: 10, side: Side::Sell },
        Order { id: 6, price: 100, quantity: 4, side: Side::Buy },
        Order { id: 7, price: 99, quantity: 2, side: Side::Buy },
    ];
    assert_eq!(
        trace_hash(&orders, 3),
        fnv(&[
            0, 0, 0, 100, 1, 0, 10, 0, 5, //
            1, 4, 0, 100, 1, 0, 6, 0, 5, //
            1, 4, 99, 100, (1 << 32) | 1, 2, 6, 7, 5,
        ])
    );
}

#[test]
fn trace_is_reproducible() {
    let orders = generate_orders(2_000, 0xDEADBEEFCAFE1234);
    assert_eq!(trace_hash(&orders, 2_000), trace_hash(&orders, 64));
    assert_ne!(trace_hash(&orders, 2_000), trace_hash(&orders[..1_999], 2_000));
}

#[test]
fn trace_that_does_not_fit() {
    let orders = [
        Order { id: 1, price: 100, quantity: u64::MAX, side: Side::Sell },
        Order { id: 2, price: 100, quantity: 1, side: Side::Sell },
    ];
    assert_eq!(try_trace_hash(&orders, 2), None);
    assert!(try_trace_hash(&orders[..1], 2).is_some());
    assert_eq!(try_trace_hash(&orders[..1], 1 << 40), None);
}

#[test]
fn option_values() {
    let a = args(&["prog", "--iters", "7", "--seed", "FF", "--iters", "9", "--orders"]);
    assert_eq!(arg_val(&a, "--iters"), Some("7".to_string()));
    assert_eq!(arg_val(&a, "--seed"), Some("FF".to_string()));
    assert_eq!(arg_val(&a, "--orders"), None);
    assert_eq!(arg_val(&a, "--json"), None);
    assert_eq!(arg_val(&[], "--json"), None);
}

#[test]
fn books_of_a_measurement() {
    assert_eq!(books_per_iter(1), 250);
    assert_eq!(books_per_iter(80), 250);
    assert_eq!(books_per_iter(81), 246);
    assert_eq!(books_per_iter(10_001), 1);
    assert_eq!(books_per_iter(10_000), 2);
    assert_eq!(books_per_iter(19_999), 1);
    assert_eq!(books_per_iter(20_000), 1);
    assert_eq!(books_per_iter(1_000_000), 1);
}

#[test]
fn ranks_of_percentiles() {
    assert_eq!(ranks(1), (0, 0, 0));
    assert_eq!(ranks(51), (25, 48, 50));
    assert_eq!(ranks(100), (50, 95, 99));
}
