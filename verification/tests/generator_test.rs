use matching_engine::generator::{generate_orders, Xorshift64};
use matching_engine::types::Side;

#[test]
fn generator_steps() {
    let mut rng = Xorshift64::new(1);
    // 1 ^ (1 << 13) = 0x2001, ^ (>> 7) = 0x2041, ^ (<< 17) = 0x40822041
    assert_eq!(rng.next(), 0x4082_2041);
}

#[test]
fn zero_seed_is_replaced() {
    let mut a = Xorshift64::new(0);
    let mut b = Xorshift64::new(0xDEAD_BEEF_CAFE_1234);
    for _ in 0..10 {
        let v = a.next();
        assert_eq!(v, b.next());
        assert_ne!(v, 0);
    }
}

#[test]
fn different_states_stay_different() {
    let mut a = Xorshift64::new(5);
    let mut b = Xorshift64::new(6);
    for _ in 0..100 {
        assert_ne!(a.next(), b.next());
    }
}

#[test]
fn orders_follow_the_generator() {
    let orders = generate_orders(3, 99);
    let mut rng = Xorshift64::new(99);
    for (i, o) in orders.iter().enumerate() {
        let (r1, r2, r3) = (rng.next(), rng.next(), rng.next());
        assert_eq!(o.id, i as u64 + 1);
        assert_eq!(o.side, if r1 % 2 == 0 { Side::Buy } else { Side::Sell });
        assert_eq!(o.price, 9_900 + r2 % 200);
        assert_eq!(o.quantity, 1 + r3 % 100);
    }
}

#[test]
fn orders_lie_in_their_ranges() {
    for o in generate_orders(1_000, 3) {
        assert!((9_900..10_100).contains(&o.price));
        assert!((1..=100).contains(&o.quantity));
    }
    assert!(generate_orders(0, 3).is_empty());
}
