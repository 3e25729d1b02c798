use matching_engine::wire::{scan_batch, scan_single, scan_u64, write_u64, OrderMsg};

#[test]
fn single_basic() {
    let m = scan_single(br#"{"id":7,"price":10000,"quantity":5,"side":1}"#).unwrap();
    assert_eq!(m, OrderMsg { id: 7, price: 10000, quantity: 5, side: 1 });
}

#[test]
fn single_any_key_order_and_whitespace() {
    let m = scan_single(b"{ \"side\" : 0 , \"quantity\":42,\n\"price\": 99 ,\"id\":3 }").unwrap();
    assert_eq!(m, OrderMsg { id: 3, price: 99, quantity: 42, side: 0 });
}

#[test]
fn single_unknown_key_ignored() {
    let m = scan_single(br#"{"id":1,"symbol":5,"price":10,"quantity":2,"side":0}"#).unwrap();
    assert_eq!(m.price, 10);
}

#[test]
fn single_rejects_malformed() {
    assert!(scan_single(br#"{"id":1,"price":}"#).is_none());
    assert!(scan_single(br#"{"id":1}"#).is_none());
    assert!(scan_single(b"not json").is_none());
    assert!(scan_single(b"{}").is_none());
}

#[test]
fn single_rejects_overflow() {
    assert!(
        scan_single(br#"{"id":1,"price":99999999999999999999999,"quantity":1,"side":0}"#).is_none()
    );
}

#[test]
fn batch_basic() {
    let mut got = Vec::new();
    let n = scan_batch(
        br#"{"orders":[{"id":1,"price":10,"quantity":2,"side":0},{"id":2,"price":11,"quantity":3,"side":1}]}"#,
        &mut got,
    )
    .unwrap();
    assert_eq!(n, 2);
    assert_eq!(got[0].price, 10);
    assert_eq!(got[1].side, 1);
}

#[test]
fn batch_empty_array() {
    let mut got = Vec::new();
    assert_eq!(scan_batch(br#"{"orders":[]}"#, &mut got), Some(0));
    assert!(got.is_empty());
}

#[test]
fn batch_rejects_truncated() {
    let mut got = Vec::new();
    assert!(scan_batch(br#"{"orders":[{"id":1,"price":10,"#, &mut got).is_none());
}

#[test]
fn write_u64_roundtrip() {
    for v in [0u64, 1, 9, 10, 99, 100, 12345, u64::MAX] {
        let mut b = Vec::new();
        write_u64(&mut b, v);
        assert_eq!(String::from_utf8(b).unwrap(), v.to_string());
    }
}

#[test]
fn single_last_member_wins() {
    let m = scan_single(br#"{"price":1,"quantity":2,"side":0,"price":9}"#).unwrap();
    assert_eq!(m, OrderMsg { id: 0, price: 9, quantity: 2, side: 0 });
}

#[test]
fn single_keeps_the_lowest_byte_of_the_side() {
    let m = scan_single(br#"{"id":1,"price":10,"quantity":2,"side":257}"#).unwrap();
    assert_eq!(m.side, 1);
}

#[test]
fn single_ignores_what_follows() {
    let m = scan_single(br#"{"id":1,"price":10,"quantity":2,"side":0} trailing"#).unwrap();
    assert_eq!(m, OrderMsg { id: 1, price: 10, quantity: 2, side: 0 });
}

#[test]
fn single_takes_the_largest_number() {
    let m =
        scan_single(br#"{"id":18446744073709551615,"price":10,"quantity":2,"side":0}"#).unwrap();
    assert_eq!(m.id, u64::MAX);
    assert!(
        scan_single(br#"{"id":18446744073709551616,"price":10,"quantity":2,"side":0}"#).is_none()
    );
}

#[test]
fn single_rejects_signs_and_fractions() {
    assert!(scan_single(br#"{"id":1,"price":-10,"quantity":2,"side":0}"#).is_none());
    assert!(scan_single(br#"{"id":1,"price":1.5,"quantity":2,"side":0}"#).is_none());
    assert!(scan_single(br#"{"id":1,"price":"10","quantity":2,"side":0}"#).is_none());
}

#[test]
fn exchanged_members_give_the_same_order() {
    let a = scan_single(br#"{"id":5,"price":6,"quantity":7,"side":1}"#);
    let b = scan_single(br#"{"id":5,"quantity":7,"price":6,"side":1}"#);
    assert!(a.is_some());
    assert_eq!(a, b);
}

#[test]
fn batch_is_read_in_order() {
    let mut got = Vec::new();
    let body = br#" { "orders" : [ {"id":3,"price":10,"quantity":2,"side":0} , {"id":1,"price":11,"quantity":3,"side":1} ] } "#;
    assert_eq!(scan_batch(body, &mut got), Some(2));
    assert_eq!(got[0], OrderMsg { id: 3, price: 10, quantity: 2, side: 0 });
    assert_eq!(got[1], OrderMsg { id: 1, price: 11, quantity: 3, side: 1 });
}

#[test]
fn batch_appends_what_it_reads() {
    let mut got = vec![OrderMsg { id: 9, price: 9, quantity: 9, side: 9 }];
    let body = br#"{"orders":[{"id":1,"price":10,"quantity":2,"side":0},{"id":2,"price":}]}"#;
    assert_eq!(scan_batch(body, &mut got), None);
    assert_eq!(got.len(), 2);
    assert_eq!(got[1].id, 1);
}

#[test]
fn batch_rejects_other_keys() {
    let mut got = Vec::new();
    assert_eq!(scan_batch(br#"{"order":[]}"#, &mut got), None);
    assert_eq!(scan_batch(b"", &mut got), None);
    assert_eq!(scan_batch(br#"{"orders":{}}"#, &mut got), None);
}

#[test]
fn batch_may_have_several_sections() {
    let mut got = Vec::new();
    let body = br#"{"orders":[{"id":1,"price":10,"quantity":2,"side":0}],"orders":[{"id":2,"price":11,"quantity":3,"side":1}]}"#;
    assert_eq!(scan_batch(body, &mut got), Some(2));
    assert_eq!(got[1].id, 2);
}

#[test]
fn default_message_is_zero() {
    assert_eq!(OrderMsg::default(), OrderMsg { id: 0, price: 0, quantity: 0, side: 0 });
}

#[test]
fn single_in_every_layout() {
    let m = OrderMsg { id: 5, price: 6, quantity: 7, side: 1 };
    let members = ["\"id\":5", " \"price\"\t: 6", "\r\n\"quantity\" :007 ", "\"side\":\n1"];
    let id = 0;
    for a in 0..4 {
        for b in 0..4 {
            for c in 0..4 {
                for d in 0..4 {
                    let order = [a, b, c, d];
                    if (0..4).any(|x| !order.contains(&x)) {
                        continue;
                    }
                    let all: Vec<&str> = order.iter().map(|&x| members[x]).collect();
                    let body = format!(" {{{}}} ,]x", all.join(","));
                    assert_eq!(scan_single(body.as_bytes()), Some(m));
                    for k in 0..4 {
                        let mut short = all.clone();
                        short.remove(k);
                        let body = format!("{{{}}}", short.join(","));
                        let expected =
                            if order[k] == id { Some(OrderMsg { id: 0, ..m }) } else { None };
                        assert_eq!(scan_single(body.as_bytes()), expected);
                    }
                }
            }
        }
    }
}

#[test]
fn batch_stops_at_the_first_unreadable_object() {
    let good = [
        r#"{"id":1,"price":10,"quantity":2,"side":0}"#,
        r#" { "side":1, "price":11,"quantity":3 } "#,
    ];
    let bad = [
        r#"{"id":1}"#,
        "{}",
        r#"{"id":1,"price":99999999999999999999,"quantity":2,"side":0}"#,
    ];
    for b in bad {
        for at in 0..3 {
            let mut objects = vec![good[0], good[1]];
            objects.insert(at, b);
            let body = format!("{{\"orders\":[{}]}}", objects.join(","));
            let mut got = Vec::new();
            assert_eq!(scan_batch(body.as_bytes(), &mut got), None);
            assert_eq!(got.len(), at);
            for j in 0..at {
                assert_eq!(Some(got[j]), scan_single(good[j].as_bytes()));
            }
        }
    }
    let body = format!("{{ \"orders\" : [{}] }} more", good.join(","));
    let mut got = Vec::new();
    assert_eq!(scan_batch(body.as_bytes(), &mut got), Some(2));
    assert_eq!(got[1], OrderMsg { id: 0, price: 11, quantity: 3, side: 1 });
}

#[test]
fn numbers_are_read_exactly_or_not_at_all() {
    for v in [0u64, 7, 10, u64::MAX] {
        let mut out = Vec::new();
        write_u64(&mut out, v);
        let mut i = 0;
        assert_eq!(scan_u64(&out, &mut i), Some(v));
        assert_eq!(i, out.len());
    }
    let mut i = 0;
    assert_eq!(scan_u64(b"18446744073709551616", &mut i), None);
    assert_eq!(i, 19);
    let mut i = 0;
    assert_eq!(scan_u64(b"  x", &mut i), None);
    assert_eq!(i, 2);
    let mut i = 1;
    assert_eq!(scan_u64(b"x \t42,", &mut i), Some(42));
    assert_eq!(i, 5);
}
