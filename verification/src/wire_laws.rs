//! What holds of the wire format whatever is sent.

use vstd::prelude::*;
use crate::text;
use crate::wire;
use crate::wire::{Field, Member, OrderMsg};

verus! {

/// The digits of a number denote the number, and there are no superfluous ones.
pub proof fn law_digits_denote_the_number(v: nat)
    ensures
        wire::decimal(wire::digits(v)) == v,
        wire::digits(v).len() > 0,
        forall|i: int|
            0 <= i < wire::digits(v).len() ==> wire::is_digit(#[trigger] wire::digits(v)[i]),
        v > 0 ==> wire::digits(v)[0] != '0' as u8,
        v == 0 ==> wire::digits(v) == seq!['0' as u8],
    decreases v,
{
    reveal_with_fuel(wire::decimal, 2);
    let s = wire::digits(v);
    if v >= 10 {
        law_digits_denote_the_number(v / 10);
        assert(s.drop_last() =~= wire::digits(v / 10));
    } else {
        assert(s.drop_last() =~= Seq::<u8>::empty());
    }
}

pub proof fn lemma_run_of_digits(b: Seq<u8>, i: int, e: int)
    requires
        0 <= i <= e <= b.len(),
        forall|j: int| i <= j < e ==> wire::is_digit(#[trigger] b[j]),
        e < b.len() ==> !wire::is_digit(b[e]),
    ensures
        wire::past_digits(b, i) == e,
    decreases e - i,
{
    if i < e {
        lemma_run_of_digits(b, i + 1, e);
    }
}

/// A number that was written is read back, wherever it stands, as long as no further digit follows.
pub proof fn law_written_number_is_read_back(before: Seq<u8>, v: u64, after: Seq<u8>)
    requires
        after.len() > 0 ==> !wire::is_digit(after[0]),
    ensures
        wire::number(before + wire::digits(v as nat) + after, before.len() as int) == Some(
            (v, (before.len() + wire::digits(v as nat).len()) as int),
        ),
{
    let s = wire::digits(v as nat);
    let b = before + s + after;
    let i = before.len() as int;
    let e = i + s.len();
    law_digits_denote_the_number(v as nat);
    assert forall|j: int| i <= j < e implies wire::is_digit(#[trigger] b[j]) by {
        assert(b[j] == s[j - i]);
    }
    if e < b.len() {
        assert(b[e] == after[0]);
    }
    lemma_run_of_digits(b, i, e);
    assert(wire::is_digit(b[i]));
    assert(b.subrange(i, e) =~= s);
}

/// The members with those at `i` and `i + 1` exchanged.
pub open spec fn exchanged(ms: Seq<Member>, i: int) -> Seq<Member> {
    ms.update(i, ms[i + 1]).update(i + 1, ms[i])
}

proof fn lemma_value_after_exchange(ms: Seq<Member>, i: int, field: Field)
    requires
        0 <= i < ms.len() - 1,
        wire::field_of(ms[i].key) != wire::field_of(ms[i + 1].key) || wire::field_of(ms[i].key) is None,
    ensures
        wire::value_of(exchanged(ms, i), field) == wire::value_of(ms, field),
    decreases ms.len(),
{
    reveal_with_fuel(wire::value_of, 3);
    let after = exchanged(ms, i);
    if i + 2 == ms.len() {
        assert(after.drop_last().drop_last() =~= ms.drop_last().drop_last());
    } else {
        assert(after.drop_last() =~= exchanged(ms.drop_last(), i));
        lemma_value_after_exchange(ms.drop_last(), i, field);
    }
}

/// The members of an order may come in any order: exchanging two neighbours that denote different
/// fields, or no field, does not change the order.
pub proof fn law_members_come_in_any_order(ms: Seq<Member>, i: int)
    requires
        0 <= i < ms.len() - 1,
        wire::field_of(ms[i].key) != wire::field_of(ms[i + 1].key) || wire::field_of(ms[i].key) is None,
    ensures
        wire::order_from(exchanged(ms, i)) == wire::order_from(ms),
{
    lemma_value_after_exchange(ms, i, Field::Id);
    lemma_value_after_exchange(ms, i, Field::Price);
    lemma_value_after_exchange(ms, i, Field::Quantity);
    lemma_value_after_exchange(ms, i, Field::Side);
}

proof fn lemma_value_without(ms: Seq<Member>, i: int, field: Field)
    requires
        0 <= i < ms.len(),
        wire::field_of(ms[i].key) is None,
    ensures
        wire::value_of(ms.remove(i), field) == wire::value_of(ms, field),
    decreases ms.len(),
{
    let after = ms.remove(i);
    if i + 1 == ms.len() {
        assert(after =~= ms.drop_last());
    } else {
        assert(after.drop_last() =~= ms.drop_last().remove(i));
        assert(after.last() == ms.last());
        lemma_value_without(ms.drop_last(), i, field);
    }
}

/// A member whose key denotes no field is ignored.
pub proof fn law_unknown_member_is_ignored(ms: Seq<Member>, i: int)
    requires
        0 <= i < ms.len(),
        wire::field_of(ms[i].key) is None,
    ensures
        wire::order_from(ms.remove(i)) == wire::order_from(ms),
{
    lemma_value_without(ms, i, Field::Id);
    lemma_value_without(ms, i, Field::Price);
    lemma_value_without(ms, i, Field::Quantity);
    lemma_value_without(ms, i, Field::Side);
}

pub proof fn lemma_spaces_once(b: Seq<u8>, i: int)
    ensures
        wire::past_spaces(b, wire::past_spaces(b, i)) == wire::past_spaces(b, i),
    decreases b.len() - i,
{
    if 0 <= i < b.len() && wire::is_space(b[i]) {
        lemma_spaces_once(b, i + 1);
    }
}

/// White space in front of a token is skipped: what is read at a position is what is read behind
/// the white space there.
pub proof fn law_white_space_is_skipped(b: Seq<u8>, i: int, c: u8)
    ensures
        ({
            let j = wire::past_spaces(b, i);
            &&& wire::token(b, i, c) == wire::token(b, j, c)
            &&& wire::number(b, i) == wire::number(b, j)
            &&& wire::key(b, i) == wire::key(b, j)
            &&& wire::member(b, i) == wire::member(b, j)
            &&& wire::members(b, i) == wire::members(b, j)
            &&& wire::order_object(b, i) == wire::order_object(b, j)
            &&& wire::array(b, i) == wire::array(b, j)
            &&& wire::sections(b, i) == wire::sections(b, j)
        }),
{
    lemma_spaces_once(b, i);
}

/// Whether `piece` stands in `b` at position `i`.
pub open spec fn stands(b: Seq<u8>, i: int, piece: Seq<u8>) -> bool {
    &&& 0 <= i
    &&& i + piece.len() <= b.len()
    &&& b.subrange(i, i + piece.len()) == piece
}

pub proof fn lemma_stands_split(b: Seq<u8>, i: int, p: Seq<u8>, q: Seq<u8>)
    requires
        stands(b, i, p + q),
    ensures
        stands(b, i, p),
        stands(b, i + p.len(), q),
{
    let all = b.subrange(i, i + (p + q).len());
    assert(all.subrange(0, p.len() as int) =~= p);
    assert(all.subrange(p.len() as int, (p + q).len() as int) =~= q);
    assert(b.subrange(i, i + p.len()) =~= all.subrange(0, p.len() as int));
    assert(b.subrange(i + p.len(), i + p.len() + q.len()) =~= all.subrange(
        p.len() as int,
        (p + q).len() as int,
    ));
}

pub proof fn lemma_byte_stands(b: Seq<u8>, i: int, c: u8)
    requires
        stands(b, i, seq![c]),
    ensures
        b[i] == c,
        i < b.len(),
{
    assert(b.subrange(i, i + 1)[0] == c);
}

pub proof fn lemma_find_at(b: Seq<u8>, c: u8, i: int, e: int)
    requires
        0 <= i <= e < b.len(),
        b[e] == c,
        forall|j: int| i <= j < e ==> #[trigger] b[j] != c,
    ensures
        text::find(b, c, i) == e,
    decreases e - i,
{
    if i < e {
        lemma_find_at(b, c, i + 1, e);
    }
}

/// A key in quotes.
pub open spec fn quoted(k: Seq<u8>) -> Seq<u8> {
    seq!['"' as u8] + k + seq!['"' as u8]
}

pub proof fn lemma_key_at(b: Seq<u8>, i: int, k: Seq<u8>)
    requires
        stands(b, i, quoted(k)),
        forall|j: int| 0 <= j < k.len() ==> #[trigger] k[j] != '"' as u8,
    ensures
        wire::key(b, i) == Some((k, i + k.len() + 2)),
{
    let q = quoted(k);
    let e = i + 1 + k.len();
    assert forall|j: int| 0 <= j < q.len() implies b[i + j] == q[j] by {
        assert(b.subrange(i, i + q.len())[j] == q[j]);
    }
    assert(b[i + 0] == q[0]);
    assert(b[i + (1 + k.len())] == q[(1 + k.len()) as int]);
    assert forall|j: int| i + 1 <= j < e implies #[trigger] b[j] != '"' as u8 by {
        assert(b[i + (j - i)] == q[j - i]);
        assert(q[j - i] == k[j - i - 1]);
    }
    lemma_find_at(b, '"' as u8, i + 1, e);
    assert(b.subrange(i + 1, e) =~= k) by {
        assert forall|j: int| 0 <= j < k.len() implies b.subrange(i + 1, e)[j] == k[j] by {
            assert(b[i + (j + 1)] == q[j + 1]);
        }
    }
}

proof fn lemma_number_at(b: Seq<u8>, i: int, v: u64)
    requires
        stands(b, i, wire::digits(v as nat)),
        i + wire::digits(v as nat).len() < b.len() ==> !wire::is_digit(
            b[i + wire::digits(v as nat).len()],
        ),
    ensures
        wire::number(b, i) == Some((v, i + wire::digits(v as nat).len())),
{
    let s = wire::digits(v as nat);
    let e = i + s.len();
    let before = b.take(i);
    let after = b.skip(e);
    assert(b =~= before + s + after) by {
        assert forall|j: int| 0 <= j < b.len() implies b[j] == (before + s + after)[j] by {
            if i <= j < e {
                assert(b.subrange(i, e)[j - i] == s[j - i]);
            }
        }
    }
    if after.len() > 0 {
        assert(after[0] == b[e]);
    }
    law_written_number_is_read_back(before, v, after);
}

/// A member as text.
pub open spec fn member_text(k: Seq<u8>, v: u64) -> Seq<u8> {
    quoted(k) + seq![':' as u8] + wire::digits(v as nat)
}

proof fn lemma_member_at(b: Seq<u8>, i: int, k: Seq<u8>, v: u64)
    requires
        stands(b, i, member_text(k, v)),
        forall|j: int| 0 <= j < k.len() ==> #[trigger] k[j] != '"' as u8,
        i + member_text(k, v).len() < b.len() ==> !wire::is_digit(b[i + member_text(k, v).len()]),
    ensures
        wire::member(b, i) == Some((Member { key: k, value: v }, i + member_text(k, v).len())),
{
    lemma_stands_split(b, i, quoted(k) + seq![':' as u8], wire::digits(v as nat));
    lemma_stands_split(b, i, quoted(k), seq![':' as u8]);
    lemma_key_at(b, i, k);
    lemma_byte_stands(b, i + k.len() + 2, ':' as u8);
    lemma_number_at(b, i + k.len() + 3, v);
}

/// The keys of an order.
pub open spec fn key_of(field: Field) -> Seq<u8> {
    match field {
        Field::Id => text::bytes_of("id"),
        Field::Price => text::bytes_of("price"),
        Field::Quantity => text::bytes_of("quantity"),
        Field::Side => text::bytes_of("side"),
    }
}

pub proof fn lemma_key_names(field: Field)
    ensures
        wire::field_of(key_of(field)) == Some(field),
        forall|j: int| 0 <= j < key_of(field).len() ==> #[trigger] key_of(field)[j] != '"' as u8,
{
    reveal_strlit("id");
    reveal_strlit("price");
    reveal_strlit("quantity");
    reveal_strlit("side");
    vstd::string::is_ascii_spec_bytes("id");
    vstd::string::is_ascii_spec_bytes("price");
    vstd::string::is_ascii_spec_bytes("quantity");
    vstd::string::is_ascii_spec_bytes("side");
}

/// An order as text: `{"id":..,"price":..,"quantity":..,"side":..}`.
pub open spec fn order_text(m: OrderMsg) -> Seq<u8> {
    seq!['{' as u8] + (member_text(key_of(Field::Id), m.id) + (seq![',' as u8] + (member_text(
        key_of(Field::Price),
        m.price,
    ) + (seq![',' as u8] + (member_text(key_of(Field::Quantity), m.quantity) + (seq![',' as u8] + (
    member_text(key_of(Field::Side), m.side as u64) + seq!['}' as u8])))))))
}

/// A member and the byte behind it.
proof fn lemma_step(b: Seq<u8>, i: int, field: Field, v: u64, c: u8, rest: Seq<u8>) -> (e: int)
    requires
        stands(b, i, member_text(key_of(field), v) + (seq![c] + rest)),
        c == ',' as u8 || c == '}' as u8,
    ensures
        e == i + member_text(key_of(field), v).len(),
        wire::member(b, i) == Some((Member { key: key_of(field), value: v }, e)),
        e < b.len(),
        b[e] == c,
        wire::past_spaces(b, e) == e,
        stands(b, e + 1, rest),
{
    let t = member_text(key_of(field), v);
    let e = i + t.len();
    lemma_stands_split(b, i, t, seq![c] + rest);
    lemma_stands_split(b, e, seq![c], rest);
    lemma_byte_stands(b, e, c);
    lemma_key_names(field);
    lemma_member_at(b, i, key_of(field), v);
    e
}

/// An order that is written out is read as that order, wherever it stands.
pub proof fn law_written_order_is_read_back(b: Seq<u8>, i: int, m: OrderMsg)
    requires
        stands(b, i, order_text(m)),
    ensures
        wire::order_object(b, i) == Some((m, i + order_text(m).len())),
{
    let comma = seq![',' as u8];
    let close = seq!['}' as u8];
    let t4 = member_text(key_of(Field::Side), m.side as u64) + close;
    let t3 = member_text(key_of(Field::Quantity), m.quantity) + (comma + t4);
    let t2 = member_text(key_of(Field::Price), m.price) + (comma + t3);
    let t1 = member_text(key_of(Field::Id), m.id) + (comma + t2);
    lemma_stands_split(b, i, seq!['{' as u8], t1);
    lemma_byte_stands(b, i, '{' as u8);
    assert(wire::token(b, i, '{' as u8) == Some(i + 1));
    let e1 = lemma_step(b, i + 1, Field::Id, m.id, ',' as u8, t2);
    let e2 = lemma_step(b, e1 + 1, Field::Price, m.price, ',' as u8, t3);
    let e3 = lemma_step(b, e2 + 1, Field::Quantity, m.quantity, ',' as u8, t4);
    assert(close =~= close + Seq::<u8>::empty());
    let e4 = lemma_step(
        b,
        e3 + 1,
        Field::Side,
        m.side as u64,
        '}' as u8,
        Seq::<u8>::empty(),
    );
    let m1 = Member { key: key_of(Field::Id), value: m.id };
    let m2 = Member { key: key_of(Field::Price), value: m.price };
    let m3 = Member { key: key_of(Field::Quantity), value: m.quantity };
    let m4 = Member { key: key_of(Field::Side), value: m.side as u64 };
    assert(wire::members(b, e3 + 1) == Some((seq![m4], e4 + 1)));
    assert(wire::members(b, e2 + 1) == Some((seq![m3] + seq![m4], e4 + 1)));
    assert(wire::members(b, e1 + 1) == Some((seq![m2] + (seq![m3] + seq![m4]), e4 + 1)));
    let ms = seq![m1] + (seq![m2] + (seq![m3] + seq![m4]));
    assert(wire::members(b, i + 1) == Some((ms, e4 + 1)));
    lemma_key_names(Field::Id);
    lemma_key_names(Field::Price);
    lemma_key_names(Field::Quantity);
    lemma_key_names(Field::Side);
    let a = ms.drop_last();
    let c = a.drop_last();
    let d = c.drop_last();
    assert(ms.last() == m4 && a.last() == m3 && c.last() == m2 && d.last() == m1);
    assert(wire::value_of(ms, Field::Side) == Some(m4.value));
    assert(wire::value_of(a, Field::Quantity) == Some(m3.value));
    assert(wire::value_of(ms, Field::Quantity) == Some(m3.value));
    assert(wire::value_of(c, Field::Price) == Some(m2.value));
    assert(wire::value_of(a, Field::Price) == Some(m2.value));
    assert(wire::value_of(ms, Field::Price) == Some(m2.value));
    assert(wire::value_of(d, Field::Id) == Some(m1.value));
    assert(wire::value_of(c, Field::Id) == Some(m1.value));
    assert(wire::value_of(a, Field::Id) == Some(m1.value));
    assert(wire::value_of(ms, Field::Id) == Some(m1.value));
}

/// The elements of an array of orders and its closing bracket, as text.
pub open spec fn elements_text(orders: Seq<OrderMsg>) -> Seq<u8>
    decreases orders.len(),
{
    if orders.len() == 0 {
        seq![']' as u8]
    } else if orders.len() == 1 {
        order_text(orders[0]) + seq![']' as u8]
    } else {
        order_text(orders[0]) + (seq![',' as u8] + elements_text(orders.drop_first()))
    }
}

proof fn lemma_elements_at(b: Seq<u8>, i: int, orders: Seq<OrderMsg>)
    requires
        stands(b, i, elements_text(orders)),
        orders.len() > 0,
    ensures
        wire::elements(b, i).orders == orders,
        wire::elements(b, i).end == Some(i + elements_text(orders).len()),
    decreases orders.len(),
{
    let t = order_text(orders[0]);
    let e = i + t.len();
    if orders.len() == 1 {
        lemma_stands_split(b, i, t, seq![']' as u8]);
        lemma_byte_stands(b, e, ']' as u8);
        law_written_order_is_read_back(b, i, orders[0]);
        assert(seq![orders[0]] =~= orders);
    } else {
        let rest = elements_text(orders.drop_first());
        lemma_stands_split(b, i, t, seq![',' as u8] + rest);
        lemma_stands_split(b, e, seq![',' as u8], rest);
        lemma_byte_stands(b, e, ',' as u8);
        law_written_order_is_read_back(b, i, orders[0]);
        lemma_elements_at(b, e + 1, orders.drop_first());
        assert(seq![orders[0]] + orders.drop_first() =~= orders);
    }
}

/// A batch as text: `{"orders":[..,..]}`.
pub open spec fn batch_text(orders: Seq<OrderMsg>) -> Seq<u8> {
    seq!['{' as u8] + (quoted(text::bytes_of("orders")) + (seq![':' as u8] + (seq!['[' as u8] + (
    elements_text(orders) + seq!['}' as u8]))))
}

/// The text in front of the elements.
proof fn lemma_head_at(b: Seq<u8>, rest: Seq<u8>) -> (s: int)
    requires
        stands(
            b,
            0,
            seq!['{' as u8] + (quoted(text::bytes_of("orders")) + (seq![':' as u8] + (seq![
                '[' as u8,
            ] + rest))),
        ),
    ensures
        wire::token(b, 0, '{' as u8) == Some(1int),
        wire::section_head(b, 1) == Some(s),
        stands(b, s, rest),
{
    let k = text::bytes_of("orders");
    let t3 = seq!['[' as u8] + rest;
    let t2 = seq![':' as u8] + t3;
    lemma_stands_split(b, 0, seq!['{' as u8], quoted(k) + t2);
    lemma_byte_stands(b, 0, '{' as u8);
    lemma_stands_split(b, 1, quoted(k), t2);
    assert(forall|j: int| 0 <= j < k.len() ==> #[trigger] k[j] != '"' as u8) by {
        reveal_strlit("orders");
        vstd::string::is_ascii_spec_bytes("orders");
    }
    lemma_key_at(b, 1, k);
    let c: int = 1 + k.len() as int + 2;
    lemma_stands_split(b, c, seq![':' as u8], t3);
    lemma_byte_stands(b, c, ':' as u8);
    lemma_stands_split(b, c + 1, seq!['[' as u8], rest);
    lemma_byte_stands(b, c + 1, '[' as u8);
    c + 2
}

proof fn lemma_array_at(b: Seq<u8>, s: int, orders: Seq<OrderMsg>)
    requires
        stands(b, s, elements_text(orders)),
    ensures
        wire::array(b, s).orders == orders,
        wire::array(b, s).end == Some(s + elements_text(orders).len()),
{
    if orders.len() == 0 {
        lemma_byte_stands(b, s, ']' as u8);
        assert(orders =~= Seq::<OrderMsg>::empty());
    } else {
        let t = elements_text(orders);
        assert(t[0] == '{' as u8) by {
            assert(order_text(orders[0])[0] == '{' as u8);
        }
        assert(b.subrange(s, s + t.len())[0] == b[s]);
        lemma_elements_at(b, s, orders);
    }
}

/// A batch that is written out is read as its orders, in their order.
pub proof fn law_written_batch_is_read_back(orders: Seq<OrderMsg>)
    ensures
        wire::batch(batch_text(orders)).orders == orders,
        wire::batch(batch_text(orders)).end is Some,
{
    let b = batch_text(orders);
    let close = seq!['}' as u8];
    assert(b.subrange(0, b.len() as int) =~= b);
    let s = lemma_head_at(b, elements_text(orders) + close);
    lemma_stands_split(b, s, elements_text(orders), close);
    let e = s + elements_text(orders).len();
    lemma_byte_stands(b, e, '}' as u8);
    lemma_array_at(b, s, orders);
}

} // verus!
