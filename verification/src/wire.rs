//! The wire format of orders: a fixed subset of JSON, read straight from the bytes of a request.
//!
//! All values are unsigned integers. An order is an object, `{"id":1,"price":10000,"quantity":5,
//! "side":0}`, with its members in any order; a batch is an object with an array of them under
//! `"orders"`.

use vstd::prelude::*;
use crate::text;

verus! {

/// An order as it arrives.
#[derive(Clone, Copy, Debug, PartialEq, Eq, Structural)]
pub struct OrderMsg {
    pub id: u64,
    pub price: u64,
    pub quantity: u64,
    pub side: u8,
}

impl Default for OrderMsg {
    fn default() -> (msg: OrderMsg)
        ensures
            msg == (OrderMsg { id: 0, price: 0, quantity: 0, side: 0 }),
    {
        OrderMsg { id: 0, price: 0, quantity: 0, side: 0 }
    }
}

pub open spec fn is_space(c: u8) -> bool {
    c == ' ' as u8 || c == '\t' as u8 || c == '\n' as u8 || c == '\r' as u8
}

pub open spec fn is_digit(c: u8) -> bool {
    '0' as u8 <= c <= '9' as u8
}

/// The first position at or behind `i` that holds no white space.
pub open spec fn past_spaces(b: Seq<u8>, i: int) -> int
    decreases b.len() - i,
{
    if 0 <= i < b.len() && is_space(b[i]) {
        past_spaces(b, i + 1)
    } else {
        i
    }
}

/// The first position at or behind `i` that holds no digit.
pub open spec fn past_digits(b: Seq<u8>, i: int) -> int
    decreases b.len() - i,
{
    if 0 <= i < b.len() && is_digit(b[i]) {
        past_digits(b, i + 1)
    } else {
        i
    }
}

/// The number that decimal digits denote.
pub open spec fn decimal(digits: Seq<u8>) -> nat
    decreases digits.len(),
{
    if digits.len() == 0 {
        0
    } else {
        (10 * decimal(digits.drop_last()) + (digits.last() - '0' as u8)) as nat
    }
}

/// The decimal digits of a number, without leading zeros.
pub open spec fn digits(v: nat) -> Seq<u8>
    decreases v,
{
    if v < 10 {
        seq![('0' as u8 + v) as u8]
    } else {
        digits(v / 10).push(('0' as u8 + v % 10) as u8)
    }
}

/// Reads the byte `c` after optional white space; the position behind it.
pub open spec fn token(b: Seq<u8>, i: int, c: u8) -> Option<int> {
    let j = past_spaces(b, i);
    if 0 <= j < b.len() && b[j] == c {
        Some(j + 1)
    } else {
        None
    }
}

/// Reads an unsigned number after optional white space. A number that does not fit in 64 bits is
/// not read.
pub open spec fn number(b: Seq<u8>, i: int) -> Option<(u64, int)> {
    let j = past_spaces(b, i);
    let e = past_digits(b, j);
    let v = decimal(b.subrange(j, e));
    if j < e && v <= u64::MAX {
        Some((v as u64, e))
    } else {
        None
    }
}

/// Reads a quoted key after optional white space; the key without its quotes.
pub open spec fn key(b: Seq<u8>, i: int) -> Option<(Seq<u8>, int)> {
    match token(b, i, '"' as u8) {
        None => None,
        Some(j) => {
            let q = text::find(b, '"' as u8, j);
            if q < b.len() {
                Some((b.subrange(j, q), q + 1))
            } else {
                None
            }
        },
    }
}

/// A key and its value.
pub struct Member {
    pub key: Seq<u8>,
    pub value: u64,
}

/// Reads a key, a colon and a number.
pub open spec fn member(b: Seq<u8>, i: int) -> Option<(Member, int)> {
    match key(b, i) {
        None => None,
        Some((k, j)) => match token(b, j, ':' as u8) {
            None => None,
            Some(j) => match number(b, j) {
                None => None,
                Some((v, e)) => Some((Member { key: k, value: v }, e)),
            },
        },
    }
}

/// Reads one or more members, separated by commas, and the closing brace.
pub open spec fn members(b: Seq<u8>, i: int) -> Option<(Seq<Member>, int)>
    decreases b.len() - i,
{
    match member(b, i) {
        None => None,
        Some((m, e)) => {
            let j = past_spaces(b, e);
            if 0 <= j < b.len() && b[j] == ',' as u8 {
                proof {
                    lemma_member_advances(b, i);
                    lemma_past_spaces(b, e);
                }
                match members(b, j + 1) {
                    None => None,
                    Some((rest, end)) => Some((seq![m] + rest, end)),
                }
            } else if 0 <= j < b.len() && b[j] == '}' as u8 {
                Some((seq![m], j + 1))
            } else {
                None
            }
        },
    }
}

/// The fields of an order.
#[derive(Clone, Copy, PartialEq, Eq, Structural)]
pub enum Field {
    Id,
    Price,
    Quantity,
    Side,
}

/// The field that a key denotes. The length and the first byte tell the four keys apart, and no
/// more is looked at.
pub open spec fn field_of(key: Seq<u8>) -> Option<Field> {
    if key.len() == 2 && key[0] == 'i' as u8 {
        Some(Field::Id)
    } else if key.len() == 5 && key[0] == 'p' as u8 {
        Some(Field::Price)
    } else if key.len() == 8 && key[0] == 'q' as u8 {
        Some(Field::Quantity)
    } else if key.len() == 4 && key[0] == 's' as u8 {
        Some(Field::Side)
    } else {
        None
    }
}

/// The value of a field: that of the last member that denotes it.
pub open spec fn value_of(members: Seq<Member>, field: Field) -> Option<u64>
    decreases members.len(),
{
    if members.len() == 0 {
        None
    } else if field_of(members.last().key) == Some(field) {
        Some(members.last().value)
    } else {
        value_of(members.drop_last(), field)
    }
}

/// The order that members describe. Price, quantity and side must be there; the identifier is zero
/// if it is missing. Of the side the lowest byte counts.
pub open spec fn order_from(members: Seq<Member>) -> Option<OrderMsg> {
    match (
        value_of(members, Field::Price),
        value_of(members, Field::Quantity),
        value_of(members, Field::Side),
    ) {
        (Some(price), Some(quantity), Some(side)) => Some(
            OrderMsg {
                id: match value_of(members, Field::Id) {
                    Some(id) => id,
                    None => 0,
                },
                price,
                quantity,
                side: (side % 256) as u8,
            },
        ),
        _ => None,
    }
}

/// Reads an order object.
pub open spec fn order_object(b: Seq<u8>, i: int) -> Option<(OrderMsg, int)> {
    match token(b, i, '{' as u8) {
        None => None,
        Some(j) => match members(b, j) {
            None => None,
            Some((ms, end)) => match order_from(ms) {
                None => None,
                Some(m) => Some((m, end)),
            },
        },
    }
}

pub proof fn lemma_past_spaces(b: Seq<u8>, i: int)
    ensures
        i <= past_spaces(b, i),
        i <= b.len() ==> past_spaces(b, i) <= b.len(),
    decreases b.len() - i,
{
    if 0 <= i < b.len() && is_space(b[i]) {
        lemma_past_spaces(b, i + 1);
    }
}

pub proof fn lemma_past_digits(b: Seq<u8>, i: int)
    ensures
        i <= past_digits(b, i),
        i <= b.len() ==> past_digits(b, i) <= b.len(),
        0 <= i ==> forall|j: int| i <= j < past_digits(b, i) ==> is_digit(#[trigger] b[j]),
    decreases b.len() - i,
{
    if 0 <= i < b.len() && is_digit(b[i]) {
        lemma_past_digits(b, i + 1);
    }
}

pub proof fn lemma_token_advances(b: Seq<u8>, i: int, c: u8)
    ensures
        token(b, i, c) matches Some(j) ==> i < j <= b.len() && 0 < j,
{
    lemma_past_spaces(b, i);
}

pub proof fn lemma_key_advances(b: Seq<u8>, i: int)
    ensures
        key(b, i) matches Some((k, j)) ==> i < j <= b.len() && 0 < j,
{
    lemma_token_advances(b, i, '"' as u8);
    if let Some(j) = token(b, i, '"' as u8) {
        text::lemma_find(b, '"' as u8, j);
    }
}

pub proof fn lemma_member_advances(b: Seq<u8>, i: int)
    ensures
        member(b, i) matches Some((m, e)) ==> i < e <= b.len() && 0 < e,
{
    lemma_key_advances(b, i);
    if let Some((k, j)) = key(b, i) {
        lemma_token_advances(b, j, ':' as u8);
        if let Some(j) = token(b, j, ':' as u8) {
            lemma_past_spaces(b, j);
            lemma_past_digits(b, past_spaces(b, j));
        }
    }
}

fn skip_ws(b: &[u8], i: &mut usize)
    requires
        *old(i) <= b@.len(),
    ensures
        *final(i) == past_spaces(b@, *old(i) as int),
        *old(i) <= *final(i) <= b@.len(),
{
    while *i < b.len()
        invariant
            *old(i) <= *i <= b@.len(),
            past_spaces(b@, *i as int) == past_spaces(b@, *old(i) as int),
        ensures
            *old(i) <= *i <= b@.len(),
            *i == past_spaces(b@, *old(i) as int),
        decreases b@.len() - *i,
    {
        let c: u8 = b[*i];
        if c == ' ' as u8 || c == '\t' as u8 || c == '\n' as u8 || c == '\r' as u8 {
            *i = *i + 1;
        } else {
            return ;
        }
    }
}

fn expect(b: &[u8], i: &mut usize, c: u8) -> (found: bool)
    requires
        *old(i) <= b@.len(),
    ensures
        match token(b@, *old(i) as int, c) {
            Some(j) => found && *final(i) == j,
            None => !found,
        },
        *old(i) <= *final(i) <= b@.len(),
        found ==> *old(i) < *final(i),
{
    skip_ws(b, i);
    if *i < b.len() && b[*i] == c {
        *i = *i + 1;
        true
    } else {
        false
    }
}

/// A number does not get smaller by further digits.
pub proof fn lemma_decimal_grows(b: Seq<u8>, from: int, mid: int, to: int)
    requires
        0 <= from <= mid <= to <= b.len(),
        forall|j: int| from <= j < to ==> is_digit(#[trigger] b[j]),
    ensures
        decimal(b.subrange(from, mid)) <= decimal(b.subrange(from, to)),
    decreases to - mid,
{
    if mid < to {
        lemma_decimal_grows(b, from, mid, to - 1);
        assert(b.subrange(from, to).drop_last() =~= b.subrange(from, to - 1));
    }
}

/// Reads an unsigned number. One that does not fit is refused, not wrapped; reading then stops in
/// front of the digit with which it grows too large.
pub fn scan_u64(b: &[u8], i: &mut usize) -> (value: Option<u64>)
    requires
        *old(i) <= b@.len(),
    ensures
        match number(b@, *old(i) as int) {
            Some((v, e)) => value == Some(v) && *final(i) == e,
            None => {
                let j = past_spaces(b@, *old(i) as int);
                let e = past_digits(b@, j);
                &&& value is None
                &&& j <= *final(i) <= e
                &&& decimal(b@.subrange(j, *final(i) as int)) <= u64::MAX
                &&& *final(i) < e ==> decimal(b@.subrange(j, *final(i) + 1)) > u64::MAX
            },
        },
        *old(i) <= *final(i) <= b@.len(),
        value is Some ==> *old(i) < *final(i),
{
    skip_ws(b, i);
    let start: usize = *i;
    let ghost end = past_digits(b@, start as int);
    let mut v: u64 = 0;
    proof {
        lemma_past_digits(b@, start as int);
        assert(b@.subrange(start as int, start as int) =~= Seq::<u8>::empty());
    }
    while *i < b.len()
        invariant
            *old(i) <= start <= *i <= end <= b@.len(),
            start == past_spaces(b@, *old(i) as int),
            end == past_digits(b@, start as int),
            end == past_digits(b@, *i as int),
            forall|j: int| start <= j < end ==> is_digit(#[trigger] b@[j]),
            v == decimal(b@.subrange(start as int, *i as int)),
        ensures
            *i == end,
            v == decimal(b@.subrange(start as int, end)),
        decreases b@.len() - *i,
    {
        let c: u8 = b[*i];
        if !('0' as u8 <= c && c <= '9' as u8) {
            break ;
        }
        proof {
            assert(b@.subrange(start as int, *i + 1).drop_last() =~= b@.subrange(
                start as int,
                *i as int,
            ));
            lemma_past_digits(b@, *i + 1);
            lemma_decimal_grows(b@, start as int, *i + 1, end);
        }
        v = match v.checked_mul(10) {
            None => {
                return None;
            },
            Some(x) => match x.checked_add((c - '0' as u8) as u64) {
                None => {
                    return None;
                },
                Some(y) => y,
            },
        };
        *i = *i + 1;
    }
    if *i > start {
        Some(v)
    } else {
        None
    }
}

/// Reads a quoted key and gives its bytes.
fn scan_key<'a>(b: &'a [u8], i: &mut usize) -> (found: Option<&'a [u8]>)
    requires
        *old(i) <= b@.len(),
    ensures
        match key(b@, *old(i) as int) {
            Some((k, j)) => found is Some && found->0@ == k && *final(i) == j,
            None => found is None,
        },
        *old(i) <= *final(i) <= b@.len(),
        found is Some ==> *old(i) < *final(i),
{
    if !expect(b, i, '"' as u8) {
        return None;
    }
    let start: usize = *i;
    let q: usize = text::position(b, '"' as u8, start);
    *i = q;
    if q >= b.len() {
        return None;
    }
    *i = q + 1;
    Some(&b[start..q])
}

/// What has been read of an order so far.
spec fn collected(ms: Seq<Member>, m: OrderMsg, price: bool, quantity: bool, side: bool) -> bool {
    &&& m.id == (match value_of(ms, Field::Id) {
        Some(v) => v,
        None => 0,
    })
    &&& value_of(ms, Field::Price) == (if price {
        Some(m.price)
    } else {
        None
    })
    &&& value_of(ms, Field::Quantity) == (if quantity {
        Some(m.quantity)
    } else {
        None
    })
    &&& match value_of(ms, Field::Side) {
        Some(v) => side && m.side == v % 256,
        None => !side,
    }
}

/// Reads one order object.
fn scan_order_obj(b: &[u8], i: &mut usize) -> (order: Option<OrderMsg>)
    requires
        *old(i) <= b@.len(),
    ensures
        match order_object(b@, *old(i) as int) {
            Some((m, e)) => order == Some(m) && *final(i) == e,
            None => order is None,
        },
        *old(i) <= *final(i) <= b@.len(),
        order is Some ==> *old(i) < *final(i),
{
    if !expect(b, i, '{' as u8) {
        return None;
    }
    let ghost first = *i as int;
    let mut m: OrderMsg = OrderMsg { id: 0, price: 0, quantity: 0, side: 0 };
    let mut price: bool = false;
    let mut quantity: bool = false;
    let mut side: bool = false;
    let ghost mut done: Seq<Member> = Seq::empty();
    loop
        invariant_except_break
            match members(b@, *i as int) {
                Some((ms, e)) => members(b@, first) == Some((done + ms, e)),
                None => members(b@, first) is None,
            },
        invariant
            *old(i) < *i <= b@.len(),
            token(b@, *old(i) as int, '{' as u8) == Some(first),
            collected(done, m, price, quantity, side),
        ensures
            members(b@, first) == Some((done, *i as int)),
        decreases b@.len() - *i,
    {
        let ghost at = *i as int;
        let k: &[u8] = match scan_key(b, i) {
            None => {
                return None;
            },
            Some(k) => k,
        };
        if !expect(b, i, ':' as u8) {
            return None;
        }
        let v: u64 = match scan_u64(b, i) {
            None => {
                return None;
            },
            Some(v) => v,
        };
        let ghost this = Member { key: k@, value: v };
        let ghost more = done.push(this);
        proof {
            assert(member(b@, at) == Some((this, *i as int)));
            assert(more.drop_last() =~= done);
            assert(v as u8 == v % 256) by (bit_vector);
        }
        let len: usize = k.len();
        let c: u8 = if len > 0 {
            k[0]
        } else {
            0
        };
        if len == 2 && c == 'i' as u8 {
            m.id = v;
        } else if len == 5 && c == 'p' as u8 {
            m.price = v;
            price = true;
        } else if len == 8 && c == 'q' as u8 {
            m.quantity = v;
            quantity = true;
        } else if len == 4 && c == 's' as u8 {
            m.side = v as u8;
            side = true;
        }
        assert(collected(more, m, price, quantity, side));
        skip_ws(b, i);
        if *i < b.len() && b[*i] == ',' as u8 {
            *i = *i + 1;
            proof {
                if let Some((ms, e)) = members(b@, *i as int) {
                    assert(done + (seq![this] + ms) =~= more + ms);
                }
                done = more;
            }
        } else if *i < b.len() && b[*i] == '}' as u8 {
            *i = *i + 1;
            proof {
                assert(done + seq![this] =~= more);
                done = more;
            }
            break ;
        } else {
            return None;
        }
    }
    if price && quantity && side {
        Some(m)
    } else {
        None
    }
}

/// The order at the front of a request body.
pub open spec fn single(body: Seq<u8>) -> Option<OrderMsg> {
    match order_object(body, 0) {
        Some((m, e)) => Some(m),
        None => None,
    }
}

/// Reads an order from the front of a request body.
pub fn scan_single(body: &[u8]) -> (order: Option<OrderMsg>)
    ensures
        order == single(body@),
{
    let mut i: usize = 0;
    scan_order_obj(body, &mut i)
}

/// Orders that were read, and where reading ended; `None` if it met something else than expected.
#[verifier::ext_equal]
pub struct Reading {
    pub orders: Seq<OrderMsg>,
    pub end: Option<int>,
}

/// Reads one or more order objects, separated by commas, and the closing bracket.
pub open spec fn elements(b: Seq<u8>, i: int) -> Reading
    decreases b.len() - i,
{
    match order_object(b, i) {
        None => Reading { orders: Seq::empty(), end: None },
        Some((m, e)) => {
            let j = past_spaces(b, e);
            if 0 <= j < b.len() && b[j] == ',' as u8 {
                proof {
                    lemma_order_advances(b, i);
                    lemma_past_spaces(b, e);
                }
                let rest = elements(b, j + 1);
                Reading { orders: seq![m] + rest.orders, end: rest.end }
            } else if 0 <= j < b.len() && b[j] == ']' as u8 {
                Reading { orders: seq![m], end: Some(j + 1) }
            } else {
                Reading { orders: seq![m], end: None }
            }
        },
    }
}

/// Reads an array of order objects behind its opening bracket.
pub open spec fn array(b: Seq<u8>, i: int) -> Reading {
    let j = past_spaces(b, i);
    if 0 <= j < b.len() && b[j] == ']' as u8 {
        Reading { orders: Seq::empty(), end: Some(j + 1) }
    } else {
        elements(b, j)
    }
}

/// The position behind the head of a section, `"orders":[`.
pub open spec fn section_head(b: Seq<u8>, i: int) -> Option<int> {
    match key(b, i) {
        None => None,
        Some((k, j)) => match token(b, j, ':' as u8) {
            None => None,
            Some(j) => if k == text::bytes_of("orders") {
                token(b, j, '[' as u8)
            } else {
                None
            },
        },
    }
}

/// Reads one or more sections, separated by commas. What follows the last section is not looked at.
pub open spec fn sections(b: Seq<u8>, i: int) -> Reading
    decreases b.len() - i,
{
    match section_head(b, i) {
        None => Reading { orders: Seq::empty(), end: None },
        Some(j) => {
            let a = array(b, j);
            match a.end {
                None => a,
                Some(e) => {
                    let j = past_spaces(b, e);
                    if 0 <= j < b.len() && b[j] == ',' as u8 {
                        proof {
                            lemma_section_head_advances(b, i);
                            lemma_array_advances(b, section_head(b, i)->0);
                            lemma_past_spaces(b, e);
                        }
                        let rest = sections(b, j + 1);
                        Reading { orders: a.orders + rest.orders, end: rest.end }
                    } else {
                        Reading { orders: a.orders, end: Some(j) }
                    }
                },
            }
        },
    }
}

/// Reads a batch.
pub open spec fn batch(b: Seq<u8>) -> Reading {
    match token(b, 0, '{' as u8) {
        None => Reading { orders: Seq::empty(), end: None },
        Some(i) => sections(b, i),
    }
}

pub proof fn lemma_members_advance(b: Seq<u8>, i: int)
    ensures
        members(b, i) matches Some((ms, e)) ==> i < e <= b.len() && 0 < e,
    decreases b.len() - i,
{
    lemma_member_advances(b, i);
    if let Some((m, e)) = member(b, i) {
        lemma_past_spaces(b, e);
        let j = past_spaces(b, e);
        if 0 <= j < b.len() && b[j] == ',' as u8 {
            lemma_members_advance(b, j + 1);
        }
    }
}

pub proof fn lemma_order_advances(b: Seq<u8>, i: int)
    ensures
        order_object(b, i) matches Some((m, e)) ==> i < e <= b.len() && 0 < e,
{
    lemma_token_advances(b, i, '{' as u8);
    if let Some(j) = token(b, i, '{' as u8) {
        lemma_members_advance(b, j);
    }
}

pub proof fn lemma_elements_advance(b: Seq<u8>, i: int)
    ensures
        elements(b, i).end matches Some(e) ==> i < e <= b.len() && 0 < e,
    decreases b.len() - i,
{
    lemma_order_advances(b, i);
    if let Some((m, e)) = order_object(b, i) {
        lemma_past_spaces(b, e);
        let j = past_spaces(b, e);
        if 0 <= j < b.len() && b[j] == ',' as u8 {
            lemma_elements_advance(b, j + 1);
        }
    }
}

pub proof fn lemma_array_advances(b: Seq<u8>, i: int)
    ensures
        array(b, i).end matches Some(e) ==> i < e <= b.len() && 0 < e,
{
    lemma_past_spaces(b, i);
    lemma_elements_advance(b, past_spaces(b, i));
}

pub proof fn lemma_section_head_advances(b: Seq<u8>, i: int)
    ensures
        section_head(b, i) matches Some(j) ==> i < j <= b.len() && 0 < j,
{
    lemma_key_advances(b, i);
    if let Some((k, j)) = key(b, i) {
        lemma_token_advances(b, j, ':' as u8);
        if let Some(j) = token(b, j, ':' as u8) {
            lemma_token_advances(b, j, '[' as u8);
        }
    }
}

/// Reads the elements of an array that is not empty.
fn scan_elements(b: &[u8], i: &mut usize, out: &mut Vec<OrderMsg>) -> (complete: bool)
    requires
        *old(i) <= b@.len(),
    ensures
        final(out)@ == old(out)@ + elements(b@, *old(i) as int).orders,
        match elements(b@, *old(i) as int).end {
            Some(e) => complete && *final(i) == e,
            None => !complete,
        },
        *old(i) <= *final(i) <= b@.len(),
        complete ==> *old(i) < *final(i),
        final(out)@.len() - old(out)@.len() <= *final(i) - *old(i),
{
    let ghost all = elements(b@, *i as int);
    loop
        invariant
            *old(i) <= *i <= b@.len(),
            all == elements(b@, *old(i) as int),
            all.end == elements(b@, *i as int).end,
            old(out)@ + all.orders == out@ + elements(b@, *i as int).orders,
            out@.len() - old(out)@.len() <= *i - *old(i),
        decreases b@.len() - *i,
    {
        let ghost at = *i as int;
        let ghost before = out@;
        let m: OrderMsg = match scan_order_obj(b, i) {
            None => {
                assert(before + Seq::<OrderMsg>::empty() =~= before);
                return false;
            },
            Some(m) => m,
        };
        out.push(m);
        skip_ws(b, i);
        if *i < b.len() && b[*i] == ',' as u8 {
            *i = *i + 1;
            proof {
                let rest = elements(b@, *i as int).orders;
                assert(before + (seq![m] + rest) =~= out@ + rest);
            }
        } else {
            assert(before + seq![m] =~= out@);
            if *i < b.len() && b[*i] == ']' as u8 {
                *i = *i + 1;
                return true;
            }
            return false;
        }
    }
}

/// Reads a batch of orders from the front of a request body and appends them to `out` as they are
/// met; their number, if the whole batch could be read.
pub fn scan_batch(body: &[u8], out: &mut Vec<OrderMsg>) -> (count: Option<usize>)
    ensures
        final(out)@ == old(out)@ + batch(body@).orders,
        match batch(body@).end {
            Some(_) => count == Some(batch(body@).orders.len() as usize) && batch(
                body@,
            ).orders.len() <= body@.len(),
            None => count is None,
        },
{
    let mut i: usize = 0;
    if !expect(body, &mut i, '{' as u8) {
        assert(out@ + Seq::<OrderMsg>::empty() =~= out@);
        return None;
    }
    let mut n: usize = 0;
    let ghost all = batch(body@);
    loop
        invariant
            i <= body@.len(),
            n <= i,
            all == batch(body@),
            n == out@.len() - old(out)@.len(),
            all.end is Some == sections(body@, i as int).end is Some,
            old(out)@ + all.orders == out@ + sections(body@, i as int).orders,
        decreases body@.len() - i,
    {
        let ghost before = out@;
        assert(before + Seq::<OrderMsg>::empty() =~= before);
        let k: &[u8] = match scan_key(body, &mut i) {
            None => {
                return None;
            },
            Some(k) => k,
        };
        if !expect(body, &mut i, ':' as u8) {
            return None;
        }
        if !text::same_bytes(k, "orders".as_bytes()) {
            return None;
        }
        if !expect(body, &mut i, '[' as u8) {
            return None;
        }
        let ghost inside = i as int;
        skip_ws(body, &mut i);
        if i < body.len() && body[i] == ']' as u8 {
            i = i + 1;
        } else {
            let had: usize = out.len();
            let complete: bool = scan_elements(body, &mut i, out);
            n = n + (out.len() - had);
            if !complete {
                return None;
            }
        }
        let ghost a = array(body@, inside);
        assert(out@ =~= before + a.orders);
        skip_ws(body, &mut i);
        if i < body.len() && body[i] == ',' as u8 {
            i = i + 1;
            proof {
                let rest = sections(body@, i as int).orders;
                assert(before + (a.orders + rest) =~= out@ + rest);
            }
        } else {
            assert(old(out)@ + all.orders == out@);
            return Some(n);
        }
    }
}

/// Appends a number in decimal.
pub fn write_u64(out: &mut Vec<u8>, v: u64)
    ensures
        final(out)@ == old(out)@ + digits(v as nat),
{
    let mut rest: u64 = v;
    let mut low: Vec<u8> = Vec::new();
    while rest >= 10
        invariant
            digits(v as nat) == digits(rest as nat) + low@.reverse(),
        decreases rest,
    {
        let d: u8 = '0' as u8 + (rest % 10) as u8;
        proof {
            assert(digits(rest as nat) == digits((rest / 10) as nat).push(d));
            assert(digits((rest / 10) as nat).push(d) + low@.reverse() =~= digits(
                (rest / 10) as nat,
            ) + low@.push(d).reverse());
        }
        low.push(d);
        rest = rest / 10;
    }
    out.push('0' as u8 + rest as u8);
    let ghost head = out@;
    assert(digits(rest as nat) =~= seq![('0' as u8 + rest) as u8]);
    let mut n: usize = low.len();
    assert(head + low@.reverse() =~= old(out)@ + digits(v as nat));
    assert(head + low@.reverse().take(0) =~= head);
    while n > 0
        invariant
            n <= low@.len(),
            out@ == head + low@.reverse().take(low@.len() - n),
        decreases n,
    {
        n = n - 1;
        out.push(low[n as usize]);
        assert(out@ =~= head + low@.reverse().take(low@.len() - n));
    }
    assert(low@.reverse().take(low@.len() as int) =~= low@.reverse());
}

} // verus!
