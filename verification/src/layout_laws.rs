//! Laws of orders and batches as text, whatever their layout.
//!
//! An object may have its members in any order, with any white space between its tokens. What is
//! read of it depends on nothing else.

use vstd::prelude::*;
use crate::text;
use crate::wire;
use crate::wire::{Field, Member, OrderMsg};
use crate::wire_laws;

verus! {

/// Whether `s` is white space throughout: spaces, tabs and line ends.
pub open spec fn white(s: Seq<u8>) -> bool {
    forall|j: int|
        0 <= j < s.len() ==> #[trigger] s[j] == 32 || s[j] == 9 || s[j] == 10 || s[j] == 13
}

/// Whether `s` is a number in decimal digits.
pub open spec fn all_digits(s: Seq<u8>) -> bool {
    &&& s.len() > 0
    &&& forall|j: int| 0 <= j < s.len() ==> 48 <= #[trigger] s[j] <= 57
}

/// A member as text, with the white space in front of its tokens and behind it.
pub struct MemberText {
    pub before: Seq<u8>,
    pub key: Seq<u8>,
    pub before_colon: Seq<u8>,
    pub before_value: Seq<u8>,
    pub value: Seq<u8>,
    pub after: Seq<u8>,
}

impl MemberText {
    /// White space is white space, the key holds no quotes, and the value is a number.
    pub open spec fn wf(self) -> bool {
        &&& white(self.before)
        &&& white(self.before_colon)
        &&& white(self.before_value)
        &&& white(self.after)
        &&& all_digits(self.value)
        &&& forall|j: int| 0 <= j < self.key.len() ==> #[trigger] self.key[j] != '"' as u8
    }

    /// The text up to the value.
    pub open spec fn body(self) -> Seq<u8> {
        self.before + (wire_laws::quoted(self.key) + (self.before_colon + (seq![':' as u8] + (
        self.before_value + self.value))))
    }

    /// The text.
    pub open spec fn text(self) -> Seq<u8> {
        self.body() + self.after
    }

    /// Whether the value fits in 64 bits.
    pub open spec fn fits(self) -> bool {
        wire::decimal(self.value) <= u64::MAX
    }

    /// What the text says.
    pub open spec fn member(self) -> Member {
        Member { key: self.key, value: wire::decimal(self.value) as u64 }
    }
}

proof fn lemma_white_at(b: Seq<u8>, i: int, w: Seq<u8>)
    requires
        wire_laws::stands(b, i, w),
        white(w),
        i + w.len() < b.len() ==> !wire::is_space(b[i + w.len()]),
    ensures
        wire::past_spaces(b, i) == i + w.len(),
    decreases w.len(),
{
    if w.len() > 0 {
        assert(b.subrange(i, i + w.len())[0] == b[i]);
        assert(wire::is_space(w[0]));
        let rest = w.drop_first();
        assert(b.subrange(i + 1, i + 1 + rest.len()) =~= b.subrange(i, i + w.len()).drop_first());
        assert forall|j: int| 0 <= j < rest.len() implies #[trigger] rest[j] == 32 || rest[j] == 9
            || rest[j] == 10 || rest[j] == 13 by {
            assert(rest[j] == w[j + 1]);
        }
        lemma_white_at(b, i + 1, rest);
    }
}

/// A byte behind white space.
pub proof fn lemma_token_at(b: Seq<u8>, i: int, w: Seq<u8>, c: u8, rest: Seq<u8>)
    requires
        wire_laws::stands(b, i, w + (seq![c] + rest)),
        white(w),
        !wire::is_space(c),
    ensures
        wire::past_spaces(b, i) == i + w.len(),
        wire::token(b, i, c) == Some(i + w.len() + 1),
        b[i + w.len()] == c,
        wire_laws::stands(b, i + w.len() + 1, rest),
{
    wire_laws::lemma_stands_split(b, i, w, seq![c] + rest);
    wire_laws::lemma_stands_split(b, i + w.len(), seq![c], rest);
    wire_laws::lemma_byte_stands(b, i + w.len(), c);
    lemma_white_at(b, i, w);
}

/// A key behind white space.
pub proof fn lemma_key_behind(b: Seq<u8>, i: int, w: Seq<u8>, k: Seq<u8>, rest: Seq<u8>)
    requires
        wire_laws::stands(b, i, w + (wire_laws::quoted(k) + rest)),
        white(w),
        forall|j: int| 0 <= j < k.len() ==> #[trigger] k[j] != '"' as u8,
    ensures
        wire::key(b, i) == Some((k, i + w.len() + wire_laws::quoted(k).len())),
        wire_laws::stands(b, i + w.len() + wire_laws::quoted(k).len(), rest),
{
    let q = wire_laws::quoted(k);
    let j = i + w.len();
    wire_laws::lemma_stands_split(b, i, w, q + rest);
    wire_laws::lemma_stands_split(b, j, q, rest);
    assert(b[j] == '"' as u8) by {
        assert(b.subrange(j, j + q.len())[0] == b[j]);
        assert(q[0] == '"' as u8);
    }
    lemma_white_at(b, i, w);
    wire_laws::lemma_key_at(b, j, k);
    wire_laws::lemma_spaces_once(b, i);
    assert(wire::key(b, i) == wire::key(b, j));
}

/// A run of digits behind white space is read as the number that it denotes if that fits in 64 bits,
/// and otherwise not at all. It never wraps.
pub proof fn law_number_is_read_exactly_or_not_at_all(
    b: Seq<u8>,
    i: int,
    w: Seq<u8>,
    value: Seq<u8>,
)
    requires
        wire_laws::stands(b, i, w + value),
        white(w),
        all_digits(value),
        i + w.len() + value.len() < b.len() ==> !wire::is_digit(b[i + w.len() + value.len()]),
    ensures
        wire::number(b, i) == (if wire::decimal(value) <= u64::MAX {
            Some((wire::decimal(value) as u64, i + w.len() + value.len()))
        } else {
            None
        }),
{
    let j = i + w.len();
    let e = j + value.len();
    wire_laws::lemma_stands_split(b, i, w, value);
    assert forall|k: int| j <= k < e implies wire::is_digit(#[trigger] b[k]) by {
        assert(b.subrange(j, e)[k - j] == b[k]);
        assert(value[k - j] == b[k]);
    }
    assert(wire::is_digit(b[j]));
    lemma_white_at(b, i, w);
    wire_laws::lemma_run_of_digits(b, j, e);
}

/// Without a digit behind the white space no number is read.
pub proof fn law_no_number_without_digits(b: Seq<u8>, i: int)
    requires
        ({
            let j = wire::past_spaces(b, i);
            0 <= j < b.len() ==> !wire::is_digit(b[j])
        }),
    ensures
        wire::number(b, i) is None,
{
}

proof fn lemma_member_at(b: Seq<u8>, i: int, m: MemberText)
    requires
        m.wf(),
        wire_laws::stands(b, i, m.body()),
        i + m.body().len() < b.len() ==> !wire::is_digit(b[i + m.body().len()]),
    ensures
        wire::member(b, i) == (if m.fits() {
            Some((m.member(), i + m.body().len()))
        } else {
            None
        }),
{
    let q = wire_laws::quoted(m.key);
    let t3 = m.before_value + m.value;
    let t2 = m.before_colon + (seq![':' as u8] + t3);
    lemma_key_behind(b, i, m.before, m.key, t2);
    let k = i + m.before.len() + q.len();
    lemma_token_at(b, k, m.before_colon, ':' as u8, t3);
    let l = k + m.before_colon.len() + 1;
    law_number_is_read_exactly_or_not_at_all(b, l, m.before_value, m.value);
}

/// Members and the closing brace as text.
pub open spec fn members_text(list: Seq<MemberText>) -> Seq<u8>
    decreases list.len(),
{
    if list.len() == 0 {
        seq!['}' as u8]
    } else if list.len() == 1 {
        list[0].text() + seq!['}' as u8]
    } else {
        list[0].text() + (seq![',' as u8] + members_text(list.drop_first()))
    }
}

/// What the members say.
pub open spec fn said(list: Seq<MemberText>) -> Seq<Member> {
    list.map_values(|m: MemberText| m.member())
}

/// Whether all values fit in 64 bits.
pub open spec fn all_fit(list: Seq<MemberText>) -> bool {
    forall|j: int| 0 <= j < list.len() ==> (#[trigger] list[j]).fits()
}

pub open spec fn all_wf(list: Seq<MemberText>) -> bool {
    forall|j: int| 0 <= j < list.len() ==> (#[trigger] list[j]).wf()
}

/// A member, the white space behind it and the byte behind that.
proof fn lemma_member_and_byte(b: Seq<u8>, i: int, m: MemberText, c: u8, rest: Seq<u8>)
    requires
        m.wf(),
        wire_laws::stands(b, i, m.text() + (seq![c] + rest)),
        c == ',' as u8 || c == '}' as u8,
    ensures
        wire::member(b, i) == (if m.fits() {
            Some((m.member(), i + m.body().len()))
        } else {
            None
        }),
        wire::past_spaces(b, i + m.body().len()) == i + m.text().len(),
        i + m.text().len() < b.len(),
        b[i + m.text().len()] == c,
        wire_laws::stands(b, i + m.text().len() + 1, rest),
{
    let e = i + m.body().len();
    assert(m.text() + (seq![c] + rest) =~= m.body() + (m.after + (seq![c] + rest)));
    wire_laws::lemma_stands_split(b, i, m.body(), m.after + (seq![c] + rest));
    lemma_token_at(b, e, m.after, c, rest);
    if m.after.len() > 0 {
        wire_laws::lemma_stands_split(b, e, m.after, seq![c] + rest);
        assert(b.subrange(e, e + m.after.len())[0] == b[e]);
        assert(wire::is_space(m.after[0]));
    }
    lemma_member_at(b, i, m);
}

pub proof fn lemma_members_at(b: Seq<u8>, i: int, list: Seq<MemberText>)
    requires
        list.len() > 0,
        all_wf(list),
        wire_laws::stands(b, i, members_text(list)),
    ensures
        wire::members(b, i) == (if all_fit(list) {
            Some((said(list), i + members_text(list).len()))
        } else {
            None
        }),
    decreases list.len(),
{
    let m = list[0];
    if list.len() == 1 {
        assert(seq!['}' as u8] =~= seq!['}' as u8] + Seq::<u8>::empty());
        lemma_member_and_byte(b, i, m, '}' as u8, Seq::empty());
        assert(said(list) =~= seq![m.member()]);
    } else {
        let others = list.drop_first();
        lemma_member_and_byte(b, i, m, ',' as u8, members_text(others));
        assert forall|j: int| 0 <= j < others.len() implies (#[trigger] others[j]).wf() by {
            assert(others[j] == list[j + 1]);
        }
        lemma_members_at(b, i + m.text().len() + 1, others);
        assert(said(list) =~= seq![m.member()] + said(others));
        assert(all_fit(list) == (m.fits() && all_fit(others))) by {
            if m.fits() && all_fit(others) {
                assert forall|j: int| 0 <= j < list.len() implies (#[trigger] list[j]).fits() by {
                    if j > 0 {
                        assert(list[j] == others[j - 1]);
                    }
                }
            }
            if all_fit(list) {
                assert forall|j: int| 0 <= j < others.len() implies (
                #[trigger] others[j]).fits() by {
                    assert(others[j] == list[j + 1]);
                }
            }
        }
    }
}

/// An object as text, with the white space in front of it.
pub struct ObjectText {
    pub before: Seq<u8>,
    pub members: Seq<MemberText>,
}

impl ObjectText {
    pub open spec fn wf(self) -> bool {
        &&& white(self.before)
        &&& all_wf(self.members)
    }

    /// The text.
    pub open spec fn text(self) -> Seq<u8> {
        self.before + (seq!['{' as u8] + members_text(self.members))
    }

    /// The order that the text describes, if it describes one: all its numbers fit in 64 bits, and
    /// price, quantity and side are there. The identifier is zero if it is missing, and of the side
    /// the lowest byte counts.
    pub open spec fn order(self) -> Option<OrderMsg> {
        let price = last_value(self.members, Field::Price);
        let quantity = last_value(self.members, Field::Quantity);
        let side = last_value(self.members, Field::Side);
        if all_fit(self.members) && price is Some && quantity is Some && side is Some {
            Some(
                OrderMsg {
                    id: match last_value(self.members, Field::Id) {
                        Some(v) => v as u64,
                        None => 0,
                    },
                    price: price->0 as u64,
                    quantity: quantity->0 as u64,
                    side: (side->0 % 256) as u8,
                },
            )
        } else {
            None
        }
    }
}

/// Whether a key stands for a field: it has the length and the first letter of the field's name.
pub open spec fn stands_for(key: Seq<u8>, field: Field) -> bool {
    match field {
        Field::Id => key.len() == 2 && key[0] == 105,
        Field::Price => key.len() == 5 && key[0] == 112,
        Field::Quantity => key.len() == 8 && key[0] == 113,
        Field::Side => key.len() == 4 && key[0] == 115,
    }
}

/// The value of the last member that stands for a field.
pub open spec fn last_value(list: Seq<MemberText>, field: Field) -> Option<nat>
    decreases list.len(),
{
    if list.len() == 0 {
        None
    } else if stands_for(list.last().key, field) {
        Some(wire::decimal(list.last().value))
    } else {
        last_value(list.drop_last(), field)
    }
}

/// A key stands for a field exactly if it is recognised as such.
pub proof fn law_keys_are_known_by_length_and_first_letter(key: Seq<u8>, field: Field)
    ensures
        wire::field_of(key) == Some(field) <==> stands_for(key, field),
{
}

proof fn lemma_last_value(list: Seq<MemberText>, field: Field)
    requires
        all_fit(list),
    ensures
        match last_value(list, field) {
            Some(v) => v <= u64::MAX && wire::value_of(said(list), field) == Some(v as u64),
            None => wire::value_of(said(list), field) is None,
        },
    decreases list.len(),
{
    if list.len() > 0 {
        let front = list.drop_last();
        assert(said(list).drop_last() =~= said(front));
        assert(list[list.len() - 1].fits());
        law_keys_are_known_by_length_and_first_letter(list.last().key, field);
        assert forall|j: int| 0 <= j < front.len() implies (#[trigger] front[j]).fits() by {
            assert(front[j] == list[j]);
        }
        lemma_last_value(front, field);
    }
}

proof fn lemma_order_from_members(o: ObjectText)
    ensures
        o.order() == (if all_fit(o.members) {
            wire::order_from(said(o.members))
        } else {
            None
        }),
{
    if all_fit(o.members) {
        lemma_last_value(o.members, Field::Id);
        lemma_last_value(o.members, Field::Price);
        lemma_last_value(o.members, Field::Quantity);
        lemma_last_value(o.members, Field::Side);
    }
}

/// An object is read as what its members say, wherever it stands and whatever follows it. One with
/// a number beyond 64 bits is not read.
pub proof fn law_object_is_read_as_its_members_say(b: Seq<u8>, i: int, o: ObjectText)
    requires
        o.wf(),
        wire_laws::stands(b, i, o.text()),
    ensures
        wire::order_object(b, i) == (match o.order() {
            Some(m) => Some((m, i + o.text().len())),
            None => None,
        }),
{
    let t = members_text(o.members);
    lemma_order_from_members(o);
    lemma_token_at(b, i, o.before, '{' as u8, t);
    let j = i + o.before.len() + 1;
    if o.members.len() == 0 {
        wire_laws::lemma_byte_stands(b, j, '}' as u8);
        assert(wire::past_spaces(b, j) == j);
        assert(wire::members(b, j) is None);
    } else {
        lemma_members_at(b, j, o.members);
    }
}

/// The value of a field of an order.
pub open spec fn field_value(m: OrderMsg, field: Field) -> u64 {
    match field {
        Field::Id => m.id,
        Field::Price => m.price,
        Field::Quantity => m.quantity,
        Field::Side => m.side as u64,
    }
}

/// Whether a member gives a field of an order its value.
pub open spec fn gives(t: MemberText, m: OrderMsg, field: Field) -> bool {
    &&& t.key == wire_laws::key_of(field)
    &&& wire::decimal(t.value) == field_value(m, field)
}

/// Whether the members are the four fields of an order, in any order.
pub open spec fn describes(list: Seq<MemberText>, m: OrderMsg) -> bool {
    &&& list.len() == 4
    &&& exists|i: int| 0 <= i < 4 && gives(#[trigger] list[i], m, Field::Id)
    &&& exists|i: int| 0 <= i < 4 && gives(#[trigger] list[i], m, Field::Price)
    &&& exists|i: int| 0 <= i < 4 && gives(#[trigger] list[i], m, Field::Quantity)
    &&& exists|i: int| 0 <= i < 4 && gives(#[trigger] list[i], m, Field::Side)
}

proof fn lemma_value_of_one(list: Seq<MemberText>, field: Field, at: int)
    requires
        0 <= at < list.len(),
        stands_for(list[at].key, field),
        forall|j: int| 0 <= j < list.len() && j != at ==> !stands_for((#[trigger] list[j]).key, field),
    ensures
        last_value(list, field) == Some(wire::decimal(list[at].value)),
    decreases list.len(),
{
    if at < list.len() - 1 {
        let front = list.drop_last();
        assert forall|j: int| 0 <= j < front.len() && j != at implies !stands_for(
            (#[trigger] front[j]).key,
            field,
        ) by {
            assert(front[j] == list[j]);
        }
        assert(list.last() == list[list.len() - 1]);
        lemma_value_of_one(front, field, at);
    }
}

proof fn lemma_value_of_none(list: Seq<MemberText>, field: Field)
    requires
        forall|j: int| 0 <= j < list.len() ==> !stands_for((#[trigger] list[j]).key, field),
    ensures
        last_value(list, field) is None,
    decreases list.len(),
{
    if list.len() > 0 {
        let front = list.drop_last();
        assert forall|j: int| 0 <= j < front.len() implies !stands_for(
            (#[trigger] front[j]).key,
            field,
        ) by {
            assert(front[j] == list[j]);
        }
        assert(list.last() == list[list.len() - 1]);
        lemma_value_of_none(front, field);
    }
}

proof fn lemma_giving_key(t: MemberText, m: OrderMsg, field: Field)
    requires
        gives(t, m, field),
    ensures
        stands_for(t.key, field),
        forall|f: Field| f != field ==> !#[trigger] stands_for(t.key, f),
        t.fits(),
{
    wire_laws::lemma_key_names(field);
    law_keys_are_known_by_length_and_first_letter(t.key, field);
}

/// Which member gives each field, and that no other member stands for it.
proof fn lemma_place(list: Seq<MemberText>, m: OrderMsg, field: Field) -> (at: int)
    requires
        describes(list, m),
    ensures
        0 <= at < 4,
        gives(list[at], m, field),
        stands_for(list[at].key, field),
        forall|j: int| 0 <= j < 4 && j != at ==> !stands_for((#[trigger] list[j]).key, field),
        all_fit(list),
{
    let i = choose|i: int| 0 <= i < 4 && gives(#[trigger] list[i], m, Field::Id);
    let p = choose|i: int| 0 <= i < 4 && gives(#[trigger] list[i], m, Field::Price);
    let q = choose|i: int| 0 <= i < 4 && gives(#[trigger] list[i], m, Field::Quantity);
    let s = choose|i: int| 0 <= i < 4 && gives(#[trigger] list[i], m, Field::Side);
    lemma_giving_key(list[i], m, Field::Id);
    lemma_giving_key(list[p], m, Field::Price);
    lemma_giving_key(list[q], m, Field::Quantity);
    lemma_giving_key(list[s], m, Field::Side);
    assert(i != p && i != q && i != s && p != q && p != s && q != s);
    assert forall|j: int| 0 <= j < list.len() implies (#[trigger] list[j]).fits() by {
        assert(j == i || j == p || j == q || j == s);
    }
    match field {
        Field::Id => i,
        Field::Price => p,
        Field::Quantity => q,
        Field::Side => s,
    }
}

proof fn lemma_described_value(list: Seq<MemberText>, m: OrderMsg, field: Field)
    requires
        describes(list, m),
    ensures
        last_value(list, field) == Some(field_value(m, field) as nat),
        all_fit(list),
{
    let at = lemma_place(list, m, field);
    lemma_value_of_one(list, field, at);
}

/// An order is read back in any layout: its four members may come in any order, with any white
/// space between the tokens, and bytes behind the closing brace change nothing.
pub proof fn law_order_is_read_in_any_layout(o: ObjectText, m: OrderMsg, more: Seq<u8>)
    requires
        o.wf(),
        describes(o.members, m),
    ensures
        wire::single(o.text() + more) == Some(m),
{
    lemma_described_value(o.members, m, Field::Id);
    lemma_described_value(o.members, m, Field::Price);
    lemma_described_value(o.members, m, Field::Quantity);
    lemma_described_value(o.members, m, Field::Side);
    assert(o.order() == Some(m));
    lemma_read_alone(o, more);
}

/// What is read of an object at the front of a body.
proof fn lemma_read_alone(o: ObjectText, more: Seq<u8>)
    requires
        o.wf(),
    ensures
        wire::single(o.text() + more) == o.order(),
{
    let b = o.text() + more;
    assert(b.subrange(0, o.text().len() as int) =~= o.text());
    law_object_is_read_as_its_members_say(b, 0, o);
}

/// An object without some member of an order.
pub open spec fn without(o: ObjectText, k: int) -> ObjectText {
    ObjectText { members: o.members.remove(k), ..o }
}

/// The value of a field after a member is gone.
proof fn lemma_value_without(list: Seq<MemberText>, m: OrderMsg, k: int, field: Field)
    requires
        describes(list, m),
        0 <= k < 4,
    ensures
        last_value(list.remove(k), field) == (if gives(list[k], m, field) {
            None
        } else {
            Some(field_value(m, field) as nat)
        }),
{
    let short = list.remove(k);
    let at = lemma_place(list, m, field);
    assert forall|j: int| 0 <= j < short.len() implies #[trigger] short[j] == list[if j < k {
        j
    } else {
        j + 1
    }] by {}
    if at == k {
        lemma_value_of_none(short, field);
    } else {
        if gives(list[k], m, field) {
            lemma_giving_key(list[k], m, field);
        }
        let p = if at < k {
            at
        } else {
            at - 1
        };
        lemma_value_of_one(short, field, p);
    }
}

/// Every member gives some field.
proof fn lemma_some_field(list: Seq<MemberText>, m: OrderMsg, k: int)
    requires
        describes(list, m),
        0 <= k < 4,
    ensures
        gives(list[k], m, Field::Id) || gives(list[k], m, Field::Price) || gives(
            list[k],
            m,
            Field::Quantity,
        ) || gives(list[k], m, Field::Side),
        gives(list[k], m, Field::Id) ==> !gives(list[k], m, Field::Price) && !gives(
            list[k],
            m,
            Field::Quantity,
        ) && !gives(list[k], m, Field::Side),
{
    let i = lemma_place(list, m, Field::Id);
    let p = lemma_place(list, m, Field::Price);
    let q = lemma_place(list, m, Field::Quantity);
    let s = lemma_place(list, m, Field::Side);
    lemma_giving_key(list[i], m, Field::Id);
    lemma_giving_key(list[p], m, Field::Price);
    lemma_giving_key(list[q], m, Field::Quantity);
    lemma_giving_key(list[s], m, Field::Side);
    assert(i != p && i != q && i != s && p != q && p != s && q != s);
    assert(k == i || k == p || k == q || k == s);
    if gives(list[k], m, Field::Id) {
        lemma_giving_key(list[k], m, Field::Id);
        if gives(list[k], m, Field::Price) {
            lemma_giving_key(list[k], m, Field::Price);
        }
        if gives(list[k], m, Field::Quantity) {
            lemma_giving_key(list[k], m, Field::Quantity);
        }
        if gives(list[k], m, Field::Side) {
            lemma_giving_key(list[k], m, Field::Side);
        }
    }
}

/// Without its identifier an order is read with the identifier zero; without its price, its quantity
/// or its side it is not read. Bytes behind the closing brace change nothing.
pub proof fn law_only_the_identifier_may_be_missing(
    o: ObjectText,
    m: OrderMsg,
    k: int,
    more: Seq<u8>,
)
    requires
        o.wf(),
        describes(o.members, m),
        0 <= k < 4,
    ensures
        wire::single(without(o, k).text() + more) == (if gives(o.members[k], m, Field::Id) {
            Some(OrderMsg { id: 0, ..m })
        } else {
            None
        }),
{
    let list = o.members;
    let short = list.remove(k);
    let w = without(o, k);
    let _ = lemma_place(list, m, Field::Id);
    assert forall|j: int| 0 <= j < short.len() implies (#[trigger] short[j]).wf()
        && short[j].fits() by {
        assert(short[j] == list[if j < k {
            j
        } else {
            j + 1
        }]);
    }
    lemma_some_field(list, m, k);
    lemma_value_without(list, m, k, Field::Id);
    lemma_value_without(list, m, k, Field::Price);
    lemma_value_without(list, m, k, Field::Quantity);
    lemma_value_without(list, m, k, Field::Side);
    assert(w.order() == (if gives(list[k], m, Field::Id) {
        Some(OrderMsg { id: 0, ..m })
    } else {
        None
    }));
    lemma_read_alone(w, more);
}

/// An object with one more member.
pub open spec fn with_member(o: ObjectText, k: int, t: MemberText) -> ObjectText {
    ObjectText { members: o.members.insert(k, t), ..o }
}

proof fn lemma_foreign_member(list: Seq<MemberText>, k: int, t: MemberText, field: Field)
    requires
        0 <= k <= list.len(),
        !stands_for(t.key, field),
    ensures
        last_value(list.insert(k, t), field) == last_value(list, field),
    decreases list.len(),
{
    let more = list.insert(k, t);
    if k == list.len() {
        assert(more.drop_last() =~= list);
    } else {
        assert(more.last() == list.last());
        assert(more.drop_last() =~= list.drop_last().insert(k, t));
        lemma_foreign_member(list.drop_last(), k, t, field);
    }
}

/// A member whose key has not the length and the first letter of a field's name is ignored, wherever
/// it stands: the order that is read is the same with it and without it.
pub proof fn law_foreign_member_changes_nothing(
    o: ObjectText,
    k: int,
    t: MemberText,
    more: Seq<u8>,
)
    requires
        o.wf(),
        t.wf(),
        t.fits(),
        0 <= k <= o.members.len(),
        !(t.key.len() == 2 && t.key[0] == 105),
        !(t.key.len() == 5 && t.key[0] == 112),
        !(t.key.len() == 8 && t.key[0] == 113),
        !(t.key.len() == 4 && t.key[0] == 115),
    ensures
        wire::single(with_member(o, k, t).text() + more) == wire::single(o.text() + more),
{
    let w = with_member(o, k, t);
    let list = o.members;
    let longer = w.members;
    assert forall|j: int| 0 <= j < longer.len() implies (#[trigger] longer[j]).wf() by {
        assert(longer[j] == (if j < k {
            list[j]
        } else if j == k {
            t
        } else {
            list[j - 1]
        }));
    }
    assert(all_fit(longer) == all_fit(list)) by {
        if all_fit(list) {
            assert forall|j: int| 0 <= j < longer.len() implies (#[trigger] longer[j]).fits() by {
                assert(longer[j] == (if j < k {
                    list[j]
                } else if j == k {
                    t
                } else {
                    list[j - 1]
                }));
            }
        }
        if all_fit(longer) {
            assert forall|j: int| 0 <= j < list.len() implies (#[trigger] list[j]).fits() by {
                assert(list[j] == longer[if j < k { j } else { j + 1 }]);
            }
        }
    }
    lemma_foreign_member(list, k, t, Field::Id);
    lemma_foreign_member(list, k, t, Field::Price);
    lemma_foreign_member(list, k, t, Field::Quantity);
    lemma_foreign_member(list, k, t, Field::Side);
    lemma_read_alone(o, more);
    lemma_read_alone(w, more);
}

/// An element of an array: an object and the white space behind it.
pub struct ElementText {
    pub object: ObjectText,
    pub after: Seq<u8>,
}

impl ElementText {
    pub open spec fn wf(self) -> bool {
        &&& self.object.wf()
        &&& white(self.after)
    }

    /// What is read of the object where it stands alone.
    pub open spec fn alone(self) -> Option<OrderMsg> {
        wire::single(self.object.text())
    }
}

/// Elements and the closing bracket as text.
pub open spec fn list_text(list: Seq<ElementText>) -> Seq<u8>
    decreases list.len(),
{
    if list.len() == 0 {
        seq![']' as u8]
    } else if list.len() == 1 {
        list[0].object.text() + (list[0].after + (seq![']' as u8] + Seq::<u8>::empty()))
    } else {
        list[0].object.text() + (list[0].after + (seq![',' as u8] + list_text(list.drop_first())))
    }
}

/// Whether `n` elements at the front are readable and the one behind them, if any, is not.
pub open spec fn readable(list: Seq<ElementText>, n: int) -> bool {
    &&& 0 <= n <= list.len()
    &&& forall|j: int| 0 <= j < n ==> (#[trigger] list[j]).alone() is Some
    &&& n < list.len() ==> list[n].alone() is None
}

/// The orders in elements at the front.
pub open spec fn orders_in(list: Seq<ElementText>, n: int) -> Seq<OrderMsg> {
    Seq::new(n as nat, |j: int| list[j].alone()->0)
}

proof fn lemma_element_at(b: Seq<u8>, i: int, e: ElementText, c: u8, rest: Seq<u8>)
    requires
        e.wf(),
        wire_laws::stands(b, i, e.object.text() + (e.after + (seq![c] + rest))),
        c == ',' as u8 || c == ']' as u8,
    ensures
        ({
            let end = i + e.object.text().len();
            let j = end + e.after.len();
            &&& wire::order_object(b, i) == (match e.alone() {
                Some(m) => Some((m, end)),
                None => None,
            })
            &&& wire::past_spaces(b, end) == j
            &&& 0 <= j < b.len()
            &&& b[j] == c
            &&& wire_laws::stands(b, j + 1, rest)
        }),
{
    let t = e.object.text();
    wire_laws::lemma_stands_split(b, i, t, e.after + (seq![c] + rest));
    law_object_is_read_as_its_members_say(b, i, e.object);
    assert(t.subrange(0, t.len() as int) =~= t);
    law_object_is_read_as_its_members_say(t, 0, e.object);
    lemma_token_at(b, i + t.len(), e.after, c, rest);
}

proof fn lemma_readable_behind_first(list: Seq<ElementText>, n: int)
    requires
        list.len() > 0,
        n > 0,
        readable(list, n),
        forall|j: int| 0 <= j < list.len() ==> (#[trigger] list[j]).wf(),
    ensures
        ({
            let others = list.drop_first();
            &&& readable(others, n - 1)
            &&& forall|j: int| 0 <= j < others.len() ==> (#[trigger] others[j]).wf()
            &&& orders_in(list, n) == seq![list[0].alone()->0] + orders_in(others, n - 1)
        }),
{
    let others = list.drop_first();
    assert forall|k: int| 0 <= k < others.len() implies (#[trigger] others[k]).wf() by {
        assert(others[k] == list[k + 1]);
    }
    assert forall|k: int| 0 <= k < n - 1 implies (#[trigger] others[k]).alone() is Some by {
        assert(others[k] == list[k + 1]);
    }
    if n - 1 < others.len() {
        assert(others[n - 1] == list[n]);
    }
    assert(orders_in(list, n) =~= seq![list[0].alone()->0] + orders_in(others, n - 1));
}

#[verifier::spinoff_prover]
proof fn lemma_elements_at(b: Seq<u8>, i: int, list: Seq<ElementText>, n: int)
    requires
        list.len() > 0,
        forall|j: int| 0 <= j < list.len() ==> (#[trigger] list[j]).wf(),
        wire_laws::stands(b, i, list_text(list)),
        readable(list, n),
    ensures
        wire::elements(b, i).orders == orders_in(list, n),
        wire::elements(b, i).end == (if n == list.len() {
            Some(i + list_text(list).len())
        } else {
            None
        }),
    decreases list.len(),
{
    let e = list[0];
    let j = i + e.object.text().len() + e.after.len();
    if list.len() == 1 {
        lemma_element_at(b, i, e, ']' as u8, Seq::empty());
        if n == 1 {
            assert(orders_in(list, n) =~= seq![e.alone()->0]);
        } else {
            assert(orders_in(list, n) =~= Seq::<OrderMsg>::empty());
        }
    } else {
        let others = list.drop_first();
        lemma_element_at(b, i, e, ',' as u8, list_text(others));
        if n == 0 {
            assert(orders_in(list, n) =~= Seq::<OrderMsg>::empty());
        } else {
            lemma_readable_behind_first(list, n);
            lemma_elements_at(b, j + 1, others, n - 1);
        }
    }
}

pub proof fn lemma_array_at(b: Seq<u8>, i: int, list: Seq<ElementText>, n: int)
    requires
        forall|j: int| 0 <= j < list.len() ==> (#[trigger] list[j]).wf(),
        wire_laws::stands(b, i, list_text(list)),
        readable(list, n),
    ensures
        wire::array(b, i).orders == orders_in(list, n),
        wire::array(b, i).end == (if n == list.len() {
            Some(i + list_text(list).len())
        } else {
            None
        }),
{
    if list.len() == 0 {
        wire_laws::lemma_byte_stands(b, i, ']' as u8);
        assert(orders_in(list, n) =~= Seq::<OrderMsg>::empty());
    } else {
        let o = list[0].object;
        let tail = list_text(list).skip(o.text().len() as int);
        assert(list_text(list) =~= o.text() + tail);
        wire_laws::lemma_stands_split(b, i, o.text(), tail);
        lemma_token_at(b, i, o.before, '{' as u8, members_text(o.members));
        wire_laws::law_white_space_is_skipped(b, i, '{' as u8);
        lemma_elements_at(b, i, list, n);
        assert(wire::elements(b, i) == wire::elements(b, wire::past_spaces(b, i)));
    }
}

/// A batch as text, with the white space between its tokens.
pub struct BatchText {
    pub before: Seq<u8>,
    pub before_key: Seq<u8>,
    pub before_colon: Seq<u8>,
    pub before_bracket: Seq<u8>,
    pub elements: Seq<ElementText>,
    pub before_brace: Seq<u8>,
}

impl BatchText {
    pub open spec fn wf(self) -> bool {
        &&& white(self.before)
        &&& white(self.before_key)
        &&& white(self.before_colon)
        &&& white(self.before_bracket)
        &&& white(self.before_brace)
        &&& forall|j: int| 0 <= j < self.elements.len() ==> (#[trigger] self.elements[j]).wf()
    }

    /// The text, with `more` behind it.
    pub open spec fn text(self, more: Seq<u8>) -> Seq<u8> {
        self.before + (seq!['{' as u8] + (self.before_key + (wire_laws::quoted(
            text::bytes_of("orders"),
        ) + (self.before_colon + (seq![':' as u8] + (self.before_bracket + (seq!['[' as u8] + (
        list_text(self.elements) + (self.before_brace + (seq!['}' as u8] + more))))))))))
    }
}

/// The head of a section.
proof fn lemma_section_head_at(b: Seq<u8>, i: int, t: BatchText, rest: Seq<u8>)
    requires
        t.wf(),
        wire_laws::stands(
            b,
            i,
            t.before_key + (wire_laws::quoted(text::bytes_of("orders")) + (t.before_colon + (seq![
                ':' as u8,
            ] + (t.before_bracket + (seq!['[' as u8] + rest))))),
        ),
    ensures
        wire::section_head(b, i) is Some,
        wire_laws::stands(b, wire::section_head(b, i)->0, rest),
{
    let k = text::bytes_of("orders");
    let t3 = t.before_bracket + (seq!['[' as u8] + rest);
    let t2 = t.before_colon + (seq![':' as u8] + t3);
    assert(forall|x: int| 0 <= x < k.len() ==> #[trigger] k[x] != '"' as u8) by {
        reveal_strlit("orders");
        vstd::string::is_ascii_spec_bytes("orders");
    }
    lemma_key_behind(b, i, t.before_key, k, t2);
    let l = i + t.before_key.len() + wire_laws::quoted(k).len();
    lemma_token_at(b, l, t.before_colon, ':' as u8, t3);
    lemma_token_at(b, l + t.before_colon.len() + 1, t.before_bracket, '[' as u8, rest);
}

/// The text in front of the elements.
proof fn lemma_batch_head(t: BatchText, more: Seq<u8>) -> (s: int)
    requires
        t.wf(),
    ensures
        ({
            let b = t.text(more);
            let i = t.before.len() as int + 1;
            &&& wire::token(b, 0, '{' as u8) == Some(i)
            &&& wire::section_head(b, i) == Some(s)
            &&& wire_laws::stands(
                b,
                s,
                list_text(t.elements) + (t.before_brace + (seq!['}' as u8] + more)),
            )
        }),
{
    let b = t.text(more);
    let q = wire_laws::quoted(text::bytes_of("orders"));
    let rest = list_text(t.elements) + (t.before_brace + (seq!['}' as u8] + more));
    let head = t.before_key + (q + (t.before_colon + (seq![':' as u8] + (t.before_bracket + (seq![
        '[' as u8,
    ] + rest)))));
    let i = t.before.len() as int + 1;
    assert(b.subrange(0, b.len() as int) =~= b);
    lemma_token_at(b, 0, t.before, '{' as u8, head);
    lemma_section_head_at(b, i, t, rest);
    wire::section_head(b, i)->0
}

/// A batch is its objects one by one, each read as it would be alone: if all of them can be read,
/// the batch is read as their orders in turn; otherwise it is refused, and the orders met are exactly
/// those in front of the first that cannot be read. Bytes behind the closing brace change nothing.
pub proof fn law_batch_is_its_objects_one_by_one(t: BatchText, n: int, more: Seq<u8>)
    requires
        t.wf(),
        readable(t.elements, n),
    ensures
        wire::batch(t.text(more)).orders == orders_in(t.elements, n),
        wire::batch(t.text(more)).end is Some <==> n == t.elements.len(),
{
    let b = t.text(more);
    let close = t.before_brace + (seq!['}' as u8] + more);
    let s = lemma_batch_head(t, more);
    wire_laws::lemma_stands_split(b, s, list_text(t.elements), close);
    lemma_array_at(b, s, t.elements, n);
    let e = s + list_text(t.elements).len();
    lemma_token_at(b, e, t.before_brace, '}' as u8, more);
}

} // verus!
