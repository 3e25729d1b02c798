//! Laws of what is read at all: nothing but numbers, orders and batches of the stated form.

use vstd::prelude::*;
use crate::layout_laws;
use crate::layout_laws::{ElementText, MemberText, ObjectText};
use crate::text;
use crate::wire;
use crate::wire::{Member, OrderMsg};
use crate::wire_laws;

verus! {

/// Ten to the power of `n`.
pub open spec fn power_of_ten(n: nat) -> nat
    decreases n,
{
    if n == 0 {
        1
    } else {
        10 * power_of_ten((n - 1) as nat)
    }
}

/// Digits count by their place: one digit is worth its number, and digits behind others shift those
/// by as many places.
pub proof fn law_digits_count_by_their_place(c: u8, front: Seq<u8>, back: Seq<u8>)
    requires
        48 <= c <= 57,
    ensures
        wire::decimal(Seq::empty()) == 0,
        wire::decimal(seq![c]) == c - 48,
        layout_laws::all_digits(front) && layout_laws::all_digits(back) ==> wire::decimal(
            front + back,
        ) == wire::decimal(front) * power_of_ten(back.len()) + wire::decimal(back),
    decreases back.len(),
{
    reveal_with_fuel(wire::decimal, 2);
    assert(seq![c].drop_last() =~= Seq::<u8>::empty());
    if layout_laws::all_digits(front) && layout_laws::all_digits(back) {
        lemma_digits_shift(front, back);
    }
}

proof fn lemma_digits_shift(front: Seq<u8>, back: Seq<u8>)
    requires
        forall|j: int| 0 <= j < front.len() ==> 48 <= #[trigger] front[j] <= 57,
        forall|j: int| 0 <= j < back.len() ==> 48 <= #[trigger] back[j] <= 57,
    ensures
        wire::decimal(front + back) == wire::decimal(front) * power_of_ten(back.len())
            + wire::decimal(back),
    decreases back.len(),
{
    if back.len() == 0 {
        assert(front + back =~= front);
        assert(wire::decimal(front) * 1 == wire::decimal(front)) by (nonlinear_arith);
    } else {
        let rest = back.drop_last();
        let x = wire::decimal(front) as int;
        let p = power_of_ten(rest.len()) as int;
        assert((front + back).drop_last() =~= front + rest);
        assert((front + back).last() == back.last());
        assert(back.last() == back[back.len() - 1]);
        lemma_digits_shift(front, rest);
        assert(x * (10 * p) == 10 * (x * p)) by (nonlinear_arith);
    }
}

proof fn lemma_join(b: Seq<u8>, i: int, p: Seq<u8>, q: Seq<u8>)
    requires
        wire_laws::stands(b, i, p),
        wire_laws::stands(b, i + p.len(), q),
    ensures
        wire_laws::stands(b, i, p + q),
{
    assert(b.subrange(i, i + (p + q).len()) =~= b.subrange(i, i + p.len()) + b.subrange(
        i + p.len(),
        i + p.len() + q.len(),
    ));
}

proof fn lemma_one_byte(b: Seq<u8>, i: int)
    requires
        0 <= i < b.len(),
    ensures
        wire_laws::stands(b, i, seq![b[i]]),
{
    assert(b.subrange(i, i + 1) =~= seq![b[i]]);
}

/// The white space at a position.
proof fn lemma_spaces_are_white(b: Seq<u8>, i: int) -> (w: Seq<u8>)
    requires
        0 <= i <= b.len(),
    ensures
        layout_laws::white(w),
        wire_laws::stands(b, i, w),
        wire::past_spaces(b, i) == i + w.len(),
    decreases b.len() - i,
{
    if i < b.len() && wire::is_space(b[i]) {
        let rest = lemma_spaces_are_white(b, i + 1);
        let w = seq![b[i]] + rest;
        lemma_one_byte(b, i);
        lemma_join(b, i, seq![b[i]], rest);
        w
    } else {
        assert(b.subrange(i, i) =~= Seq::<u8>::empty());
        Seq::empty()
    }
}

/// A byte that was read, and the white space in front of it.
proof fn lemma_token_read(b: Seq<u8>, i: int, c: u8) -> (w: Seq<u8>)
    requires
        0 <= i <= b.len(),
        wire::token(b, i, c) is Some,
    ensures
        layout_laws::white(w),
        wire_laws::stands(b, i, w + seq![c]),
        wire::token(b, i, c) == Some(i + w.len() + 1),
        wire::past_spaces(b, i) == i + w.len(),
        i + w.len() < b.len(),
{
    let w = lemma_spaces_are_white(b, i);
    lemma_one_byte(b, i + w.len());
    lemma_join(b, i, w, seq![c]);
    w
}

/// A key that was read.
proof fn lemma_key_read(b: Seq<u8>, i: int) -> (w: Seq<u8>)
    requires
        0 <= i <= b.len(),
        wire::key(b, i) is Some,
    ensures
        ({
            let (k, e) = wire::key(b, i)->0;
            &&& layout_laws::white(w)
            &&& forall|j: int| 0 <= j < k.len() ==> #[trigger] k[j] != '"' as u8
            &&& wire_laws::stands(b, i, w + wire_laws::quoted(k))
            &&& e == i + w.len() + wire_laws::quoted(k).len()
            &&& e <= b.len()
        }),
{
    let w = lemma_token_read(b, i, '"' as u8);
    let (k, e) = wire::key(b, i)->0;
    let j = i + w.len() + 1;
    text::lemma_find(b, '"' as u8, j);
    let q = text::find(b, '"' as u8, j);
    assert forall|x: int| 0 <= x < k.len() implies #[trigger] k[x] != '"' as u8 by {
        assert(k[x] == b[j + x]);
    }
    lemma_one_byte(b, q);
    assert(wire_laws::stands(b, j, k));
    lemma_join(b, i, w + seq!['"' as u8], k);
    lemma_join(b, i, w + seq!['"' as u8] + k, seq!['"' as u8]);
    assert(w + seq!['"' as u8] + k + seq!['"' as u8] =~= w + wire_laws::quoted(k));
    w
}

/// A number that was read.
proof fn lemma_number_read(b: Seq<u8>, i: int) -> (r: (Seq<u8>, Seq<u8>))
    requires
        0 <= i <= b.len(),
        wire::number(b, i) is Some,
    ensures
        ({
            let (v, e) = wire::number(b, i)->0;
            &&& layout_laws::white(r.0)
            &&& layout_laws::all_digits(r.1)
            &&& wire_laws::stands(b, i, r.0 + r.1)
            &&& e == i + r.0.len() + r.1.len()
            &&& e <= b.len()
            &&& wire::decimal(r.1) == v
        }),
{
    let w = lemma_spaces_are_white(b, i);
    let j = i + w.len();
    wire::lemma_past_digits(b, j);
    let e = wire::past_digits(b, j);
    let d = b.subrange(j, e);
    assert forall|x: int| 0 <= x < d.len() implies 48 <= #[trigger] d[x] <= 57 by {
        assert(d[x] == b[j + x]);
        assert(wire::is_digit(b[j + x]));
    }
    lemma_join(b, i, w, d);
    (w, d)
}

/// A member that was read.
proof fn lemma_member_read(b: Seq<u8>, i: int) -> (t: MemberText)
    requires
        0 <= i <= b.len(),
        wire::member(b, i) is Some,
    ensures
        ({
            let (m, e) = wire::member(b, i)->0;
            &&& t.wf()
            &&& t.fits()
            &&& t.after == Seq::<u8>::empty()
            &&& t.member() == m
            &&& wire_laws::stands(b, i, t.body())
            &&& e == i + t.body().len()
            &&& e <= b.len()
        }),
{
    let w1 = lemma_key_read(b, i);
    let (k, j) = wire::key(b, i)->0;
    let w2 = lemma_token_read(b, j, ':' as u8);
    let l = wire::token(b, j, ':' as u8)->0;
    let (w3, d) = lemma_number_read(b, l);
    let t = MemberText {
        before: w1,
        key: k,
        before_colon: w2,
        before_value: w3,
        value: d,
        after: Seq::empty(),
    };
    let q = wire_laws::quoted(k);
    lemma_join(b, i, w1 + q, w2 + seq![':' as u8]);
    lemma_join(b, i, w1 + q + (w2 + seq![':' as u8]), w3 + d);
    assert(w1 + q + (w2 + seq![':' as u8]) + (w3 + d) =~= t.body());
    t
}

/// Members that were read.
proof fn lemma_members_read(b: Seq<u8>, i: int) -> (list: Seq<MemberText>)
    requires
        0 <= i <= b.len(),
        wire::members(b, i) is Some,
    ensures
        ({
            let (ms, e) = wire::members(b, i)->0;
            &&& list.len() > 0
            &&& layout_laws::all_wf(list)
            &&& layout_laws::all_fit(list)
            &&& layout_laws::said(list) == ms
            &&& wire_laws::stands(b, i, layout_laws::members_text(list))
            &&& e == i + layout_laws::members_text(list).len()
        }),
    decreases b.len() - i,
{
    let (m, e) = wire::member(b, i)->0;
    let bare = lemma_member_read(b, i);
    let w = lemma_spaces_are_white(b, e);
    let j = e + w.len();
    let t = MemberText { after: w, ..bare };
    assert(t.body() == bare.body());
    lemma_join(b, i, bare.body(), w);
    lemma_one_byte(b, j);
    lemma_join(b, i, t.text(), seq![b[j]]);
    if b[j] == ',' as u8 {
        wire::lemma_member_advances(b, i);
        let others = lemma_members_read(b, j + 1);
        let list = seq![t] + others;
        lemma_join(b, i, t.text() + seq![b[j]], layout_laws::members_text(others));
        assert(list.drop_first() =~= others);
        assert(t.text() + seq![b[j]] + layout_laws::members_text(others)
            =~= layout_laws::members_text(list));
        assert(layout_laws::said(list) =~= seq![m] + layout_laws::said(others));
        list
    } else {
        let list = seq![t];
        assert(layout_laws::said(list) =~= seq![m]);
        list
    }
}

/// Nothing is read as an order but an object of the stated form: what stands where an order is read
/// is the text of an object that describes this order.
pub proof fn law_only_objects_are_read(b: Seq<u8>, i: int) -> (o: ObjectText)
    requires
        0 <= i <= b.len(),
        wire::order_object(b, i) is Some,
    ensures
        ({
            let (m, e) = wire::order_object(b, i)->0;
            &&& o.wf()
            &&& o.order() == Some(m)
            &&& wire_laws::stands(b, i, o.text())
            &&& e == i + o.text().len()
        }),
{
    let w = lemma_token_read(b, i, '{' as u8);
    let j = i + w.len() + 1;
    let list = lemma_members_read(b, j);
    let o = ObjectText { before: w, members: list };
    lemma_join(b, i, w + seq!['{' as u8], layout_laws::members_text(list));
    assert(w + seq!['{' as u8] + layout_laws::members_text(list) =~= o.text());
    layout_laws::law_object_is_read_as_its_members_say(b, i, o);
    o
}

/// Nothing is read as a single order but an object of the stated form at the front of the body.
pub proof fn law_only_an_order_is_read_as_a_single(body: Seq<u8>) -> (o: ObjectText)
    requires
        wire::single(body) is Some,
    ensures
        o.wf(),
        o.order() == wire::single(body),
        wire_laws::stands(body, 0, o.text()),
{
    law_only_objects_are_read(body, 0)
}

/// Elements that were read.
#[verifier::spinoff_prover]
proof fn lemma_elements_read(b: Seq<u8>, i: int) -> (list: Seq<ElementText>)
    requires
        0 <= i <= b.len(),
        wire::elements(b, i).end is Some,
    ensures
        list.len() > 0,
        forall|j: int| 0 <= j < list.len() ==> (#[trigger] list[j]).wf(),
        wire_laws::stands(b, i, layout_laws::list_text(list)),
        wire::elements(b, i).end == Some(i + layout_laws::list_text(list).len()),
        wire::elements(b, i).orders.len() == list.len(),
        forall|j: int|
            0 <= j < list.len() ==> (#[trigger] list[j]).object.order() == Some(
                wire::elements(b, i).orders[j],
            ),
    decreases b.len() - i,
{
    let o = law_only_objects_are_read(b, i);
    let (m, e) = wire::order_object(b, i)->0;
    let w = lemma_spaces_are_white(b, e);
    let j = e + w.len();
    let t = ElementText { object: o, after: w };
    lemma_one_byte(b, j);
    lemma_join(b, i, o.text(), w);
    lemma_join(b, i, o.text() + w, seq![b[j]]);
    if b[j] == ',' as u8 {
        wire::lemma_order_advances(b, i);
        let others = lemma_elements_read(b, j + 1);
        let list = seq![t] + others;
        lemma_join(b, i, o.text() + w + seq![b[j]], layout_laws::list_text(others));
        assert(list.drop_first() =~= others);
        assert(o.text() + w + seq![b[j]] + layout_laws::list_text(others) =~= layout_laws::list_text(
            list,
        ));
        let all = wire::elements(b, i).orders;
        let rest = wire::elements(b, j + 1).orders;
        assert forall|x: int| 0 <= x < list.len() implies (#[trigger] list[x]).wf()
            && list[x].object.order() == Some(all[x]) by {
            if x > 0 {
                assert(list[x] == others[x - 1]);
                assert(all[x] == rest[x - 1]);
            }
        }
        list
    } else {
        let list = seq![t];
        assert(o.text() + w + seq![b[j]] =~= layout_laws::list_text(list));
        list
    }
}

/// A section of a batch: the key, its colon and bracket, and the elements, or nothing but white space
/// in the brackets.
pub struct SectionText {
    pub before_key: Seq<u8>,
    pub before_colon: Seq<u8>,
    pub before_bracket: Seq<u8>,
    pub inside: Seq<u8>,
    pub elements: Seq<ElementText>,
    pub after: Seq<u8>,
}

impl SectionText {
    pub open spec fn wf(self) -> bool {
        &&& layout_laws::white(self.before_key)
        &&& layout_laws::white(self.before_colon)
        &&& layout_laws::white(self.before_bracket)
        &&& layout_laws::white(self.inside)
        &&& layout_laws::white(self.after)
        &&& forall|j: int| 0 <= j < self.elements.len() ==> (#[trigger] self.elements[j]).wf()
        &&& forall|j: int|
            0 <= j < self.elements.len() ==> (#[trigger] self.elements[j]).object.order() is Some
    }

    pub open spec fn text(self) -> Seq<u8> {
        self.before_key + wire_laws::quoted(text::bytes_of("orders")) + self.before_colon + seq![
            ':' as u8,
        ] + self.before_bracket + seq!['[' as u8] + self.inside + layout_laws::list_text(
            self.elements,
        ) + self.after
    }

    pub open spec fn orders(self) -> Seq<OrderMsg> {
        self.elements.map_values(|e: ElementText| e.object.order()->0)
    }
}

/// Sections with commas between them.
pub open spec fn sections_text(list: Seq<SectionText>) -> Seq<u8>
    decreases list.len(),
{
    if list.len() == 0 {
        Seq::empty()
    } else if list.len() == 1 {
        list[0].text()
    } else {
        list[0].text() + seq![',' as u8] + sections_text(list.drop_first())
    }
}

/// The orders of sections, one behind the other.
pub open spec fn sections_orders(list: Seq<SectionText>) -> Seq<OrderMsg>
    decreases list.len(),
{
    if list.len() == 0 {
        Seq::empty()
    } else {
        list[0].orders() + sections_orders(list.drop_first())
    }
}

/// The head of a section that was read.
proof fn lemma_section_head_read(b: Seq<u8>, i: int) -> (w: (Seq<u8>, Seq<u8>, Seq<u8>))
    requires
        0 <= i <= b.len(),
        wire::section_head(b, i) is Some,
    ensures
        ({
            let head = w.0 + wire_laws::quoted(text::bytes_of("orders")) + w.1 + seq![':' as u8]
                + w.2 + seq!['[' as u8];
            &&& layout_laws::white(w.0)
            &&& layout_laws::white(w.1)
            &&& layout_laws::white(w.2)
            &&& wire_laws::stands(b, i, head)
            &&& wire::section_head(b, i) == Some(i + head.len())
        }),
{
    let w1 = lemma_key_read(b, i);
    let (k, j) = wire::key(b, i)->0;
    let w2 = lemma_token_read(b, j, ':' as u8);
    let l = wire::token(b, j, ':' as u8)->0;
    let w3 = lemma_token_read(b, l, '[' as u8);
    let q = wire_laws::quoted(k);
    lemma_join(b, i, w1 + q, w2 + seq![':' as u8]);
    lemma_join(b, i, w1 + q + (w2 + seq![':' as u8]), w3 + seq!['[' as u8]);
    assert(w1 + q + (w2 + seq![':' as u8]) + (w3 + seq!['[' as u8]) =~= w1 + q + w2 + seq![
        ':' as u8,
    ] + w3 + seq!['[' as u8]);
    (w1, w2, w3)
}

/// One section that was read, up to what follows the white space behind it.
proof fn lemma_section_read(b: Seq<u8>, i: int) -> (t: SectionText)
    requires
        0 <= i <= b.len(),
        wire::section_head(b, i) is Some,
        wire::array(b, wire::section_head(b, i)->0).end is Some,
    ensures
        ({
            let a = wire::array(b, wire::section_head(b, i)->0);
            &&& t.wf()
            &&& t.orders() == a.orders
            &&& wire_laws::stands(b, i, t.text())
            &&& wire::past_spaces(b, a.end->0) == i + t.text().len()
        }),
{
    let (w1, w2, w3) = lemma_section_head_read(b, i);
    let s = wire::section_head(b, i)->0;
    let a = wire::array(b, s);
    let head = w1 + wire_laws::quoted(text::bytes_of("orders")) + w2 + seq![':' as u8] + w3 + seq![
        '[' as u8,
    ];
    let inside = lemma_spaces_are_white(b, s);
    let j = s + inside.len();
    let elements: Seq<ElementText> = if j < b.len() && b[j] == ']' as u8 {
        lemma_one_byte(b, j);
        Seq::empty()
    } else {
        lemma_elements_read(b, j)
    };
    lemma_join(b, i, head, inside);
    lemma_join(b, i, head + inside, layout_laws::list_text(elements));
    let e = a.end->0;
    let after = lemma_spaces_are_white(b, e);
    lemma_join(b, i, head + inside + layout_laws::list_text(elements), after);
    let t = SectionText {
        before_key: w1,
        before_colon: w2,
        before_bracket: w3,
        inside,
        elements,
        after,
    };
    assert(t.orders() =~= a.orders) by {
        assert forall|x: int| 0 <= x < t.orders().len() implies #[trigger] t.orders()[x]
            == a.orders[x] by {
            assert(elements[x].object.order() == Some(a.orders[x]));
        }
    }
    t
}

/// Sections that were read.
proof fn lemma_sections_read(b: Seq<u8>, i: int) -> (list: Seq<SectionText>)
    requires
        0 <= i <= b.len(),
        wire::sections(b, i).end is Some,
    ensures
        list.len() > 0,
        forall|j: int| 0 <= j < list.len() ==> (#[trigger] list[j]).wf(),
        wire_laws::stands(b, i, sections_text(list)),
        wire::sections(b, i).orders == sections_orders(list),
    decreases b.len() - i,
{
    let t = lemma_section_read(b, i);
    let s = wire::section_head(b, i)->0;
    let e = wire::array(b, s).end->0;
    let j = wire::past_spaces(b, e);
    if 0 <= j < b.len() && b[j] == ',' as u8 {
        wire::lemma_section_head_advances(b, i);
        wire::lemma_array_advances(b, s);
        wire::lemma_past_spaces(b, e);
        let others = lemma_sections_read(b, j + 1);
        let list = seq![t] + others;
        lemma_one_byte(b, j);
        lemma_join(b, i, t.text(), seq![',' as u8]);
        lemma_join(b, i, t.text() + seq![',' as u8], sections_text(others));
        assert(list.drop_first() =~= others);
        list
    } else {
        let list = seq![t];
        assert(list.drop_first() =~= Seq::<SectionText>::empty());
        assert(sections_orders(Seq::<SectionText>::empty()) =~= Seq::<OrderMsg>::empty());
        assert(sections_orders(list) =~= t.orders());
        list
    }
}

/// Nothing is read as a batch but an object that begins with sections of the stated form: where a
/// batch is read, its orders are those of the objects in these sections, in their order.
pub proof fn law_only_batches_are_read(body: Seq<u8>) -> (r: (Seq<u8>, Seq<SectionText>))
    requires
        wire::batch(body).end is Some,
    ensures
        layout_laws::white(r.0),
        r.1.len() > 0,
        forall|j: int| 0 <= j < r.1.len() ==> (#[trigger] r.1[j]).wf(),
        wire_laws::stands(body, 0, r.0 + seq!['{' as u8] + sections_text(r.1)),
        wire::batch(body).orders == sections_orders(r.1),
{
    let w = lemma_token_read(body, 0, '{' as u8);
    let j = w.len() as int + 1;
    let list = lemma_sections_read(body, j);
    lemma_join(body, 0, w + seq!['{' as u8], sections_text(list));
    (w, list)
}

proof fn lemma_spaces_behind_white(b: Seq<u8>, i: int, w: Seq<u8>)
    requires
        wire_laws::stands(b, i, w),
        layout_laws::white(w),
    ensures
        wire::past_spaces(b, i) == wire::past_spaces(b, i + w.len()),
    decreases w.len(),
{
    if w.len() > 0 {
        assert(b.subrange(i, i + w.len())[0] == b[i]);
        assert(w[0] == b[i]);
        let rest = w.drop_first();
        assert(b.subrange(i + 1, i + 1 + rest.len()) =~= b.subrange(i, i + w.len()).drop_first());
        assert forall|j: int| 0 <= j < rest.len() implies #[trigger] rest[j] == 32 || rest[j] == 9
            || rest[j] == 10 || rest[j] == 13 by {
            assert(rest[j] == w[j + 1]);
        }
        lemma_spaces_behind_white(b, i + 1, rest);
    }
}

/// The head of a section.
proof fn lemma_head_of_section_at(b: Seq<u8>, i: int, t: SectionText, rest: Seq<u8>) -> (s: int)
    requires
        t.wf(),
        wire_laws::stands(
            b,
            i,
            t.before_key + (wire_laws::quoted(text::bytes_of("orders")) + (t.before_colon + (seq![
                ':' as u8,
            ] + (t.before_bracket + (seq!['[' as u8] + rest))))),
        ),
    ensures
        wire::section_head(b, i) == Some(s),
        s == i + t.before_key.len() + wire_laws::quoted(text::bytes_of("orders")).len()
            + t.before_colon.len() + 1 + t.before_bracket.len() + 1,
        wire_laws::stands(b, s, rest),
{
    let k = text::bytes_of("orders");
    let t3 = t.before_bracket + (seq!['[' as u8] + rest);
    let t2 = t.before_colon + (seq![':' as u8] + t3);
    assert(forall|x: int| 0 <= x < k.len() ==> #[trigger] k[x] != '"' as u8) by {
        reveal_strlit("orders");
        vstd::string::is_ascii_spec_bytes("orders");
    }
    layout_laws::lemma_key_behind(b, i, t.before_key, k, t2);
    let l = i + t.before_key.len() + wire_laws::quoted(k).len();
    layout_laws::lemma_token_at(b, l, t.before_colon, ':' as u8, t3);
    let r = l + t.before_colon.len() + 1;
    layout_laws::lemma_token_at(b, r, t.before_bracket, '[' as u8, rest);
    r + t.before_bracket.len() + 1
}

/// The elements of a section are readable alone.
proof fn lemma_all_readable(t: SectionText)
    requires
        t.wf(),
    ensures
        layout_laws::readable(t.elements, t.elements.len() as int),
        layout_laws::orders_in(t.elements, t.elements.len() as int) == t.orders(),
{
    let list = t.elements;
    assert forall|j: int| 0 <= j < list.len() implies (#[trigger] list[j]).alone()
        == list[j].object.order() by {
        let o = list[j].object;
        assert(list[j].wf());
        assert(o.text().subrange(0, o.text().len() as int) =~= o.text());
        layout_laws::law_object_is_read_as_its_members_say(o.text(), 0, o);
    }
    assert forall|j: int| 0 <= j < list.len() implies (#[trigger] list[j]).alone() is Some by {
        assert(list[j].object.order() is Some);
    }
    assert(layout_laws::orders_in(list, list.len() as int) =~= t.orders());
}

/// One section, up to what follows the white space behind it.
#[verifier::spinoff_prover]
proof fn lemma_section_at(b: Seq<u8>, i: int, t: SectionText)
    requires
        t.wf(),
        wire_laws::stands(b, i, t.text()),
        i + t.text().len() < b.len() ==> !wire::is_space(b[i + t.text().len()]),
    ensures
        wire::section_head(b, i) is Some,
        ({
            let a = wire::array(b, wire::section_head(b, i)->0);
            &&& a.orders == t.orders()
            &&& a.end is Some
            &&& wire::past_spaces(b, a.end->0) == i + t.text().len()
        }),
{
    let q = wire_laws::quoted(text::bytes_of("orders"));
    let list = layout_laws::list_text(t.elements);
    let rest = t.inside + (list + t.after);
    assert(t.text() =~= t.before_key + (q + (t.before_colon + (seq![':' as u8] + (t.before_bracket
        + (seq!['[' as u8] + rest))))));
    let s = lemma_head_of_section_at(b, i, t, rest);
    wire_laws::lemma_stands_split(b, s, t.inside, list + t.after);
    let j = s + t.inside.len();
    wire_laws::lemma_stands_split(b, j, list, t.after);
    lemma_spaces_behind_white(b, s, t.inside);
    lemma_all_readable(t);
    layout_laws::lemma_array_at(b, j, t.elements, t.elements.len() as int);
    assert(wire::array(b, s) == wire::array(b, j));
    let e = j + list.len();
    lemma_spaces_behind_white(b, e, t.after);
    let f = e + t.after.len();
    assert(f == i + t.text().len());
    assert(wire::past_spaces(b, f) == f);
}

#[verifier::spinoff_prover]
proof fn lemma_sections_at(b: Seq<u8>, i: int, list: Seq<SectionText>)
    requires
        list.len() > 0,
        forall|j: int| 0 <= j < list.len() ==> (#[trigger] list[j]).wf(),
        wire_laws::stands(b, i, sections_text(list)),
        ({
            let e = i + sections_text(list).len();
            e < b.len() ==> !wire::is_space(b[e]) && b[e] != ',' as u8
        }),
    ensures
        wire::sections(b, i).end is Some,
        wire::sections(b, i).orders == sections_orders(list),
    decreases list.len(),
{
    let t = list[0];
    if list.len() == 1 {
        lemma_section_at(b, i, t);
        assert(list.drop_first() =~= Seq::<SectionText>::empty());
        assert(sections_orders(Seq::<SectionText>::empty()) =~= Seq::<OrderMsg>::empty());
        assert(sections_orders(list) =~= t.orders());
    } else {
        let others = list.drop_first();
        wire_laws::lemma_stands_split(
            b,
            i,
            t.text() + seq![',' as u8],
            sections_text(others),
        );
        wire_laws::lemma_stands_split(b, i, t.text(), seq![',' as u8]);
        let j = i + t.text().len();
        wire_laws::lemma_byte_stands(b, j, ',' as u8);
        lemma_section_at(b, i, t);
        assert forall|k: int| 0 <= k < others.len() implies (#[trigger] others[k]).wf() by {
            assert(others[k] == list[k + 1]);
        }
        lemma_sections_at(b, j + 1, others);
    }
}

/// A batch may have several sections, and nothing behind the last of them is looked at, unless it is
/// a comma: whatever follows, the orders are those of all sections, one behind the other.
pub proof fn law_all_sections_are_read(lead: Seq<u8>, list: Seq<SectionText>, more: Seq<u8>)
    requires
        layout_laws::white(lead),
        list.len() > 0,
        forall|j: int| 0 <= j < list.len() ==> (#[trigger] list[j]).wf(),
        more.len() > 0 ==> more[0] != 44 && more[0] != 32 && more[0] != 9 && more[0] != 10 && more[0]
            != 13,
    ensures
        ({
            let body = lead + (seq!['{' as u8] + (sections_text(list) + more));
            &&& wire::batch(body).end is Some
            &&& wire::batch(body).orders == sections_orders(list)
        }),
{
    let body = lead + (seq!['{' as u8] + (sections_text(list) + more));
    assert(body.subrange(0, body.len() as int) =~= body);
    layout_laws::lemma_token_at(body, 0, lead, '{' as u8, sections_text(list) + more);
    let i = lead.len() as int + 1;
    wire_laws::lemma_stands_split(body, i, sections_text(list), more);
    let e = i + sections_text(list).len();
    if e < body.len() {
        assert(body.subrange(e, e + more.len())[0] == body[e]);
    }
    lemma_sections_at(body, i, list);
}

} // verus!
