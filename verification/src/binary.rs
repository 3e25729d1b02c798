//! The binary format of batches: records of 24 bytes, one behind the other.
//!
//! A record holds, little end first, the identifier and the price in eight bytes each, the quantity
//! in four and the side in one; the last three bytes are padding.

use vstd::prelude::*;
use crate::wire::OrderMsg;

verus! {

/// The length of a record in bytes.
pub const RECORD: usize = 24;

/// The number that bytes denote, little end first.
pub open spec fn number(bytes: Seq<u8>) -> nat
    decreases bytes.len(),
{
    if bytes.len() == 0 {
        0
    } else {
        bytes[0] as nat + 256 * number(bytes.drop_first())
    }
}

/// How many numbers `n` bytes can denote.
pub open spec fn range(n: nat) -> nat
    decreases n,
{
    if n == 0 {
        1
    } else {
        256 * range((n - 1) as nat)
    }
}

/// The order in a record.
pub open spec fn record(bytes: Seq<u8>) -> OrderMsg {
    OrderMsg {
        id: number(bytes.subrange(0, 8)) as u64,
        price: number(bytes.subrange(8, 16)) as u64,
        quantity: number(bytes.subrange(16, 20)) as u64,
        side: bytes[20],
    }
}

/// The orders in a sequence of records.
pub open spec fn records(body: Seq<u8>) -> Seq<OrderMsg> {
    Seq::new(
        (body.len() / RECORD as nat) as nat,
        |k: int| record(body.subrange(RECORD * k, RECORD * k + RECORD)),
    )
}

pub proof fn lemma_number_in_range(bytes: Seq<u8>)
    ensures
        number(bytes) < range(bytes.len()),
    decreases bytes.len(),
{
    if bytes.len() > 0 {
        lemma_number_in_range(bytes.drop_first());
    }
}

pub proof fn lemma_ranges()
    ensures
        range(4) == u32::MAX + 1,
        range(8) == u64::MAX + 1,
{
    reveal_with_fuel(range, 9);
}

proof fn lemma_range_grows(m: nat, n: nat)
    requires
        m <= n,
    ensures
        range(m) <= range(n),
    decreases n - m,
{
    if m < n {
        lemma_range_grows(m + 1, n);
    }
}

/// Reads the number that `b[from..to]` denotes.
fn read_number(b: &[u8], from: usize, to: usize) -> (v: u64)
    requires
        from <= to <= b@.len(),
        to - from <= 8,
    ensures
        v == number(b@.subrange(from as int, to as int)),
{
    let mut i: usize = to;
    let mut v: u64 = 0;
    assert(b@.subrange(to as int, to as int) =~= Seq::<u8>::empty());
    while i > from
        invariant
            from <= i <= to <= b@.len(),
            to - from <= 8,
            v == number(b@.subrange(i as int, to as int)),
        decreases i - from,
    {
        let ghost high = b@.subrange(i as int, to as int);
        i = i - 1;
        proof {
            assert(b@.subrange(i as int, to as int).drop_first() =~= high);
            lemma_number_in_range(b@.subrange(i as int, to as int));
            lemma_range_grows((to - i) as nat, 8);
            lemma_ranges();
        }
        v = 256 * v + b[i] as u64;
    }
    v
}

/// Reads the records of a request body and appends their orders to `out`. A body that is no
/// sequence of whole records is refused.
pub fn read_records(body: &[u8], out: &mut Vec<OrderMsg>) -> (read: bool)
    ensures
        read == (body@.len() % RECORD as nat == 0),
        final(out)@ == (if read {
            old(out)@ + records(body@)
        } else {
            old(out)@
        }),
{
    if body.len() % RECORD != 0 {
        return false;
    }
    let n: usize = body.len() / RECORD;
    let mut k: usize = 0;
    let mut at: usize = 0;
    while k < n
        invariant
            n == body@.len() / RECORD as nat,
            body@.len() % RECORD as nat == 0,
            k <= n,
            at == RECORD * k,
            out@ == old(out)@ + records(body@).take(k as int),
        decreases n - k,
    {
        let ghost r = body@.subrange(RECORD * k, RECORD * k + RECORD);
        assert(body.len() == body@.len());
        assert(at + RECORD <= body@.len());
        let msg = OrderMsg {
            id: read_number(body, at, at + 8),
            price: read_number(body, at + 8, at + 16),
            quantity: read_number(body, at + 16, at + 20),
            side: body[at + 20],
        };
        proof {
            assert(body@.subrange(at as int, at + 8) =~= r.subrange(0, 8));
            assert(body@.subrange(at + 8, at + 16) =~= r.subrange(8, 16));
            assert(body@.subrange(at + 16, at + 20) =~= r.subrange(16, 20));
            assert(records(body@)[k as int] == record(r));
            assert(records(body@).take(k + 1) =~= records(body@).take(k as int).push(msg));
        }
        out.push(msg);
        assert(out@ =~= old(out)@ + records(body@).take(k + 1));
        k = k + 1;
        at = at + RECORD;
    }
    assert(records(body@).take(n as int) =~= records(body@));
    true
}

/// The bytes of a number, little end first.
pub open spec fn bytes(v: nat, n: nat) -> Seq<u8>
    decreases n,
{
    if n == 0 {
        Seq::empty()
    } else {
        seq![(v % 256) as u8] + bytes(v / 256, (n - 1) as nat)
    }
}

/// A number that is written out in enough bytes is read back.
pub proof fn law_written_bytes_are_read_back(v: nat, n: nat)
    requires
        v < range(n),
    ensures
        bytes(v, n).len() == n,
        number(bytes(v, n)) == v,
    decreases n,
{
    if n > 0 {
        law_written_bytes_are_read_back(v / 256, (n - 1) as nat);
        assert(bytes(v, n).drop_first() =~= bytes(v / 256, (n - 1) as nat));
    }
}

/// The record of an order.
pub open spec fn record_bytes(m: OrderMsg, padding: Seq<u8>) -> Seq<u8> {
    bytes(m.id as nat, 8) + bytes(m.price as nat, 8) + bytes(m.quantity as nat, 4) + seq![m.side]
        + padding
}

/// An order that is written out as a record is read as that order, whatever the padding holds. Its
/// quantity has to fit in the four bytes that a record has for it.
pub proof fn law_written_record_is_read_back(m: OrderMsg, padding: Seq<u8>)
    requires
        m.quantity <= u32::MAX,
        padding.len() == 3,
    ensures
        record_bytes(m, padding).len() == RECORD,
        record(record_bytes(m, padding)) == m,
{
    lemma_ranges();
    law_written_bytes_are_read_back(m.id as nat, 8);
    law_written_bytes_are_read_back(m.price as nat, 8);
    law_written_bytes_are_read_back(m.quantity as nat, 4);
    let r = record_bytes(m, padding);
    assert(r.subrange(0, 8) =~= bytes(m.id as nat, 8));
    assert(r.subrange(8, 16) =~= bytes(m.price as nat, 8));
    assert(r.subrange(16, 20) =~= bytes(m.quantity as nat, 4));
}

/// Records one behind the other are read one after the other.
pub proof fn law_records_are_read_in_order(first: Seq<u8>, rest: Seq<u8>)
    requires
        first.len() % RECORD as nat == 0,
    ensures
        records(first + rest) == records(first) + records(rest),
{
    let n = first.len() / RECORD as nat;
    let all = first + rest;
    assert(all.len() / RECORD as nat == n + rest.len() / RECORD as nat);
    assert forall|k: int| 0 <= k < records(all).len() implies #[trigger] records(all)[k] == (
    records(first) + records(rest))[k] by {
        let part = all.subrange(RECORD * k, RECORD * k + RECORD);
        if k < n {
            assert(part =~= first.subrange(RECORD * k, RECORD * k + RECORD));
        } else {
            let j = k - n;
            assert(part =~= rest.subrange(RECORD * j, RECORD * j + RECORD));
        }
    }
    assert(records(all) =~= records(first) + records(rest));
}

/// Bytes denote numbers little end first.
pub proof fn law_first_byte_counts_least(b: Seq<u8>)
    ensures
        b.len() == 4 ==> number(b) == b[0] + 0x100 * b[1] + 0x1_0000 * b[2] + 0x100_0000 * b[3],
        b.len() == 8 ==> number(b) == b[0] + 0x100 * b[1] + 0x1_0000 * b[2] + 0x100_0000 * b[3]
            + 0x1_0000_0000 * b[4] + 0x100_0000_0000 * b[5] + 0x1_0000_0000_0000 * b[6]
            + 0x100_0000_0000_0000 * b[7],
{
    reveal_with_fuel(number, 9);
}

/// The fields of a record stand at fixed places: the identifier in the first eight bytes, the price
/// in the next eight, the quantity in the next four and the side in the one behind.
pub proof fn law_fields_stand_at_fixed_places(r: Seq<u8>)
    requires
        r.len() == 24,
    ensures
        record(r).id == r[0] + 0x100 * r[1] + 0x1_0000 * r[2] + 0x100_0000 * r[3] + 0x1_0000_0000
            * r[4] + 0x100_0000_0000 * r[5] + 0x1_0000_0000_0000 * r[6] + 0x100_0000_0000_0000
            * r[7],
        record(r).price == r[8] + 0x100 * r[9] + 0x1_0000 * r[10] + 0x100_0000 * r[11]
            + 0x1_0000_0000 * r[12] + 0x100_0000_0000 * r[13] + 0x1_0000_0000_0000 * r[14]
            + 0x100_0000_0000_0000 * r[15],
        record(r).quantity == r[16] + 0x100 * r[17] + 0x1_0000 * r[18] + 0x100_0000 * r[19],
        record(r).side == r[20],
{
    law_first_byte_counts_least(r.subrange(0, 8));
    law_first_byte_counts_least(r.subrange(8, 16));
    law_first_byte_counts_least(r.subrange(16, 20));
}

/// Every 24 bytes are one order.
pub proof fn law_every_record_is_one_order(body: Seq<u8>, k: int)
    requires
        body.len() % 24 == 0,
        0 <= k < body.len() / 24,
    ensures
        records(body).len() * 24 == body.len(),
        records(body)[k] == record(body.subrange(24 * k, 24 * k + 24)),
{
}

/// Records one behind the other, with the same padding.
pub open spec fn records_bytes(messages: Seq<OrderMsg>, padding: Seq<u8>) -> Seq<u8>
    decreases messages.len(),
{
    if messages.len() == 0 {
        Seq::empty()
    } else {
        record_bytes(messages[0], padding) + records_bytes(messages.drop_first(), padding)
    }
}

/// Orders that are written out as records are read back, all of them and in their order.
pub proof fn law_written_records_are_read_back(messages: Seq<OrderMsg>, padding: Seq<u8>)
    requires
        padding.len() == 3,
        forall|i: int| 0 <= i < messages.len() ==> (#[trigger] messages[i]).quantity <= u32::MAX,
    ensures
        records_bytes(messages, padding).len() == 24 * messages.len(),
        records(records_bytes(messages, padding)) == messages,
    decreases messages.len(),
{
    if messages.len() == 0 {
        assert(records(Seq::empty()) =~= messages);
    } else {
        let rest = messages.drop_first();
        let first = record_bytes(messages[0], padding);
        assert forall|i: int| 0 <= i < rest.len() implies (#[trigger] rest[i]).quantity
            <= u32::MAX by {
            assert(rest[i] == messages[i + 1]);
        }
        law_written_records_are_read_back(rest, padding);
        assert(messages[0].quantity <= u32::MAX);
        law_written_record_is_read_back(messages[0], padding);
        law_records_are_read_in_order(first, records_bytes(rest, padding));
        assert(first.subrange(0, 24) =~= first);
        assert(records(first) =~= seq![messages[0]]);
        assert(seq![messages[0]] + rest =~= messages);
    }
}

} // verus!
