//! The ledger: item records as lines of text, one behind the other.
//!
//! A record is written as its quantity, a comma, its name and a line feed.
//! Nothing in a name is escaped, so the lines can be read back only while
//! no name holds a comma or a line feed.

use vstd::prelude::*;
use vstd::slice::slice_subrange;
use vstd::string::StringExecFns;
use crate::decimal::{
    i32_value, integer_text, lemma_integer_text_chars, lemma_integer_text_value, parse_i32,
    push_i32,
};
use crate::item::{records, Item, Record};
use crate::text::{
    chars_of, free_of, lemma_position, lemma_position_is, position, push_char, string_of,
};

verus! {

/// The line that records `r`.
pub open spec fn record_line(r: Record) -> Seq<char> {
    integer_text(r.quantity) + seq![','] + r.name + seq!['\n']
}

/// The lines that record `rs`, in order.
pub open spec fn ledger_text(rs: Seq<Record>) -> Seq<char>
    decreases rs.len(),
{
    if rs.len() == 0 {
        Seq::empty()
    } else {
        ledger_text(rs.drop_last()) + record_line(rs.last())
    }
}

/// The ledger `store` once `rs` have been appended to it.
pub open spec fn appended(store: Seq<char>, rs: Seq<Record>) -> Seq<char> {
    store + ledger_text(rs)
}

/// A record whose line can be read back: 32 bits with a sign hold its
/// quantity, and its name holds neither a comma nor a line feed.
pub open spec fn reads_back(r: Record) -> bool {
    &&& i32::MIN <= r.quantity <= i32::MAX
    &&& free_of(r.name, ',')
    &&& free_of(r.name, '\n')
}

/// The record that a line without its line feed is read as: a
/// 32-bit quantity, one comma, and the name. A line with no comma, or with
/// more than one, records nothing.
pub open spec fn decode_line(line: Seq<char>) -> Option<Record> {
    let n = position(line, ',') as int;
    if n < line.len() && free_of(line.skip(n + 1), ',') && i32_value(line.take(n)) is Some {
        Some(Record { name: line.skip(n + 1), quantity: i32_value(line.take(n))->0 })
    } else {
        None
    }
}

/// The records that a ledger is read as, if each of its lines is a record
/// and ends in a line feed.
pub open spec fn decode_text(text: Seq<char>) -> Option<Seq<Record>>
    decreases text.len(),
    via decode_text_decreases
{
    let n = position(text, '\n') as int;
    if text.len() == 0 {
        Some(Seq::empty())
    } else if n == text.len() {
        None
    } else {
        match (decode_line(text.take(n)), decode_text(text.skip(n + 1))) {
            (Some(r), Some(rs)) => Some(seq![r] + rs),
            _ => None,
        }
    }
}

#[via_fn]
proof fn decode_text_decreases(text: Seq<char>) {
    lemma_position(text, '\n');
}

/// Adds the line that records `item` at the end of `out`.
pub fn push_record(out: &mut String, item: &Item)
    ensures
        final(out)@ == old(out)@ + record_line(item@),
{
    push_i32(out, item.quantity);
    push_char(out, ',');
    out.append(item.name.as_str());
    push_char(out, '\n');
    assert(out@ =~= old(out)@ + record_line(item@));
}

/// Appends the items to the ledger text `csv`: their lines follow what is
/// there, in the order of the items.
pub fn append_items_to_csv(csv: &mut String, items: &[Item])
    ensures
        final(csv)@ == appended(old(csv)@, records(items@)),
{
    let mut k: usize = 0;
    assert(records(items@).take(0) =~= Seq::<Record>::empty());
    assert(csv@ =~= old(csv)@ + Seq::<char>::empty());
    while k < items.len()
        invariant
            k <= items.len(),
            csv@ == old(csv)@ + ledger_text(records(items@).take(k as int)),
        decreases items.len() - k,
    {
        proof {
            let now = records(items@).take(k + 1);
            assert(now.drop_last() =~= records(items@).take(k as int));
            assert(now.last() == items@[k as int]@);
        }
        push_record(csv, &items[k]);
        assert(csv@ =~= old(csv)@ + ledger_text(records(items@).take(k + 1)));
        k += 1;
    }
    assert(records(items@).take(k as int) =~= records(items@));
}

/// Reads one line of a ledger, given without its line feed.
pub fn read_record(line: &[char]) -> (r: Option<Item>)
    ensures
        match r {
            Some(item) => decode_line(line@) == Some(item@),
            None => decode_line(line@) is None,
        },
{
    let len = line.len();
    let mut n: usize = 0;
    while n < len && line[n] != ','
        invariant
            n <= len == line.len(),
            forall|k: int| 0 <= k < n ==> line@[k] != ',',
        decreases len - n,
    {
        n += 1;
    }
    proof {
        lemma_position_is(line@, ',', n as int);
    }
    if n == len {
        return None;
    }
    let mut k: usize = n + 1;
    while k < len
        invariant
            n < k <= len == line.len(),
            position(line@, ',') == n,
            forall|j: int| n < j < k ==> line@[j] != ',',
        decreases len - k,
    {
        if line[k] == ',' {
            assert(line@.skip(n + 1)[k - n - 1] == ',');
            return None;
        }
        k += 1;
    }
    let ghost name = line@.skip(n + 1);
    assert forall|j: int| 0 <= j < name.len() implies name[j] != ',' by {
        assert(name[j] == line@[n + 1 + j]);
    }
    assert(line@.subrange(0, n as int) =~= line@.take(n as int));
    assert(line@.subrange(n + 1, len as int) =~= line@.skip(n + 1));
    match parse_i32(slice_subrange(line, 0, n)) {
        Some(quantity) => Some(
            Item { name: string_of(slice_subrange(line, n + 1, len)), quantity },
        ),
        None => None,
    }
}

/// Reads a ledger back: the items that its lines record, in order, or
/// nothing if some line is no record or does not end in a line feed.
pub fn read_ledger(csv: &str) -> (r: Option<Vec<Item>>)
    ensures
        match r {
            Some(items) => decode_text(csv@) == Some(records(items@)),
            None => decode_text(csv@) is None,
        },
{
    let text = chars_of(csv);
    let len = text.len();
    let mut items: Vec<Item> = Vec::new();
    let mut start: usize = 0;
    assert(text@.skip(0) =~= text@);
    assert(records(items@) =~= Seq::<Record>::empty());
    while start < len
        invariant
            start <= len == text.len(),
            text@ == csv@,
            decode_text(text@) == match decode_text(text@.skip(start as int)) {
                Some(rest) => Some(records(items@) + rest),
                None => None,
            },
        decreases len - start,
    {
        let mut end: usize = start;
        while end < len && text[end] != '\n'
            invariant
                start <= end <= len == text.len(),
                forall|k: int| start <= k < end ==> text@[k] != '\n',
            decreases len - end,
        {
            end += 1;
        }
        let ghost tail = text@.skip(start as int);
        proof {
            lemma_position_is(tail, '\n', end - start);
        }
        if end == len {
            return None;
        }
        let line = slice_subrange(text.as_slice(), start, end);
        assert(tail.take(end - start) =~= line@);
        assert(tail.skip(end - start + 1) =~= text@.skip(end + 1));
        match read_record(line) {
            None => {
                return None;
            },
            Some(item) => {
                proof {
                    assert(records(items@.push(item)) =~= records(items@).push(item@));
                    if let Some(rest) = decode_text(text@.skip(end + 1)) {
                        assert(records(items@) + (seq![item@] + rest) =~= records(items@).push(
                            item@,
                        ) + rest);
                    }
                }
                items.push(item);
            },
        }
        start = end + 1;
    }
    assert(text@.skip(start as int) =~= Seq::<char>::empty());
    assert(records(items@) + Seq::<Record>::empty() =~= records(items@));
    Some(items)
}

/// The lines of two runs of records, one after the other, are the lines of
/// the records taken together.
pub proof fn lemma_ledger_text_concat(a: Seq<Record>, b: Seq<Record>)
    ensures
        ledger_text(a + b) == ledger_text(a) + ledger_text(b),
    decreases b.len(),
{
    if b.len() == 0 {
        assert(a + b =~= a);
    } else {
        lemma_ledger_text_concat(a, b.drop_last());
        assert((a + b).drop_last() =~= a + b.drop_last());
    }
}

/// Appending keeps what is there and keeps the order: after `first` and
/// then `second` the ledger is what it would be had both been appended at
/// once, and the older text is still its beginning.
pub proof fn lemma_append_in_order(store: Seq<char>, first: Seq<Record>, second: Seq<Record>)
    ensures
        appended(appended(store, first), second) == appended(store, first + second),
        store.is_prefix_of(appended(store, first)),
        appended(store, first).is_prefix_of(appended(appended(store, first), second)),
{
    lemma_ledger_text_concat(first, second);
}

/// A record's line, read back, is the record, provided that its name holds
/// no comma.
pub proof fn lemma_decode_record_line(r: Record)
    requires
        i32::MIN <= r.quantity <= i32::MAX,
        free_of(r.name, ','),
    ensures
        decode_line(integer_text(r.quantity) + seq![','] + r.name) == Some(r),
{
    let q = integer_text(r.quantity);
    let line = q + seq![','] + r.name;
    lemma_integer_text_chars(r.quantity);
    lemma_integer_text_value(r.quantity);
    assert forall|k: int| 0 <= k < q.len() implies line[k] != ',' by {
        assert(line[k] == q[k]);
    }
    lemma_position_is(line, ',', q.len() as int);
    assert(line.take(q.len() as int) =~= q);
    assert(line.skip(q.len() as int + 1) =~= r.name);
}

/// What the ledger writes it reads back: the lines of `rs` are read as
/// `rs`, provided that no name holds a comma or a line feed.
pub proof fn lemma_round_trip(rs: Seq<Record>)
    requires
        forall|i: int| 0 <= i < rs.len() ==> reads_back(#[trigger] rs[i]),
    ensures
        decode_text(ledger_text(rs)) == Some(rs),
    decreases rs.len(),
{
    if rs.len() > 0 {
        let r = rs[0];
        let rest = rs.drop_first();
        assert(reads_back(r));
        assert forall|i: int| 0 <= i < rest.len() implies reads_back(#[trigger] rest[i]) by {
            assert(rest[i] == rs[i + 1]);
        }
        lemma_round_trip(rest);
        assert(rs =~= seq![r] + rest);
        lemma_ledger_text_concat(seq![r], rest);
        assert(seq![r].drop_last() =~= Seq::<Record>::empty());
        assert(ledger_text(Seq::<Record>::empty()) =~= Seq::<char>::empty());
        assert(ledger_text(seq![r]) =~= record_line(r));
        let text = ledger_text(rs);
        let q = integer_text(r.quantity);
        let body = q + seq![','] + r.name;
        let n = body.len() as int;
        lemma_integer_text_chars(r.quantity);
        assert forall|k: int| 0 <= k < n implies text[k] != '\n' by {
            if k < q.len() {
                assert(text[k] == q[k]);
            } else if k > q.len() {
                assert(text[k] == r.name[k - q.len() - 1]);
            }
        }
        lemma_position_is(text, '\n', n);
        assert(text.take(n) =~= body);
        assert(text.skip(n + 1) =~= ledger_text(rest));
        lemma_decode_record_line(r);
    }
}

/// A ledger made of two ledgers is read as the records of the first
/// followed by the records of the second.
pub proof fn lemma_decode_text_concat(a: Seq<char>, b: Seq<char>)
    requires
        decode_text(a) is Some,
    ensures
        decode_text(a + b) == match decode_text(b) {
            Some(rs) => Some(decode_text(a)->0 + rs),
            None => None,
        },
    decreases a.len(),
{
    let whole = a + b;
    if a.len() == 0 {
        assert(whole =~= b);
        if let Some(rs) = decode_text(b) {
            assert(Seq::<Record>::empty() + rs =~= rs);
        }
    } else {
        let n = position(a, '\n') as int;
        lemma_position(a, '\n');
        assert forall|k: int| 0 <= k < n implies whole[k] != '\n' by {
            assert(whole[k] == a[k]);
        }
        lemma_position_is(whole, '\n', n);
        assert(whole.take(n) =~= a.take(n));
        assert(whole.skip(n + 1) =~= a.skip(n + 1) + b);
        lemma_decode_text_concat(a.skip(n + 1), b);
        if let Some(rs) = decode_text(b) {
            let r = decode_line(a.take(n))->0;
            let front = decode_text(a.skip(n + 1))->0;
            assert(seq![r] + (front + rs) =~= (seq![r] + front) + rs);
        }
    }
}

/// Appending to a ledger that is read as some records gives a ledger that
/// is read as those records followed by the new ones, in the order given,
/// provided that no new name holds a comma or a line feed.
pub proof fn lemma_append_reads_after(store: Seq<char>, rs: Seq<Record>)
    requires
        decode_text(store) is Some,
        forall|i: int| 0 <= i < rs.len() ==> reads_back(#[trigger] rs[i]),
    ensures
        decode_text(appended(store, rs)) == Some(decode_text(store)->0 + rs),
{
    lemma_round_trip(rs);
    lemma_decode_text_concat(store, ledger_text(rs));
}

} // verus!
