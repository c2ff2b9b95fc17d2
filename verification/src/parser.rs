//! Reading a note: one item record from each line that says something.

use vstd::prelude::*;
use vstd::slice::slice_subrange;
use crate::chars::{digit_of, is_digit, is_space};
use crate::decimal::{all_digits, decimal_value, i32_value, parse_i32};
use crate::item::{records, Item, Record};
use crate::text::{
    chars_of, contents, free_of, is_blank, join, lemma_join_free_of, lemma_join_not_empty,
    lemma_lines_blank, lemma_lines_concat, lemma_lines_free_of_line_feed, lemma_lines_single,
    lemma_trim_blank, lemma_trim_clean, lemma_trim_free_of, lemma_words_hold_no_blank,
    lemma_words_not_empty, lemma_words_single, lines, push_char, push_chars, split_lines,
    split_words, string_of, trim, trim_slice, words,
};

verus! {

/// `s` without the characters at its end that are not digits.
pub open spec fn up_to_last_digit(s: Seq<char>) -> Seq<char>
    decreases s.len(),
{
    if s.len() > 0 && !is_digit(s.last()) {
        up_to_last_digit(s.drop_last())
    } else {
        s
    }
}

/// The quantity that a line's first word gives, if it gives one: what is
/// left of the word once the characters behind its last digit are dropped
/// must write a 32-bit integer, and a count is never negative.
pub open spec fn leading_quantity(word: Seq<char>) -> Option<int> {
    match i32_value(up_to_last_digit(word)) {
        Some(v) if v >= 0 => Some(v),
        _ => None,
    }
}

/// The record that a line stands for. Where the first word gives a
/// quantity, the other words, a single space between them, are the name;
/// a line without other words is its own name. Where it gives none, there
/// is one of what the whole line names.
pub open spec fn line_record(line: Seq<char>) -> Record {
    let ws = words(line);
    if ws.len() > 0 && leading_quantity(ws[0]) is Some {
        let rest = join(ws.drop_first(), ' ');
        Record {
            name: if rest.len() == 0 {
                line
            } else {
                rest
            },
            quantity: leading_quantity(ws[0])->0,
        }
    } else {
        Record { name: line, quantity: 1 }
    }
}

/// The records of a sequence of lines: each line is trimmed, those with
/// nothing left are passed over, and each of the others gives one record.
pub open spec fn line_records(ls: Seq<Seq<char>>) -> Seq<Record> {
    ls.map_values(|l: Seq<char>| trim(l)).filter(|l: Seq<char>| l.len() > 0).map_values(
        |l: Seq<char>| line_record(l),
    )
}

/// The records of a note, in the order of its lines.
pub open spec fn parse_text(raw: Seq<char>) -> Seq<Record> {
    line_records(lines(raw))
}

/// The quantity that the word gives, if it gives one.
pub fn quantity_of(word: &[char]) -> (q: Option<i32>)
    ensures
        match q {
            Some(v) => leading_quantity(word@) == Some(v as int),
            None => leading_quantity(word@) is None,
        },
{
    let mut n: usize = word.len();
    while n > 0 && digit_of(word[n - 1]).is_none()
        invariant
            n <= word.len(),
            forall|k: int| n <= k < word.len() ==> !is_digit(word@[k]),
        decreases n,
    {
        n -= 1;
    }
    proof {
        lemma_up_to_last_digit_is(word@, n as int);
    }
    match parse_i32(slice_subrange(word, 0, n)) {
        Some(v) if v >= 0 => Some(v),
        _ => None,
    }
}

/// The words from the second on, a single space between them.
fn rest_of_words(ws: &Vec<&[char]>) -> (name: String)
    requires
        ws.len() > 0,
    ensures
        name@ == join(contents(ws@).drop_first(), ' '),
{
    let mut name = String::new();
    let mut k: usize = 1;
    let ghost rest = contents(ws@).drop_first();
    assert(rest.take(0) =~= Seq::<Seq<char>>::empty());
    while k < ws.len()
        invariant
            1 <= k <= ws.len(),
            rest == contents(ws@).drop_first(),
            name@ == join(rest.take(k - 1), ' '),
        decreases ws.len() - k,
    {
        proof {
            let now = rest.take(k as int);
            assert(now.drop_last() =~= rest.take(k - 1));
            assert(now.last() == ws@[k as int]@);
            if k > 1 {
                assert(name@.push(' ') + ws@[k as int]@ == join(now, ' '));
            } else {
                assert(name@ + ws@[k as int]@ =~= join(now, ' '));
            }
        }
        if k > 1 {
            push_char(&mut name, ' ');
        }
        push_chars(&mut name, ws[k]);
        k += 1;
    }
    assert(rest.take(k - 1) =~= rest);
    name
}

/// The record that a line stands for.
pub fn parse_line(line: &[char]) -> (item: Item)
    ensures
        item@ == line_record(line@),
{
    let ws = split_words(line);
    if ws.len() > 0 {
        if let Some(quantity) = quantity_of(ws[0]) {
            let rest = rest_of_words(&ws);
            let name = if rest.as_str().is_empty() {
                string_of(line)
            } else {
                rest
            };
            return Item { name, quantity };
        }
    }
    Item { name: string_of(line), quantity: 1 }
}

/// Reads a note: every line that is not blank gives one item, in the order
/// of the lines.
pub fn fake_llm_parse(raw: &str) -> (items: Vec<Item>)
    ensures
        records(items@) == parse_text(raw@),
        forall|i: int| 0 <= i < items.len() ==> (#[trigger] items[i])@.is_valid(),
{
    let text = chars_of(raw);
    let ls = split_lines(text.as_slice());
    let mut items: Vec<Item> = Vec::new();
    let mut k: usize = 0;
    assert(contents(ls@).take(0) =~= Seq::<Seq<char>>::empty());
    assert(records(items@) =~= line_records(Seq::<Seq<char>>::empty()));
    while k < ls.len()
        invariant
            k <= ls.len(),
            records(items@) == line_records(contents(ls@).take(k as int)),
        decreases ls.len() - k,
    {
        let line = trim_slice(ls[k]);
        proof {
            lemma_line_records_push(contents(ls@).take(k as int), ls@[k as int]@);
            assert(contents(ls@).take(k as int).push(ls@[k as int]@) =~= contents(ls@).take(
                k + 1,
            ));
        }
        if line.len() > 0 {
            let item = parse_line(line);
            assert(records(items@.push(item)) =~= records(items@).push(item@));
            items.push(item);
        }
        k += 1;
    }
    assert(contents(ls@).take(k as int) =~= contents(ls@));
    proof {
        lemma_line_records_valid(lines(raw@));
        assert forall|i: int| 0 <= i < items.len() implies (#[trigger] items[i])@.is_valid() by {
            assert(items[i]@ == records(items@)[i]);
        }
    }
    items
}

/// Dropping the characters behind the last digit leaves the stretch up to
/// and including that digit.
pub proof fn lemma_up_to_last_digit_is(s: Seq<char>, n: int)
    requires
        0 <= n <= s.len(),
        forall|k: int| n <= k < s.len() ==> !is_digit(s[k]),
        n > 0 ==> is_digit(s[n - 1]),
    ensures
        up_to_last_digit(s) == s.take(n),
    decreases s.len() - n,
{
    if n < s.len() {
        lemma_up_to_last_digit_is(s.drop_last(), n);
        assert(s.drop_last().take(n) =~= s.take(n));
    } else {
        assert(s.take(n) =~= s);
    }
}

/// A word made of digits and then of characters that are none gives the
/// quantity that the digits write, if 32 bits with a sign hold it.
pub proof fn lemma_suffixed_quantity(digits: Seq<char>, suffix: Seq<char>)
    requires
        digits.len() > 0,
        all_digits(digits),
        forall|i: int| 0 <= i < suffix.len() ==> !is_digit(suffix[i]),
    ensures
        leading_quantity(digits + suffix) == if decimal_value(digits) <= i32::MAX {
            Some(decimal_value(digits) as int)
        } else {
            None
        },
{
    let word = digits + suffix;
    assert forall|k: int| digits.len() <= k < word.len() implies !is_digit(word[k]) by {
        assert(word[k] == suffix[k - digits.len()]);
    }
    assert(word[digits.len() - 1] == digits[digits.len() - 1]);
    lemma_up_to_last_digit_is(word, digits.len() as int);
    assert(word.take(digits.len() as int) =~= digits);
    assert(is_digit(digits[0]));
}

/// A line that is not empty gives a valid record.
pub proof fn lemma_line_record_valid(line: Seq<char>)
    requires
        line.len() > 0,
    ensures
        line_record(line).is_valid(),
{
}

/// What is read from a line without a line feed has none in its name, and
/// a quantity that 32 bits with a sign hold.
pub proof fn lemma_line_record_name(line: Seq<char>)
    requires
        free_of(line, '\n'),
    ensures
        free_of(line_record(line).name, '\n'),
        0 <= line_record(line).quantity <= i32::MAX,
{
    let ws = words(line);
    if ws.len() > 0 && leading_quantity(ws[0]) is Some {
        let rest = ws.drop_first();
        lemma_words_hold_no_blank(line);
        assert forall|i: int| 0 <= i < rest.len() implies free_of(#[trigger] rest[i], '\n') by {
            assert(rest[i] == ws[i + 1]);
            assert forall|k: int| 0 <= k < rest[i].len() implies rest[i][k] != '\n' by {
                assert(!is_space(ws[i + 1][k]));
            }
        }
        lemma_join_free_of(rest, ' ', '\n');
    }
}

/// No lines, no records.
pub proof fn lemma_line_records_none(ls: Seq<Seq<char>>)
    requires
        ls.len() == 0,
    ensures
        line_records(ls) == Seq::<Record>::empty(),
{
    let trimmed = ls.map_values(|l: Seq<char>| trim(l));
    trimmed.lemma_filter_len(|l: Seq<char>| l.len() > 0);
    assert(line_records(ls) =~= Seq::<Record>::empty());
}

/// One more line adds its record at the end, or nothing if the line is
/// blank.
pub proof fn lemma_line_records_push(ls: Seq<Seq<char>>, l: Seq<char>)
    ensures
        line_records(ls.push(l)) == if trim(l).len() > 0 {
            line_records(ls).push(line_record(trim(l)))
        } else {
            line_records(ls)
        },
{
    let t = |l: Seq<char>| trim(l);
    let p = |l: Seq<char>| l.len() > 0;
    let r = |l: Seq<char>| line_record(l);
    let trimmed = ls.map_values(t);
    assert(ls.push(l).map_values(t) =~= trimmed.push(trim(l)));
    trimmed.lemma_filter_push(trim(l), p);
    if trim(l).len() > 0 {
        assert(trimmed.filter(p).push(trim(l)).map_values(r) =~= trimmed.filter(p).map_values(
            r,
        ).push(line_record(trim(l))));
    }
}

/// The records of two runs of lines, one after the other, are the records
/// of the first followed by the records of the second.
pub proof fn lemma_line_records_concat(x: Seq<Seq<char>>, y: Seq<Seq<char>>)
    ensures
        line_records(x + y) == line_records(x) + line_records(y),
    decreases y.len(),
{
    if y.len() == 0 {
        lemma_line_records_none(y);
        assert(x + y =~= x);
        assert(line_records(x) + Seq::<Record>::empty() =~= line_records(x));
    } else {
        lemma_line_records_concat(x, y.drop_last());
        lemma_line_records_push(x + y.drop_last(), y.last());
        lemma_line_records_push(y.drop_last(), y.last());
        assert((x + y.drop_last()).push(y.last()) =~= x + y);
        assert(y.drop_last().push(y.last()) =~= y);
        if trim(y.last()).len() > 0 {
            assert((line_records(x) + line_records(y.drop_last())).push(line_record(trim(y.last())))
                =~= line_records(x) + line_records(y.drop_last()).push(line_record(trim(y.last()))));
        }
    }
}

/// Every record read from lines is valid.
pub proof fn lemma_line_records_valid(ls: Seq<Seq<char>>)
    ensures
        forall|i: int| 0 <= i < line_records(ls).len() ==> (#[trigger] line_records(ls)[i]).is_valid(),
    decreases ls.len(),
{
    if ls.len() > 0 {
        lemma_line_records_valid(ls.drop_last());
        lemma_line_records_push(ls.drop_last(), ls.last());
        assert(ls.drop_last().push(ls.last()) =~= ls);
        if trim(ls.last()).len() > 0 {
            lemma_line_record_valid(trim(ls.last()));
        }
    } else {
        lemma_line_records_none(ls);
    }
}

/// Lines of blanks give no records.
pub proof fn lemma_line_records_blank(ls: Seq<Seq<char>>)
    requires
        forall|i: int| 0 <= i < ls.len() ==> is_blank(#[trigger] ls[i]),
    ensures
        line_records(ls) == Seq::<Record>::empty(),
    decreases ls.len(),
{
    if ls.len() > 0 {
        lemma_line_records_blank(ls.drop_last());
        lemma_line_records_push(ls.drop_last(), ls.last());
        assert(ls.drop_last().push(ls.last()) =~= ls);
        lemma_trim_blank(ls.last());
    } else {
        lemma_line_records_none(ls);
    }
}

proof fn lemma_line_records_names(ls: Seq<Seq<char>>)
    requires
        forall|i: int| 0 <= i < ls.len() ==> free_of(#[trigger] ls[i], '\n'),
    ensures
        forall|i: int|
            0 <= i < line_records(ls).len() ==> free_of((#[trigger] line_records(ls)[i]).name, '\n')
                && 0 <= line_records(ls)[i].quantity <= i32::MAX,
    decreases ls.len(),
{
    if ls.len() > 0 {
        let front = ls.drop_last();
        assert forall|i: int| 0 <= i < front.len() implies free_of(#[trigger] front[i], '\n') by {
            assert(front[i] == ls[i]);
        }
        lemma_line_records_names(front);
        lemma_line_records_push(front, ls.last());
        assert(front.push(ls.last()) =~= ls);
        assert(free_of(ls.last(), '\n'));
        lemma_trim_free_of(ls.last(), '\n');
        lemma_line_record_name(trim(ls.last()));
    } else {
        lemma_line_records_none(ls);
    }
}

/// A note of one line gives the record of that line, trimmed, or nothing
/// if the line is blank.
pub proof fn lemma_single_line(line: Seq<char>)
    requires
        free_of(line, '\n'),
    ensures
        parse_text(line) == if trim(line).len() > 0 {
            seq![line_record(trim(line))]
        } else {
            Seq::<Record>::empty()
        },
{
    lemma_lines_single(line);
    let none = Seq::<Seq<char>>::empty();
    lemma_line_records_none(none);
    lemma_line_records_push(none, line);
    assert(none.push(line) =~= seq![line]);
    assert(Seq::<Record>::empty().push(line_record(trim(line))) =~= seq![line_record(trim(line))]);
}

/// A line whose first word gives a quantity, and which has more words,
/// gives that quantity of what the other words name, a single space
/// between them.
pub proof fn lemma_counted_line(line: Seq<char>)
    requires
        free_of(line, '\n'),
        words(trim(line)).len() >= 2,
        leading_quantity(words(trim(line))[0]) is Some,
    ensures
        parse_text(line) == seq![
            Record {
                name: join(words(trim(line)).drop_first(), ' '),
                quantity: leading_quantity(words(trim(line))[0])->0,
            },
        ],
{
    let t = trim(line);
    assert(t.len() > 0) by {
        if t.len() == 0 {
            assert(words(t).len() == 0);
        }
    }
    lemma_single_line(line);
    lemma_words_not_empty(t);
    let rest = words(t).drop_first();
    assert forall|i: int| 0 <= i < rest.len() implies (#[trigger] rest[i]).len() > 0 by {
        assert(rest[i] == words(t)[i + 1]);
    }
    lemma_join_not_empty(rest, ' ');
}

/// A line whose first word gives no quantity says that there is one of
/// what the whole line, trimmed, names.
pub proof fn lemma_uncounted_line(line: Seq<char>)
    requires
        free_of(line, '\n'),
        trim(line).len() > 0,
        leading_quantity(words(trim(line))[0]) is None,
    ensures
        parse_text(line) == seq![Record { name: trim(line), quantity: 1 }],
{
    lemma_single_line(line);
}

/// A line that is nothing but digits is a quantity and its own name.
pub proof fn lemma_bare_number(line: Seq<char>)
    requires
        line.len() > 0,
        all_digits(line),
        decimal_value(line) <= i32::MAX,
    ensures
        parse_text(line) == seq![Record { name: line, quantity: decimal_value(line) as int }],
{
    assert forall|i: int| 0 <= i < line.len() implies !is_space(line[i]) && line[i] != '\n' by {
        assert(is_digit(line[i]));
    }
    lemma_trim_clean(line);
    lemma_single_line(line);
    lemma_words_single(line);
    lemma_suffixed_quantity(line, Seq::<char>::empty());
    assert(line + Seq::<char>::empty() =~= line);
    assert(seq![line].drop_first() =~= Seq::<Seq<char>>::empty());
}

/// A note that holds nothing but blanks, line feeds among them, gives no
/// record.
pub proof fn lemma_blank_text(s: Seq<char>)
    requires
        is_blank(s),
    ensures
        parse_text(s) == Seq::<Record>::empty(),
{
    lemma_lines_blank(s);
    lemma_line_records_blank(lines(s));
}

/// The order of the lines is the order of the records: a note made of two
/// notes, the second on a new line, gives the records of the first
/// followed by the records of the second.
pub proof fn lemma_parse_text_concat(a: Seq<char>, b: Seq<char>)
    ensures
        parse_text(a + seq!['\n'] + b) == parse_text(a) + parse_text(b),
{
    lemma_lines_concat(a, b);
    lemma_line_records_concat(lines(a), lines(b));
}

/// No name read from a note holds a line feed, and every quantity is one
/// that 32 bits with a sign hold.
pub proof fn lemma_parsed_records(raw: Seq<char>)
    ensures
        forall|i: int|
            0 <= i < parse_text(raw).len() ==> free_of(
                (#[trigger] parse_text(raw)[i]).name,
                '\n',
            ) && 0 <= parse_text(raw)[i].quantity <= i32::MAX,
{
    lemma_lines_free_of_line_feed(raw);
    lemma_line_records_names(lines(raw));
}

} // verus!
