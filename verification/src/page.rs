//! The page that confirms an intake: the items read from the note, as an
//! HTML list.

use vstd::prelude::*;
use vstd::string::StringExecFns;
use crate::decimal::{integer_text, push_i32};
use crate::item::{records, Item, Record};
use crate::text::{chars_of, free_of, push_char};

verus! {

/// What the confirmation page holds before the list entries.
pub const PAGE_HEAD: &'static str =
    "<!doctype html><html><head><meta charset=\"utf-8\"><title>Inventory Saved</title><meta name=\"viewport\" content=\"width=device-width, initial-scale=1.0\"></head><body style=\"font-family: sans-serif; padding: 1rem;\"><h1>Parsed Items</h1><ul>";

/// What the confirmation page holds behind the list entries.
pub const PAGE_FOOT: &'static str = "</ul><p><a href=\"/\">Back</a></p></body></html>";

/// What stands in HTML text for the character `c`: an entity for `&`, `<`
/// and `>`, the character itself for any other.
pub open spec fn escape_char(c: char) -> Seq<char> {
    if c == '&' {
        "&amp;"@
    } else if c == '<' {
        "&lt;"@
    } else if c == '>' {
        "&gt;"@
    } else {
        seq![c]
    }
}

/// `s` with each of its characters escaped.
pub open spec fn escape(s: Seq<char>) -> Seq<char>
    decreases s.len(),
{
    if s.len() == 0 {
        Seq::empty()
    } else {
        escape(s.drop_last()) + escape_char(s.last())
    }
}

/// `s` with every `c` replaced by `by`.
pub open spec fn replace(s: Seq<char>, c: char, by: Seq<char>) -> Seq<char>
    decreases s.len(),
{
    if s.len() == 0 {
        Seq::empty()
    } else {
        replace(s.drop_last(), c, by) + if s.last() == c {
            by
        } else {
            seq![s.last()]
        }
    }
}

/// The list entry of one record.
pub open spec fn entry(r: Record) -> Seq<char> {
    "<li>"@ + integer_text(r.quantity) + " &times; "@ + escape(r.name) + "</li>"@
}

/// The list entries of `rs`, in order.
pub open spec fn entries(rs: Seq<Record>) -> Seq<char>
    decreases rs.len(),
{
    if rs.len() == 0 {
        Seq::empty()
    } else {
        entries(rs.drop_last()) + entry(rs.last())
    }
}

/// The confirmation page for `rs`: the list of the entries between the
/// page's head and its foot.
pub open spec fn page(rs: Seq<Record>) -> Seq<char> {
    PAGE_HEAD@ + entries(rs) + PAGE_FOOT@
}

/// Adds `s`, escaped for HTML, at the end of `out`.
pub fn push_escaped(out: &mut String, s: &str)
    ensures
        final(out)@ == old(out)@ + escape(s@),
{
    let cs = chars_of(s);
    let mut i: usize = 0;
    assert(cs@.take(0) =~= Seq::<char>::empty());
    assert(out@ =~= old(out)@ + Seq::<char>::empty());
    while i < cs.len()
        invariant
            i <= cs.len(),
            out@ == old(out)@ + escape(cs@.take(i as int)),
        decreases cs.len() - i,
    {
        let c = cs[i];
        let ghost before = out@;
        if c == '&' {
            out.append("&amp;");
        } else if c == '<' {
            out.append("&lt;");
        } else if c == '>' {
            out.append("&gt;");
        } else {
            push_char(out, c);
        }
        proof {
            let now = cs@.take(i + 1);
            assert(now.drop_last() =~= cs@.take(i as int));
            assert(now.last() == c);
            assert(out@ =~= before + escape_char(c));
            assert(out@ =~= old(out)@ + escape(now));
        }
        i += 1;
    }
    assert(cs@.take(i as int) =~= cs@);
}

/// `s` with `&`, `<` and `>` replaced by their entities.
pub fn html_escape(s: &str) -> (r: String)
    ensures
        r@ == escape(s@),
{
    let mut r = String::new();
    push_escaped(&mut r, s);
    r
}

/// The confirmation page that lists `items`.
pub fn render_items(items: &[Item]) -> (html: String)
    ensures
        html@ == page(records(items@)),
{
    let mut html = String::new();
    html.append(PAGE_HEAD);
    let ghost head = html@;
    let mut k: usize = 0;
    assert(records(items@).take(0) =~= Seq::<Record>::empty());
    assert(html@ =~= head + Seq::<char>::empty());
    while k < items.len()
        invariant
            k <= items.len(),
            html@ == head + entries(records(items@).take(k as int)),
        decreases items.len() - k,
    {
        let ghost before = html@;
        html.append("<li>");
        push_i32(&mut html, items[k].quantity);
        html.append(" &times; ");
        push_escaped(&mut html, items[k].name.as_str());
        html.append("</li>");
        proof {
            let now = records(items@).take(k + 1);
            assert(now.drop_last() =~= records(items@).take(k as int));
            assert(now.last() == items@[k as int]@);
            assert(html@ =~= before + entry(items@[k as int]@));
            assert(html@ =~= head + entries(now));
        }
        k += 1;
    }
    assert(records(items@).take(k as int) =~= records(items@));
    html.append(PAGE_FOOT);
    assert(html@ =~= page(records(items@)));
    html
}

/// Replacing in two texts, one after the other, is replacing in the
/// texts taken together.
pub proof fn lemma_replace_concat(a: Seq<char>, b: Seq<char>, c: char, by: Seq<char>)
    ensures
        replace(a + b, c, by) == replace(a, c, by) + replace(b, c, by),
    decreases b.len(),
{
    if b.len() == 0 {
        assert(a + b =~= a);
    } else {
        lemma_replace_concat(a, b.drop_last(), c, by);
        assert((a + b).drop_last() =~= a + b.drop_last());
    }
}

/// Replacing a character that is not there changes nothing.
pub proof fn lemma_replace_absent(s: Seq<char>, c: char, by: Seq<char>)
    requires
        free_of(s, c),
    ensures
        replace(s, c, by) == s,
    decreases s.len(),
{
    if s.len() > 0 {
        let front = s.drop_last();
        assert forall|i: int| 0 <= i < front.len() implies front[i] != c by {
            assert(front[i] == s[i]);
        }
        lemma_replace_absent(front, c, by);
        assert(front + seq![s.last()] =~= s);
    }
}

/// Escaping is replacing every `&`, then every `<`, then every `>`: the
/// entity that one step puts in holds nothing that a later step replaces.
pub proof fn lemma_escape_is_three_replacements(s: Seq<char>)
    ensures
        escape(s) == replace(replace(replace(s, '&', "&amp;"@), '<', "&lt;"@), '>', "&gt;"@),
    decreases s.len(),
{
    reveal_strlit("&amp;");
    reveal_strlit("&lt;");
    reveal_strlit("&gt;");
    let amp = "&amp;"@;
    let lt = "&lt;"@;
    let gt = "&gt;"@;
    let none = Seq::<char>::empty();
    assert(replace(none, '&', amp) =~= none);
    assert(replace(none, '<', lt) =~= none);
    assert(replace(none, '>', gt) =~= none);
    if s.len() > 0 {
        let front = s.drop_last();
        let x = s.last();
        lemma_escape_is_three_replacements(front);
        let first = if x == '&' {
            amp
        } else {
            seq![x]
        };
        let second = if x == '<' {
            lt
        } else {
            first
        };
        assert(replace(second, '>', gt) =~= escape_char(x)) by {
            if x == '>' {
                assert(seq![x].drop_last() =~= none);
                assert(replace(seq![x], '>', gt) =~= gt);
            } else {
                lemma_replace_absent(second, '>', gt);
            }
        }
        assert(replace(first, '<', lt) =~= second) by {
            if x == '<' {
                assert(seq![x].drop_last() =~= none);
                assert(replace(seq![x], '<', lt) =~= lt);
            } else {
                lemma_replace_absent(first, '<', lt);
            }
        }
        let once = replace(front, '&', amp);
        let twice = replace(once, '<', lt);
        lemma_replace_concat(once, first, '<', lt);
        lemma_replace_concat(twice, second, '>', gt);
    }
}

} // verus!
