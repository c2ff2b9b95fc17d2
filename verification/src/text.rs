//! Text as sequences of characters: lines, surrounding blanks, words.

use vstd::prelude::*;
use vstd::slice::slice_subrange;
use crate::chars::{is_space, space_char};

verus! {

/// Every character of `s` is a blank.
pub open spec fn is_blank(s: Seq<char>) -> bool {
    forall|i: int| 0 <= i < s.len() ==> is_space(#[trigger] s[i])
}

/// `c` does not occur in `s`.
pub open spec fn free_of(s: Seq<char>, c: char) -> bool {
    forall|i: int| 0 <= i < s.len() ==> s[i] != c
}

/// `s` without the blanks at its start.
pub open spec fn trim_start(s: Seq<char>) -> Seq<char>
    decreases s.len(),
{
    if s.len() > 0 && is_space(s[0]) {
        trim_start(s.drop_first())
    } else {
        s
    }
}

/// `s` without the blanks at its end.
pub open spec fn trim_end(s: Seq<char>) -> Seq<char>
    decreases s.len(),
{
    if s.len() > 0 && is_space(s.last()) {
        trim_end(s.drop_last())
    } else {
        s
    }
}

/// `s` without the blanks at either end.
pub open spec fn trim(s: Seq<char>) -> Seq<char> {
    trim_end(trim_start(s))
}

/// How many characters stand before the first `c` in `s`; the length of
/// `s` if `c` is not in it.
pub open spec fn position(s: Seq<char>, c: char) -> nat
    decreases s.len(),
{
    if s.len() == 0 || s[0] == c {
        0
    } else {
        1 + position(s.drop_first(), c)
    }
}

/// The pieces into which the line feeds cut `s`. There is one more piece
/// than there are line feeds, and a piece may be empty.
pub open spec fn lines(s: Seq<char>) -> Seq<Seq<char>>
    decreases s.len(),
    via lines_decreases
{
    let n = position(s, '\n') as int;
    if n == s.len() {
        seq![s]
    } else {
        seq![s.take(n)] + lines(s.skip(n + 1))
    }
}

#[via_fn]
proof fn lines_decreases(s: Seq<char>) {
    lemma_position(s, '\n');
}

/// How many characters stand before the first blank of `s`; its length if
/// it has none.
pub open spec fn word_len(s: Seq<char>) -> nat
    decreases s.len(),
{
    if s.len() == 0 || is_space(s[0]) {
        0
    } else {
        1 + word_len(s.drop_first())
    }
}

/// The words of `s`: its longest runs of characters that are not blank, in
/// order.
pub open spec fn words(s: Seq<char>) -> Seq<Seq<char>>
    decreases s.len(),
    via words_decreases
{
    if s.len() == 0 {
        Seq::empty()
    } else if is_space(s[0]) {
        words(s.drop_first())
    } else {
        let n = word_len(s) as int;
        seq![s.take(n)] + words(s.skip(n))
    }
}

#[via_fn]
proof fn words_decreases(s: Seq<char>) {
    lemma_word_len(s);
}

/// The pieces of `parts` in one sequence, with `sep` between neighbours.
pub open spec fn join(parts: Seq<Seq<char>>, sep: char) -> Seq<char>
    decreases parts.len(),
{
    if parts.len() == 0 {
        Seq::empty()
    } else if parts.len() == 1 {
        parts[0]
    } else {
        join(parts.drop_last(), sep).push(sep) + parts.last()
    }
}

/// What each slice of `v` holds.
pub open spec fn contents(v: Seq<&[char]>) -> Seq<Seq<char>> {
    v.map_values(|p: &[char]| p@)
}

/// The characters of a string, in order.
pub fn chars_of(s: &str) -> (v: Vec<char>)
    ensures
        v@ == s@,
{
    let mut v: Vec<char> = Vec::new();
    for c in it: s.chars()
        invariant
            v@ == it.seq().take(it.index()),
    {
        v.push(c);
    }
    v
}

/// `String::push`: the string afterwards is the string before with `c`
/// added at its end.
#[verifier::external_body]
pub(crate) fn push_char(out: &mut String, c: char)
    ensures
        final(out)@ == old(out)@.push(c),
{
    out.push(c);
}

/// Adds the characters of `cs` at the end of `out`.
pub fn push_chars(out: &mut String, cs: &[char])
    ensures
        final(out)@ == old(out)@ + cs@,
{
    let mut i: usize = 0;
    while i < cs.len()
        invariant
            i <= cs.len(),
            out@ == old(out)@ + cs@.take(i as int),
        decreases cs.len() - i,
    {
        push_char(out, cs[i]);
        assert(cs@.take(i + 1) =~= cs@.take(i as int).push(cs@[i as int]));
        i += 1;
    }
    assert(cs@.take(i as int) =~= cs@);
}

/// The string that holds the characters of `cs`.
pub fn string_of(cs: &[char]) -> (s: String)
    ensures
        s@ == cs@,
{
    let mut s = String::new();
    push_chars(&mut s, cs);
    s
}

/// The slice without the blanks at either end.
pub fn trim_slice(s: &[char]) -> (t: &[char])
    ensures
        t@ == trim(s@),
{
    let mut a: usize = 0;
    while a < s.len() && space_char(s[a])
        invariant
            a <= s.len(),
            forall|k: int| 0 <= k < a ==> is_space(s@[k]),
        decreases s.len() - a,
    {
        a += 1;
    }
    let mut b: usize = s.len();
    while b > a && space_char(s[b - 1])
        invariant
            a <= b <= s.len(),
            forall|k: int| b <= k < s.len() ==> is_space(s@[k]),
        decreases b,
    {
        b -= 1;
    }
    proof {
        lemma_trim_start_is(s@, a as int);
        lemma_trim_end_is(s@.skip(a as int), b - a);
        assert(s@.skip(a as int).take(b - a) =~= s@.subrange(a as int, b as int));
    }
    slice_subrange(s, a, b)
}

/// The pieces into which the line feeds cut the text.
pub fn split_lines(s: &[char]) -> (out: Vec<&[char]>)
    ensures
        contents(out@) == lines(s@),
{
    let mut out: Vec<&[char]> = Vec::new();
    let mut start: usize = 0;
    let mut i: usize = 0;
    assert(s@.skip(0) =~= s@ && contents(out@) =~= Seq::<Seq<char>>::empty());
    while i < s.len()
        invariant
            start <= i <= s.len(),
            forall|k: int| start <= k < i ==> s@[k] != '\n',
            lines(s@) == contents(out@) + lines(s@.skip(start as int)),
        decreases s.len() - i,
    {
        if s[i] == '\n' {
            let piece = slice_subrange(s, start, i);
            proof {
                let rest = s@.skip(start as int);
                lemma_position_is(rest, '\n', i - start);
                assert(rest.take(i - start) =~= piece@);
                assert(rest.skip(i - start + 1) =~= s@.skip(i + 1));
                assert(contents(out@.push(piece)) =~= contents(out@).push(piece@));
            }
            out.push(piece);
            start = i + 1;
        }
        i += 1;
    }
    let piece = slice_subrange(s, start, i);
    proof {
        let rest = s@.skip(start as int);
        lemma_position_is(rest, '\n', i - start);
        assert(rest =~= piece@);
        assert(contents(out@.push(piece)) =~= contents(out@).push(piece@));
    }
    out.push(piece);
    out
}

/// The words of the text, in order.
pub fn split_words(s: &[char]) -> (out: Vec<&[char]>)
    ensures
        contents(out@) == words(s@),
{
    let mut out: Vec<&[char]> = Vec::new();
    let mut i: usize = 0;
    assert(s@.skip(0) =~= s@ && contents(out@) =~= Seq::<Seq<char>>::empty());
    while i < s.len()
        invariant
            i <= s.len(),
            words(s@) == contents(out@) + words(s@.skip(i as int)),
        decreases s.len() - i,
    {
        if space_char(s[i]) {
            assert(s@.skip(i as int).drop_first() =~= s@.skip(i + 1));
            i += 1;
        } else {
            let start = i;
            while i < s.len() && !space_char(s[i])
                invariant
                    start <= i <= s.len(),
                    forall|k: int| start <= k < i ==> !is_space(s@[k]),
                decreases s.len() - i,
            {
                i += 1;
            }
            let piece = slice_subrange(s, start, i);
            proof {
                let rest = s@.skip(start as int);
                lemma_word_len_is(rest, i - start);
                assert(rest.take(i - start) =~= piece@);
                assert(rest.skip(i - start) =~= s@.skip(i as int));
                assert(contents(out@.push(piece)) =~= contents(out@).push(piece@));
            }
            out.push(piece);
        }
    }
    assert(s@.skip(i as int) =~= Seq::<char>::empty());
    out
}

/// The position of the first `c` lies within `s` or at its end; no `c`
/// stands before it, and one stands at it unless it is the end.
pub proof fn lemma_position(s: Seq<char>, c: char)
    ensures
        position(s, c) <= s.len(),
        forall|k: int| 0 <= k < position(s, c) ==> s[k] != c,
        position(s, c) < s.len() ==> s[position(s, c) as int] == c,
    decreases s.len(),
{
    if s.len() > 0 && s[0] != c {
        let rest = s.drop_first();
        lemma_position(rest, c);
        assert forall|k: int| 0 <= k < position(s, c) implies s[k] != c by {
            if k > 0 {
                assert(s[k] == rest[k - 1]);
            }
        }
    }
}

/// A stretch without `c` that ends at a `c`, or at the end of the text,
/// is what stands before the first `c`.
pub proof fn lemma_position_is(s: Seq<char>, c: char, n: int)
    requires
        0 <= n <= s.len(),
        forall|k: int| 0 <= k < n ==> s[k] != c,
        n < s.len() ==> s[n] == c,
    ensures
        position(s, c) == n,
    decreases n,
{
    if n > 0 {
        lemma_position_is(s.drop_first(), c, n - 1);
    }
}

/// The first word lies within `s` and holds no blank; it is not empty
/// unless `s` is empty or starts with a blank.
pub proof fn lemma_word_len(s: Seq<char>)
    ensures
        word_len(s) <= s.len(),
        s.len() > 0 && !is_space(s[0]) ==> word_len(s) > 0,
        forall|k: int| 0 <= k < word_len(s) ==> !is_space(s[k]),
    decreases s.len(),
{
    if s.len() > 0 && !is_space(s[0]) {
        let rest = s.drop_first();
        lemma_word_len(rest);
        assert forall|k: int| 0 <= k < word_len(s) implies !is_space(s[k]) by {
            if k > 0 {
                assert(s[k] == rest[k - 1]);
            }
        }
    }
}

/// A stretch without a blank that ends at a blank, or at the end of the
/// text, is the first word.
pub proof fn lemma_word_len_is(s: Seq<char>, n: int)
    requires
        0 <= n <= s.len(),
        forall|k: int| 0 <= k < n ==> !is_space(s[k]),
        n < s.len() ==> is_space(s[n]),
    ensures
        word_len(s) == n,
    decreases n,
{
    if n > 0 {
        lemma_word_len_is(s.drop_first(), n - 1);
    }
}

/// Blanks at the start, up to a character that is none, are what
/// `trim_start` takes away.
pub proof fn lemma_trim_start_is(s: Seq<char>, n: int)
    requires
        0 <= n <= s.len(),
        forall|k: int| 0 <= k < n ==> is_space(s[k]),
        n < s.len() ==> !is_space(s[n]),
    ensures
        trim_start(s) == s.skip(n),
    decreases n,
{
    if n > 0 {
        lemma_trim_start_is(s.drop_first(), n - 1);
        assert(s.drop_first().skip(n - 1) =~= s.skip(n));
    } else {
        assert(s.skip(0) =~= s);
    }
}

/// Blanks at the end, back to a character that is none, are what
/// `trim_end` takes away.
pub proof fn lemma_trim_end_is(s: Seq<char>, n: int)
    requires
        0 <= n <= s.len(),
        forall|k: int| n <= k < s.len() ==> is_space(s[k]),
        n > 0 ==> !is_space(s[n - 1]),
    ensures
        trim_end(s) == s.take(n),
    decreases s.len() - n,
{
    if n < s.len() {
        lemma_trim_end_is(s.drop_last(), n);
        assert(s.drop_last().take(n) =~= s.take(n));
    } else {
        assert(s.take(n) =~= s);
    }
}

/// Nothing is left of a blank text once it is trimmed.
pub proof fn lemma_trim_blank(s: Seq<char>)
    requires
        is_blank(s),
    ensures
        trim(s) == Seq::<char>::empty(),
{
    lemma_trim_start_is(s, s.len() as int);
    assert(s.skip(s.len() as int) =~= Seq::<char>::empty());
}

/// A text that neither starts nor ends with a blank is trimmed already.
pub proof fn lemma_trim_clean(s: Seq<char>)
    requires
        s.len() > 0,
        !is_space(s[0]),
        !is_space(s.last()),
    ensures
        trim(s) == s,
{
}

/// Trimming brings in no character that was not there.
pub proof fn lemma_trim_free_of(s: Seq<char>, c: char)
    requires
        free_of(s, c),
    ensures
        free_of(trim(s), c),
{
    lemma_trim_start_free_of(s, c);
    lemma_trim_end_free_of(trim_start(s), c);
}

proof fn lemma_trim_start_free_of(s: Seq<char>, c: char)
    requires
        free_of(s, c),
    ensures
        free_of(trim_start(s), c),
    decreases s.len(),
{
    if s.len() > 0 && is_space(s[0]) {
        let rest = s.drop_first();
        assert forall|i: int| 0 <= i < rest.len() implies rest[i] != c by {
            assert(rest[i] == s[i + 1]);
        }
        lemma_trim_start_free_of(rest, c);
    }
}

proof fn lemma_trim_end_free_of(s: Seq<char>, c: char)
    requires
        free_of(s, c),
    ensures
        free_of(trim_end(s), c),
    decreases s.len(),
{
    if s.len() > 0 && is_space(s.last()) {
        let rest = s.drop_last();
        assert forall|i: int| 0 <= i < rest.len() implies rest[i] != c by {
            assert(rest[i] == s[i]);
        }
        lemma_trim_end_free_of(rest, c);
    }
}

/// A text without a line feed is one line.
pub proof fn lemma_lines_single(s: Seq<char>)
    requires
        free_of(s, '\n'),
    ensures
        lines(s) == seq![s],
{
    lemma_position_is(s, '\n', s.len() as int);
}

/// The lines of two texts joined by a line feed are the lines of the
/// first followed by the lines of the second.
pub proof fn lemma_lines_concat(a: Seq<char>, b: Seq<char>)
    ensures
        lines(a + seq!['\n'] + b) == lines(a) + lines(b),
    decreases a.len(),
{
    let whole = a + seq!['\n'] + b;
    let n = position(a, '\n') as int;
    lemma_position(a, '\n');
    assert forall|k: int| 0 <= k < n implies whole[k] != '\n' by {
        assert(whole[k] == a[k]);
    }
    lemma_position_is(whole, '\n', n);
    if n == a.len() {
        assert(whole.take(n) =~= a);
        assert(whole.skip(n + 1) =~= b);
    } else {
        lemma_lines_concat(a.skip(n + 1), b);
        assert(whole.take(n) =~= a.take(n));
        assert(whole.skip(n + 1) =~= a.skip(n + 1) + seq!['\n'] + b);
        assert(seq![a.take(n)] + (lines(a.skip(n + 1)) + lines(b)) =~= (seq![a.take(n)] + lines(
            a.skip(n + 1),
        )) + lines(b));
    }
}

/// Every line of a blank text is blank.
pub proof fn lemma_lines_blank(s: Seq<char>)
    requires
        is_blank(s),
    ensures
        forall|i: int| 0 <= i < lines(s).len() ==> is_blank(#[trigger] lines(s)[i]),
    decreases s.len(),
{
    let n = position(s, '\n') as int;
    lemma_position(s, '\n');
    if n < s.len() {
        let rest = s.skip(n + 1);
        assert forall|k: int| 0 <= k < rest.len() implies is_space(#[trigger] rest[k]) by {
            assert(rest[k] == s[n + 1 + k]);
        }
        lemma_lines_blank(rest);
        assert forall|k: int| 0 <= k < s.take(n).len() implies is_space(
            #[trigger] s.take(n)[k],
        ) by {
            assert(s.take(n)[k] == s[k]);
        }
        assert forall|i: int| 0 <= i < lines(s).len() implies is_blank(#[trigger] lines(s)[i]) by {
            if i > 0 {
                assert(lines(s)[i] == lines(rest)[i - 1]);
            }
        }
    }
}

/// No line holds a line feed.
pub proof fn lemma_lines_free_of_line_feed(s: Seq<char>)
    ensures
        forall|i: int| 0 <= i < lines(s).len() ==> free_of(#[trigger] lines(s)[i], '\n'),
    decreases s.len(),
{
    let n = position(s, '\n') as int;
    lemma_position(s, '\n');
    if n < s.len() {
        lemma_lines_free_of_line_feed(s.skip(n + 1));
        assert forall|i: int| 0 <= i < lines(s).len() implies free_of(
            #[trigger] lines(s)[i],
            '\n',
        ) by {
            if i > 0 {
                assert(lines(s)[i] == lines(s.skip(n + 1))[i - 1]);
            } else {
                assert(lines(s)[0] == s.take(n));
            }
        }
    }
}

/// A text without blanks is one word, unless it is empty.
pub proof fn lemma_words_single(s: Seq<char>)
    requires
        s.len() > 0,
        forall|i: int| 0 <= i < s.len() ==> !is_space(s[i]),
    ensures
        words(s) == seq![s],
{
    lemma_word_len_is(s, s.len() as int);
    assert(s.take(s.len() as int) =~= s);
    assert(s.skip(s.len() as int) =~= Seq::<char>::empty());
    assert(words(Seq::<char>::empty()) =~= Seq::<Seq<char>>::empty());
}

/// No word is empty.
pub proof fn lemma_words_not_empty(s: Seq<char>)
    ensures
        forall|i: int| 0 <= i < words(s).len() ==> (#[trigger] words(s)[i]).len() > 0,
    decreases s.len(),
{
    if s.len() == 0 {
        assert(words(s).len() == 0);
    } else if is_space(s[0]) {
        lemma_words_not_empty(s.drop_first());
        assert(words(s) == words(s.drop_first()));
    } else {
        let n = word_len(s) as int;
        lemma_word_len(s);
        lemma_words_not_empty(s.skip(n));
        assert forall|i: int| 0 <= i < words(s).len() implies (#[trigger] words(s)[i]).len()
            > 0 by {
            if i > 0 {
                assert(words(s)[i] == words(s.skip(n))[i - 1]);
            } else {
                assert(words(s)[0] == s.take(n));
            }
        }
    }
}

/// No word holds a blank.
pub proof fn lemma_words_hold_no_blank(s: Seq<char>)
    ensures
        forall|i: int, k: int|
            0 <= i < words(s).len() && 0 <= k < words(s)[i].len() ==> !is_space(
                #[trigger] words(s)[i][k],
            ),
    decreases s.len(),
{
    if s.len() == 0 {
        assert(words(s).len() == 0);
    } else if is_space(s[0]) {
        lemma_words_hold_no_blank(s.drop_first());
        assert(words(s) == words(s.drop_first()));
    } else {
        let n = word_len(s) as int;
        lemma_word_len(s);
        lemma_words_hold_no_blank(s.skip(n));
        assert forall|i: int, k: int|
            0 <= i < words(s).len() && 0 <= k < words(s)[i].len() implies !is_space(
            #[trigger] words(s)[i][k],
        ) by {
            if i > 0 {
                assert(words(s)[i] == words(s.skip(n))[i - 1]);
            } else {
                assert(words(s)[0] == s.take(n));
                assert(s.take(n)[k] == s[k]);
            }
        }
    }
}

/// Joined pieces are not empty if there is a piece and no piece is empty.
pub proof fn lemma_join_not_empty(parts: Seq<Seq<char>>, sep: char)
    requires
        parts.len() > 0,
        forall|i: int| 0 <= i < parts.len() ==> (#[trigger] parts[i]).len() > 0,
    ensures
        join(parts, sep).len() > 0,
{
}

/// Joined pieces hold no `c` if no piece does and the separator is none.
pub proof fn lemma_join_free_of(parts: Seq<Seq<char>>, sep: char, c: char)
    requires
        sep != c,
        forall|i: int| 0 <= i < parts.len() ==> free_of(#[trigger] parts[i], c),
    ensures
        free_of(join(parts, sep), c),
    decreases parts.len(),
{
    if parts.len() > 1 {
        let front = parts.drop_last();
        assert forall|i: int| 0 <= i < front.len() implies free_of(#[trigger] front[i], c) by {
            assert(front[i] == parts[i]);
        }
        lemma_join_free_of(front, sep, c);
        let head = join(front, sep).push(sep);
        let whole = join(parts, sep);
        assert(free_of(parts.last(), c));
        assert forall|k: int| 0 <= k < whole.len() implies whole[k] != c by {
            if k < head.len() - 1 {
                assert(whole[k] == join(front, sep)[k]);
            } else if k >= head.len() {
                assert(whole[k] == parts.last()[k - head.len()]);
            }
        }
    } else if parts.len() == 1 {
        assert(free_of(parts[0], c));
    }
}

} // verus!
