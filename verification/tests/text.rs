use inventory_inbox::chars::{char_of_digit, digit_of, space_char};
use inventory_inbox::text::{
    chars_of, push_chars, split_lines, split_words, string_of, trim_slice,
};

fn chars(s: &str) -> Vec<char> {
    s.chars().collect()
}

fn strings(parts: Vec<&[char]>) -> Vec<String> {
    parts.into_iter().map(|p| p.iter().collect()).collect()
}

#[test]
fn space_char_agrees_with_the_standard_library() {
    let mut u: u32 = 0;
    while u <= 0x11_0000 {
        if let Some(c) = char::from_u32(u) {
            assert_eq!(space_char(c), c.is_whitespace(), "U+{:04X}", u);
        }
        u += 1;
    }
}

#[test]
fn digit_of_agrees_with_the_standard_library() {
    let mut u: u32 = 0;
    while u <= 0x3000 {
        if let Some(c) = char::from_u32(u) {
            assert_eq!(digit_of(c).is_some(), c.is_ascii_digit());
            if let Some(d) = digit_of(c) {
                assert_eq!(Some(d as u32), c.to_digit(10));
                assert_eq!(char_of_digit(d), c);
            }
        }
        u += 1;
    }
}

#[test]
fn chars_of_lists_the_characters() {
    assert_eq!(chars_of("h\u{e9}llo \u{1F600}"), chars("h\u{e9}llo \u{1F600}"));
    assert_eq!(chars_of(""), Vec::<char>::new());
}

#[test]
fn string_of_holds_the_characters() {
    assert_eq!(string_of(&chars("h\u{e9}llo")), "h\u{e9}llo");
    assert_eq!(string_of(&[]), "");
}

#[test]
fn push_chars_adds_at_the_end() {
    let mut s = String::from("ab");
    push_chars(&mut s, &chars("cd"));
    assert_eq!(s, "abcd");
    push_chars(&mut s, &[]);
    assert_eq!(s, "abcd");
}

#[test]
fn trim_slice_drops_blanks_at_both_ends() {
    assert_eq!(trim_slice(&chars(" \t a b \r\n")), &chars("a b")[..]);
    assert_eq!(trim_slice(&chars("a")), &chars("a")[..]);
    assert_eq!(trim_slice(&chars(" \u{2003} ")), &chars("")[..]);
    assert_eq!(trim_slice(&chars("")), &chars("")[..]);
}

#[test]
fn trim_slice_agrees_with_the_standard_library() {
    for s in ["", " ", "a", " a", "a ", "  a  b  ", "\u{a0}x\u{3000}", "\n\nx\ty\n"] {
        let cs = chars(s);
        let got: String = trim_slice(&cs).iter().collect();
        assert_eq!(got, s.trim());
    }
}

#[test]
fn split_lines_cuts_at_line_feeds() {
    assert_eq!(strings(split_lines(&chars("a\n\nb\n"))), vec!["a", "", "b", ""]);
    assert_eq!(strings(split_lines(&chars(""))), vec![""]);
    assert_eq!(strings(split_lines(&chars("one"))), vec!["one"]);
    assert_eq!(strings(split_lines(&chars("\n"))), vec!["", ""]);
    assert_eq!(strings(split_lines(&chars("a\r\nb"))), vec!["a\r", "b"]);
}

#[test]
fn split_words_agrees_with_the_standard_library() {
    for s in ["", "  ", "a", " a  bc\td ", "x\u{a0}y", "3 boxes of screws", "a\nb"] {
        let cs = chars(s);
        let want: Vec<String> = s.split_whitespace().map(|w| w.to_string()).collect();
        assert_eq!(strings(split_words(&cs)), want);
    }
}
