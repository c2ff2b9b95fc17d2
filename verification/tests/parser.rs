use inventory_inbox::item::Item;
use inventory_inbox::parser::{fake_llm_parse, parse_line, quantity_of};

fn item(quantity: i32, name: &str) -> Item {
    Item { name: name.to_string(), quantity }
}

fn chars(s: &str) -> Vec<char> {
    s.chars().collect()
}

#[test]
fn counted_line_gives_quantity_and_rest() {
    assert_eq!(fake_llm_parse("3 boxes of screws"), vec![item(3, "boxes of screws")]);
}

#[test]
fn uncounted_line_gives_one_of_the_whole_line() {
    assert_eq!(fake_llm_parse("hammer"), vec![item(1, "hammer")]);
    assert_eq!(fake_llm_parse("claw hammer, large"), vec![item(1, "claw hammer, large")]);
}

#[test]
fn bare_number_is_its_own_name() {
    assert_eq!(fake_llm_parse("42"), vec![item(42, "42")]);
    assert_eq!(fake_llm_parse("3"), vec![item(3, "3")]);
    assert_eq!(fake_llm_parse("  7x  "), vec![item(7, "7x")]);
}

#[test]
fn suffix_behind_the_digits_is_dropped() {
    assert_eq!(fake_llm_parse("2x paint brush"), vec![item(2, "paint brush")]);
    assert_eq!(fake_llm_parse("12pcs. washers"), vec![item(12, "washers")]);
}

#[test]
fn only_trailing_characters_are_dropped() {
    assert_eq!(fake_llm_parse("x2 widgets"), vec![item(1, "x2 widgets")]);
    assert_eq!(fake_llm_parse("2x3y bolts"), vec![item(1, "2x3y bolts")]);
    assert_eq!(fake_llm_parse("#4 screws"), vec![item(1, "#4 screws")]);
}

#[test]
fn blank_lines_give_nothing() {
    assert_eq!(fake_llm_parse(""), Vec::<Item>::new());
    assert_eq!(fake_llm_parse("\n\n"), Vec::<Item>::new());
    assert_eq!(fake_llm_parse("  \n\t\n \r\n\u{3000}\n"), Vec::<Item>::new());
    assert_eq!(fake_llm_parse("\n  \nhammer\n \n\n"), vec![item(1, "hammer")]);
}

#[test]
fn lines_keep_their_order() {
    let first = "3 boxes of screws\n\nhammer";
    let second = "  \n2x paint brush\n42";
    let mut expected = fake_llm_parse(first);
    expected.extend(fake_llm_parse(second));
    let whole = format!("{}\n{}", first, second);
    assert_eq!(fake_llm_parse(&whole), expected);
    assert_eq!(
        expected,
        vec![
            item(3, "boxes of screws"),
            item(1, "hammer"),
            item(2, "paint brush"),
            item(42, "42"),
        ]
    );
}

#[test]
fn note_of_three_lines() {
    assert_eq!(
        fake_llm_parse("3 boxes of screws\n2x paint brush\nhammer\n\n"),
        vec![item(3, "boxes of screws"), item(2, "paint brush"), item(1, "hammer")]
    );
}

#[test]
fn words_are_joined_by_single_spaces() {
    assert_eq!(
        fake_llm_parse("  3   boxes \t of\u{a0}\u{2003}screws  "),
        vec![item(3, "boxes of screws")]
    );
    assert_eq!(fake_llm_parse("3\u{3000}nuts"), vec![item(3, "nuts")]);
}

#[test]
fn uncounted_line_keeps_its_inner_blanks() {
    assert_eq!(fake_llm_parse("  claw   hammer \t"), vec![item(1, "claw   hammer")]);
}

#[test]
fn carriage_returns_are_blanks() {
    assert_eq!(
        fake_llm_parse("3 nuts\r\n2 bolts\r\n"),
        vec![item(3, "nuts"), item(2, "bolts")]
    );
    assert_eq!(fake_llm_parse("3 nuts\r2 bolts"), vec![item(3, "nuts 2 bolts")]);
}

#[test]
fn a_count_is_never_negative() {
    assert_eq!(fake_llm_parse("-3 nails"), vec![item(1, "-3 nails")]);
    assert_eq!(fake_llm_parse("-3"), vec![item(1, "-3")]);
    assert_eq!(fake_llm_parse("+3 nails"), vec![item(3, "nails")]);
    assert_eq!(fake_llm_parse("-0 nails"), vec![item(0, "nails")]);
    assert_eq!(fake_llm_parse("0 nails"), vec![item(0, "nails")]);
    assert_eq!(fake_llm_parse("- nails"), vec![item(1, "- nails")]);
    assert_eq!(fake_llm_parse("+-3 nails"), vec![item(1, "+-3 nails")]);
}

#[test]
fn quantity_must_fit_32_bits() {
    assert_eq!(fake_llm_parse("2147483647 bolts"), vec![item(2147483647, "bolts")]);
    assert_eq!(fake_llm_parse("2147483648 bolts"), vec![item(1, "2147483648 bolts")]);
    assert_eq!(
        fake_llm_parse("99999999999999999999999999 bolts"),
        vec![item(1, "99999999999999999999999999 bolts")]
    );
    assert_eq!(fake_llm_parse("0000000000000000000000007 agents"), vec![item(7, "agents")]);
}

#[test]
fn only_ascii_digits_count() {
    assert_eq!(fake_llm_parse("\u{663} nails"), vec![item(1, "\u{663} nails")]);
    assert_eq!(fake_llm_parse("3\u{663} nails"), vec![item(3, "nails")]);
}

#[test]
fn every_item_is_named_and_counted() {
    let items = fake_llm_parse("3 a\n-4 b\n5\n\n x \n0\n+\n12abc\n99999999999 z\n");
    assert_eq!(items.len(), 8);
    for it in &items {
        assert!(!it.name.is_empty());
        assert!(it.quantity >= 0);
    }
}

#[test]
fn parsing_is_repeatable() {
    let text = "3 boxes of screws\n2x paint brush\nhammer\n";
    assert_eq!(fake_llm_parse(text), fake_llm_parse(text));
}

#[test]
fn parse_line_reads_one_line() {
    assert_eq!(parse_line(&chars("10 M4 nuts")), item(10, "M4 nuts"));
    assert_eq!(parse_line(&chars("nuts")), item(1, "nuts"));
    assert_eq!(parse_line(&chars("")), item(1, ""));
}

#[test]
fn quantity_of_reads_the_leading_word() {
    assert_eq!(quantity_of(&chars("2x")), Some(2));
    assert_eq!(quantity_of(&chars("15")), Some(15));
    assert_eq!(quantity_of(&chars("+15kg")), Some(15));
    assert_eq!(quantity_of(&chars("x")), None);
    assert_eq!(quantity_of(&chars("")), None);
    assert_eq!(quantity_of(&chars("-1")), None);
    assert_eq!(quantity_of(&chars("1-1")), None);
}
