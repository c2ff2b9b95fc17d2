use inventory_inbox::intake::handle_submit;
use inventory_inbox::item::Item;
use inventory_inbox::page::{html_escape, push_escaped, render_items};

fn item(quantity: i32, name: &str) -> Item {
    Item { name: name.to_string(), quantity }
}

const HEAD: &str = "<!doctype html><html><head><meta charset=\"utf-8\"><title>Inventory Saved</title><meta name=\"viewport\" content=\"width=device-width, initial-scale=1.0\"></head><body style=\"font-family: sans-serif; padding: 1rem;\"><h1>Parsed Items</h1><ul>";
const TAIL: &str = "</ul><p><a href=\"/\">Back</a></p></body></html>";

#[test]
fn html_escape_replaces_three_characters() {
    assert_eq!(html_escape("a<b>&c"), "a&lt;b&gt;&amp;c");
    assert_eq!(html_escape("&amp;"), "&amp;amp;");
    assert_eq!(html_escape("<<>>"), "&lt;&lt;&gt;&gt;");
    assert_eq!(html_escape(""), "");
}

#[test]
fn html_escape_leaves_the_rest() {
    assert_eq!(html_escape("\"quoted\" 'single' caf\u{e9}"), "\"quoted\" 'single' caf\u{e9}");
}

#[test]
fn html_escape_is_three_replacements_in_a_row() {
    for s in ["", "a", "&", "<", ">", "&lt;", "a & b < c > d", "<script>&&</script>", "&amp;&gt;"] {
        let want = s.replace('&', "&amp;").replace('<', "&lt;").replace('>', "&gt;");
        assert_eq!(html_escape(s), want);
    }
}

#[test]
fn push_escaped_adds_at_the_end() {
    let mut out = String::from("<b>");
    push_escaped(&mut out, "1 < 2");
    assert_eq!(out, "<b>1 &lt; 2");
}

#[test]
fn page_without_items() {
    assert_eq!(render_items(&[]), format!("{}{}", HEAD, TAIL));
}

#[test]
fn page_lists_the_items() {
    let items = vec![item(3, "boxes of screws"), item(2, "nuts & bolts"), item(-1, "<b>")];
    let want = format!(
        "{}<li>3 &times; boxes of screws</li><li>2 &times; nuts &amp; bolts</li><li>-1 &times; &lt;b&gt;</li>{}",
        HEAD, TAIL
    );
    assert_eq!(render_items(&items), want);
}

#[test]
fn intake_of_a_note() {
    let intake = handle_submit("3 boxes of screws\n2x paint brush\nhammer\n\n");
    assert_eq!(
        intake.items,
        vec![item(3, "boxes of screws"), item(2, "paint brush"), item(1, "hammer")]
    );
    assert_eq!(intake.csv, "3,boxes of screws\n2,paint brush\n1,hammer\n");
    assert_eq!(
        intake.html,
        format!(
            "{}<li>3 &times; boxes of screws</li><li>2 &times; paint brush</li><li>1 &times; hammer</li>{}",
            HEAD, TAIL
        )
    );
}

#[test]
fn intake_of_an_empty_note() {
    let intake = handle_submit(" \n");
    assert_eq!(intake.items, Vec::<Item>::new());
    assert_eq!(intake.csv, "");
    assert_eq!(intake.html, format!("{}{}", HEAD, TAIL));
}
