//! One intake: a note is read, and what is to be stored and what is to be
//! shown are laid out. Storing can fail later without touching what is
//! shown, since both are made from the items alone.

use vstd::prelude::*;
use crate::item::{records, Item};
use crate::ledger::{
    append_items_to_csv, decode_text, ledger_text, lemma_round_trip, reads_back,
};
use crate::page::{page, render_items};
use crate::parser::{fake_llm_parse, lemma_parsed_records, parse_text};
use crate::text::free_of;

verus! {

/// What a submitted note comes to.
pub struct Intake {
    /// The items read from the note.
    pub items: Vec<Item>,
    /// The lines to append to the ledger.
    pub csv: String,
    /// The page that confirms the intake.
    pub html: String,
}

/// What is read from a note and written to the ledger is read back from
/// the ledger as it was, provided that no name holds a comma.
pub proof fn lemma_note_round_trip(raw: Seq<char>)
    requires
        forall|i: int|
            0 <= i < parse_text(raw).len() ==> free_of((#[trigger] parse_text(raw)[i]).name, ','),
    ensures
        decode_text(ledger_text(parse_text(raw))) == Some(parse_text(raw)),
{
    lemma_parsed_records(raw);
    assert forall|i: int| 0 <= i < parse_text(raw).len() implies reads_back(
        #[trigger] parse_text(raw)[i],
    ) by {}
    lemma_round_trip(parse_text(raw));
}

/// Reads a submitted note and lays out its ledger lines and its
/// confirmation page.
pub fn handle_submit(text: &str) -> (intake: Intake)
    ensures
        records(intake.items@) == parse_text(text@),
        forall|i: int| 0 <= i < intake.items.len() ==> (#[trigger] intake.items[i])@.is_valid(),
        intake.csv@ == ledger_text(parse_text(text@)),
        intake.html@ == page(parse_text(text@)),
{
    let items = fake_llm_parse(text);
    let mut csv = String::new();
    append_items_to_csv(&mut csv, items.as_slice());
    assert(csv@ =~= ledger_text(records(items@)));
    let html = render_items(items.as_slice());
    Intake { items, csv, html }
}

} // verus!
