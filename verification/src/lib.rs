//! An inbox for inventory notes.
//!
//! A note is loosely written text, one item to a line: `3 boxes of screws`,
//! `2x paint brush`, `hammer`. The library reads a note into item records,
//! writes records as the lines of an append-only ledger, reads such lines
//! back, and renders the page that confirms an intake.
//!
//! - [`chars`]: blanks and digits.
//! - [`text`]: lines, trimming and words, over sequences of characters.
//! - [`decimal`]: whole numbers in decimal digits.
//! - [`item`]: the item record.
//! - [`parser`]: from a note to its records.
//! - [`ledger`]: from records to ledger lines, and back.
//! - [`page`]: the confirmation page.
//! - [`intake`]: all that one submitted note comes to.
//!
//! Contracts are stated over `Seq<char>` and [`item::Record`], the views of
//! strings and items.

pub mod chars;
pub mod decimal;
pub mod intake;
pub mod item;
pub mod ledger;
pub mod page;
pub mod parser;
pub mod text;
