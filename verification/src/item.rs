//! The item record: what one line of a note says.

use vstd::prelude::*;

verus! {

/// An item and how many of it there are.
#[derive(Debug, Clone, PartialEq, Eq)]
pub struct Item {
    pub name: String,
    pub quantity: i32,
}

/// An item record as a mathematical value.
pub struct Record {
    pub name: Seq<char>,
    pub quantity: int,
}

impl Record {
    /// A record names something and counts it: the name is not empty and
    /// the quantity is not negative.
    pub open spec fn is_valid(self) -> bool {
        self.name.len() > 0 && self.quantity >= 0
    }
}

impl View for Item {
    type V = Record;

    open spec fn view(&self) -> Record {
        Record { name: self.name@, quantity: self.quantity as int }
    }
}

/// The records that the items of `items` stand for, in order.
pub open spec fn records(items: Seq<Item>) -> Seq<Record> {
    items.map_values(|item: Item| item@)
}

} // verus!
