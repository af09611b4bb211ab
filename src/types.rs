use vstd::prelude::*;

verus! {

/// A time of day as written: two digits of hours and two of minutes, with no
/// range check.
#[derive(Clone, Copy, Debug, PartialEq, Eq)]
pub struct Time {
    pub hours: u8,
    pub minutes: u8,
}

/// A calendar stamp as written, with an optional time of day.
#[derive(Clone, Copy, Debug, PartialEq, Eq)]
pub struct DateTime {
    pub year: u32,
    pub month: u8,
    pub day: u8,
    pub time: Option<Time>,
}

/// One task of the outline.
#[derive(Debug, PartialEq, Eq)]
pub struct Item {
    /// `Some(true)` for `[x]`, `Some(false)` for `[]` or `[ ]`, `None` when no box is written.
    pub todo: Option<bool>,
    pub text: String,
    pub time: Option<DateTime>,
    pub description: Option<String>,
    /// Left empty by the parser; filled by whoever assembles the tree.
    pub children: Vec<Item>,
}

/// What can go wrong while parsing.
#[derive(Clone, Copy, Debug, PartialEq, Eq)]
pub enum ParseError {
    MalformedNumber,
    MalformedTime,
    MalformedDate,
    MalformedCheckbox,
    MissingTitleDelimiter,
    BlockParseFailure,
}

/// The mathematical value of an [`Item`] as the parser produces it.
pub struct EntryModel {
    pub todo: Option<bool>,
    pub title: Seq<char>,
    pub time: Option<DateTime>,
    pub body: Option<Seq<char>>,
}

impl Item {
    pub open spec fn model(&self) -> EntryModel {
        EntryModel {
            todo: self.todo,
            title: self.text@,
            time: self.time,
            body: match self.description {
                Some(s) => Some(s@),
                None => None,
            },
        }
    }
}

} // verus!
