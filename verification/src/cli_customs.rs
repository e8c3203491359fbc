//! The arguments of the commands, as plain values. Amounts arrive as the
//! decimal text that was typed, so that no rounding happens on the way in.

use vstd::prelude::*;

verus! {

/// The view of an optional text: its characters, if it is there.
pub open spec fn text_of(s: Option<String>) -> Option<Seq<char>> {
    match s {
        Some(text) => Some(text@),
        None => None,
    }
}

/// Arguments of the listing.
#[derive(Debug, PartialEq, Eq)]
pub struct ListAllArgs {
    /// The month to list, written `YYYY-MM`; all months when absent.
    pub time: Option<String>,
}

/// Arguments of a new income or outcome.
#[derive(Debug, PartialEq, Eq)]
pub struct AmountArgs {
    /// The amount of money as decimal text, such as `100.00`: greater than
    /// zero, with at most two digits after the point.
    pub amount: String,
    /// A note, if one is wanted.
    pub add_msg: Option<String>,
}

/// Arguments of a deletion.
#[derive(Debug, PartialEq, Eq)]
pub struct DeleteRecordArgs {
    /// The id of the record.
    pub id: i32,
}

/// Arguments of a patch: the id, and a new value for each field that is
/// to change.
#[derive(Debug, PartialEq, Eq)]
pub struct PatchRecordArgs {
    /// The id of the record.
    pub id: i32,
    /// The new amount as decimal text, if the amount is to change.
    pub amount: Option<String>,
    /// The new direction, if it is to change: `true` for income.
    pub in_or_out: Option<bool>,
    /// The new note, if it is to change.
    pub add_msg: Option<String>,
}

} // verus!
