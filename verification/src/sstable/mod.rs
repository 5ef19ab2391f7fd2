//! The on-disk table format: layout constants, magic bytes, and the tri-state
//! lookup result.

use crate::model::{Cell, Contents};
use vstd::prelude::*;

pub mod bloom;
pub mod builder;
pub mod index;
pub mod layout;
pub mod reader;
pub mod record;
pub mod table;

verus! {

/// A data block is closed before it would grow past this many bytes.
pub const TARGET_BLOCK_SIZE: usize = 4096;

/// The last bytes of every table: "LSMTREE1".
pub const MAGIC: [u8; 8] = [0x4C, 0x53, 0x4D, 0x54, 0x52, 0x45, 0x45, 0x31];

/// The length of the footer.
pub const FOOTER_LEN: usize = 24;

/// The longest key that a table can hold.
pub const MAX_KEY_LEN: usize = 65535;

/// The longest value that a table can hold.
pub const MAX_VALUE_LEN: usize = 4294967295;

/// Bit 0 of a record's flags marks a tombstone. The other bits are reserved and
/// ignored on read.
pub const FLAG_DELETED: u8 = 1;

/// Result of a point lookup that found the key: a live value or a tombstone. An
/// empty value is legitimate user data and is not a deletion.
#[derive(Clone, Debug, PartialEq, Eq)]
pub enum LookupValue {
    Present(Vec<u8>),
    Deleted,
}

/// The mathematical content of a [`LookupValue`].
pub enum LookupView {
    Present(Seq<u8>),
    Deleted,
}

impl View for LookupValue {
    type V = LookupView;

    open spec fn view(&self) -> LookupView {
        match self {
            LookupValue::Present(v) => LookupView::Present(v@),
            LookupValue::Deleted => LookupView::Deleted,
        }
    }
}

/// What a lookup reports of a key's state.
pub open spec fn reported(cell: Cell) -> LookupView {
    if cell.1 {
        LookupView::Deleted
    } else {
        LookupView::Present(cell.0)
    }
}

/// What a lookup reports of a key, given what the table holds.
pub open spec fn lookup(contents: Contents, key: Seq<u8>) -> Option<LookupView> {
    if contents.contains_key(key) {
        Some(reported(contents[key]))
    } else {
        None
    }
}

/// A lookup tells a tombstone from a live value, which may be empty, and both from a key
/// that is not there.
pub proof fn lookup_tells_apart(contents: Contents, key: Seq<u8>, value: Seq<u8>)
    ensures
        lookup(contents.insert(key, (value, false)), key) == Some(LookupView::Present(value)),
        lookup(contents.insert(key, (value, true)), key) == Some(LookupView::Deleted),
        lookup(contents.remove(key), key) is None,
{
}

/// A lookup result by its content.
pub open spec fn lookup_view(r: Option<LookupValue>) -> Option<LookupView> {
    match r {
        Some(v) => Some(v@),
        None => None,
    }
}

} // verus!
