//! The error type of the engine and the text of each error.

use crate::text::{append_decimal, decimal};
use vstd::prelude::*;

verus! {

/// `std::io::Error`, carried through the engine's errors unopened.
#[verifier::external_type_specification]
#[verifier::external_body]
pub struct ExIoError(std::io::Error);

/// Everything that can go wrong in the engine.
#[derive(Debug)]
pub enum LsmError {
    /// A file operation failed.
    Io(std::io::Error),
    /// Stored bytes do not have the form they must have.
    Corruption(String),
    /// A key of the first length exceeds the second, the longest allowed.
    KeyTooLarge(usize, usize),
    /// A value of the first length exceeds the second, the longest allowed.
    ValueTooLarge(usize, usize),
    /// The request itself is not a valid one.
    InvalidOp(String),
}

/// The result of a fallible engine operation.
pub type Result<T> = std::result::Result<T, LsmError>;

/// The mathematical content of an [`LsmError`].
pub enum ErrorView {
    Io,
    Corruption(Seq<char>),
    KeyTooLarge(nat, nat),
    ValueTooLarge(nat, nat),
    InvalidOp(Seq<char>),
}

/// What a fallible operation comes to, mathematically.
pub type Outcome<T> = std::result::Result<T, ErrorView>;

impl View for LsmError {
    type V = ErrorView;

    open spec fn view(&self) -> ErrorView {
        match self {
            LsmError::Io(_) => ErrorView::Io,
            LsmError::Corruption(m) => ErrorView::Corruption(m@),
            LsmError::KeyTooLarge(len, max) => ErrorView::KeyTooLarge(*len as nat, *max as nat),
            LsmError::ValueTooLarge(len, max) => ErrorView::ValueTooLarge(*len as nat, *max as nat),
            LsmError::InvalidOp(m) => ErrorView::InvalidOp(m@),
        }
    }
}

/// The text of an I/O error whose own description is `detail`.
pub open spec fn io_error_text(detail: Seq<char>) -> Seq<char> {
    "I/O error: "@ + detail
}

/// The text of every error that does not come from a file operation.
pub open spec fn error_text(e: ErrorView) -> Seq<char> {
    match e {
        ErrorView::Io => io_error_text(Seq::empty()),
        ErrorView::Corruption(m) => "corrupted data: "@ + m,
        ErrorView::KeyTooLarge(len, max) => "key length "@ + decimal(len) + " exceeds maximum "@
            + decimal(max),
        ErrorView::ValueTooLarge(len, max) => "value length "@ + decimal(len)
            + " exceeds maximum "@ + decimal(max),
        ErrorView::InvalidOp(m) => "invalid operation: "@ + m,
    }
}

/// `std::io::Error`'s `to_string`: the description of a file error. The text
/// comes from the operating system, so nothing is said of it.
#[verifier::external_body]
fn io_detail(e: &std::io::Error) -> String {
    e.to_string()
}

/// The text of an I/O error whose own description is `detail`.
pub fn io_text(detail: &str) -> (s: String)
    ensures
        s@ == io_error_text(detail@),
{
    let mut s: String = String::from_str("I/O error: ");
    s.append(detail);
    s
}

impl LsmError {
    /// The text shown to users. The description inside an I/O error is the
    /// operating system's.
    pub fn to_string(&self) -> (s: String)
        ensures
            self is Io ==> exists|detail: Seq<char>| s@ == #[trigger] io_error_text(detail),
            !(self is Io) ==> s@ == error_text(self@),
            self matches LsmError::Corruption(m) ==> s@ == "corrupted data: "@ + m@,
            self matches LsmError::InvalidOp(m) ==> s@ == "invalid operation: "@ + m@,
            self matches LsmError::KeyTooLarge(len, max) ==> s@ == "key length "@ + decimal(
                *len as nat,
            ) + " exceeds maximum "@ + decimal(*max as nat),
            self matches LsmError::ValueTooLarge(len, max) ==> s@ == "value length "@ + decimal(
                *len as nat,
            ) + " exceeds maximum "@ + decimal(*max as nat),
    {
        match self {
            LsmError::Io(e) => {
                let detail: String = io_detail(e);
                io_text(detail.as_str())
            },
            LsmError::Corruption(m) => {
                let mut s: String = String::from_str("corrupted data: ");
                s.append(m.as_str());
                s
            },
            LsmError::KeyTooLarge(len, max) => {
                let mut s: String = String::from_str("key length ");
                append_decimal(&mut s, *len as u64);
                s.append(" exceeds maximum ");
                append_decimal(&mut s, *max as u64);
                s
            },
            LsmError::ValueTooLarge(len, max) => {
                let mut s: String = String::from_str("value length ");
                append_decimal(&mut s, *len as u64);
                s.append(" exceeds maximum ");
                append_decimal(&mut s, *max as u64);
                s
            },
            LsmError::InvalidOp(m) => {
                let mut s: String = String::from_str("invalid operation: ");
                s.append(m.as_str());
                s
            },
        }
    }
}

impl From<std::io::Error> for LsmError {
    fn from(e: std::io::Error) -> (r: LsmError) {
        LsmError::Io(e)
    }
}

impl vstd::std_specs::convert::FromSpecImpl<std::io::Error> for LsmError {
    open spec fn obeys_from_spec() -> bool {
        true
    }

    open spec fn from_spec(e: std::io::Error) -> LsmError {
        LsmError::Io(e)
    }
}

} // verus!
