//! Error type for DEX parsing.

use vstd::prelude::*;

verus! {

/// What went wrong while reading or rewriting a DEX image.
#[derive(Debug, Clone, PartialEq, Eq)]
pub enum DexError {
    /// Structurally invalid content; the text says what.
    Parse(String),
    /// The image does not start with the `dex\n` magic or is shorter than a header.
    InvalidMagic,
    /// A read would run past the end of the buffer; the text names the item.
    Truncated(String),
    /// The class uses invoke-custom / method handles, which slicing cannot carry.
    UnsupportedRef,
    /// No `classes*.dex` entry was found in the given place.
    NoDexFiles(String),
}

pub type Result<T> = core::result::Result<T, DexError>;

/// Whether two errors are the same variant carrying the same text.
pub open spec fn same_error(a: DexError, b: DexError) -> bool {
    match (a, b) {
        (DexError::Parse(x), DexError::Parse(y)) => x@ == y@,
        (DexError::InvalidMagic, DexError::InvalidMagic) => true,
        (DexError::Truncated(x), DexError::Truncated(y)) => x@ == y@,
        (DexError::UnsupportedRef, DexError::UnsupportedRef) => true,
        (DexError::NoDexFiles(x), DexError::NoDexFiles(y)) => x@ == y@,
        _ => false,
    }
}

/// Whether two results are the same value, or the same error.
pub open spec fn same_result<T>(a: Result<T>, b: Result<T>) -> bool {
    match (a, b) {
        (Ok(x), Ok(y)) => x == y,
        (Err(x), Err(y)) => same_error(x, y),
        _ => false,
    }
}

/// Whether two lists of results agree item by item.
pub open spec fn same_results<T>(a: Seq<Result<T>>, b: Seq<Result<T>>) -> bool {
    a.len() == b.len() && forall|i: int| 0 <= i < a.len() ==> same_result(#[trigger] a[i], b[i])
}

/// `Truncated` with the given item name.
pub fn truncated(what: &str) -> (e: DexError)
    ensures
        e == DexError::Truncated(e->Truncated_0),
        e->Truncated_0@ == what@,
{
    DexError::Truncated(what.to_string())
}

/// `Parse` with the given message.
pub fn parse_error(what: &str) -> (e: DexError)
    ensures
        e == DexError::Parse(e->Parse_0),
        e->Parse_0@ == what@,
{
    DexError::Parse(what.to_string())
}

} // verus!
