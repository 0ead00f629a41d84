//! Core error type.

use vstd::prelude::*;

verus! {

/// Errors produced by the incremental parser.
#[derive(Debug)]
pub enum CoreError {
    /// More bytes are buffered without a terminator than a record may hold.
    RecordTooLarge { got: usize, max: usize },
    /// The format rejected the record at `index`.
    InvalidRecord { index: u64, message: String },
}

/// The mathematical value of a [`CoreError`].
pub enum CoreErrorView {
    RecordTooLarge { got: usize, max: usize },
    InvalidRecord { index: u64, message: Seq<char> },
}

impl View for CoreError {
    type V = CoreErrorView;

    open spec fn view(&self) -> CoreErrorView {
        match self {
            CoreError::RecordTooLarge { got, max } => CoreErrorView::RecordTooLarge {
                got: *got,
                max: *max,
            },
            CoreError::InvalidRecord { index, message } => CoreErrorView::InvalidRecord {
                index: *index,
                message: message@,
            },
        }
    }
}

} // verus!
