//! The Format trait: the seam between the streaming engine and a concrete
//! grammar. The engine drives any `Format` incrementally; the format decides
//! how a complete record's bytes become an event.

use crate::error::{CoreError, CoreErrorView};
use crate::event::{event_result_view, EventView, ParseEvent};
use vstd::prelude::*;

verus! {

/// Defines how a byte stream is divided into records and how each record is
/// decoded.
///
/// `terminator` and `decode` say what the two executable methods do; the
/// parser's contracts are stated over them. The formats of this crate are
/// verified against them; an implementation elsewhere is taken at its word.
pub trait Format {
    /// The byte that terminates one record.
    spec fn terminator(&self) -> u8;

    /// What decoding `record` (without its terminator) as the record numbered
    /// `index` gives.
    spec fn decode(&self, record: Seq<u8>, index: u64) -> Result<EventView, CoreErrorView>;

    /// The byte that terminates one record (e.g. `b'\n'`).
    fn record_terminator(&self) -> (t: u8)
        ensures
            t == self.terminator(),
    ;

    /// Decodes one complete record's bytes (without the terminator) into an
    /// event. `record` borrows the parser's buffer and is not retained.
    fn parse_record(&self, record: &[u8], index: u64) -> (r: Result<ParseEvent, CoreError>)
        ensures
            event_result_view(r) == self.decode(record@, index),
    ;
}

} // verus!
