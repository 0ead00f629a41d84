//! The output of the parser: one event per completed record.

use crate::error::{CoreError, CoreErrorView};
use vstd::prelude::*;

verus! {

/// A parsed record, owned so it outlives buffer compaction.
#[derive(Debug, Clone, PartialEq, Eq)]
pub struct ParseEvent {
    /// 0-based record index in the stream.
    pub index: u64,
    /// Byte length of the raw record (excluding the terminator).
    pub raw_len: usize,
    /// The format-specific payload.
    pub payload: RecordPayload,
}

/// The decoded content of a record, depending on the format.
#[derive(Debug, Clone, PartialEq, Eq)]
pub enum RecordPayload {
    /// A validated JSON value, stored as its canonical text.
    Json(String),
    /// Delimited fields, each trimmed.
    Fields(Vec<String>),
}

/// The mathematical value of a [`RecordPayload`].
pub enum PayloadView {
    Json(Seq<char>),
    Fields(Seq<Seq<char>>),
}

/// The mathematical value of a [`ParseEvent`].
pub struct EventView {
    pub index: u64,
    pub raw_len: usize,
    pub payload: PayloadView,
}

/// The characters of each string.
pub open spec fn strings_view(v: Seq<String>) -> Seq<Seq<char>> {
    v.map_values(|s: String| s@)
}

impl View for RecordPayload {
    type V = PayloadView;

    open spec fn view(&self) -> PayloadView {
        match self {
            RecordPayload::Json(text) => PayloadView::Json(text@),
            RecordPayload::Fields(fields) => PayloadView::Fields(strings_view(fields@)),
        }
    }
}

impl View for ParseEvent {
    type V = EventView;

    open spec fn view(&self) -> EventView {
        EventView { index: self.index, raw_len: self.raw_len, payload: self.payload@ }
    }
}

/// The value of each event.
pub open spec fn events_view(v: Seq<ParseEvent>) -> Seq<EventView> {
    v.map_values(|e: ParseEvent| e@)
}

/// The value of the outcome of decoding one record.
pub open spec fn event_result_view(r: Result<ParseEvent, CoreError>) -> Result<
    EventView,
    CoreErrorView,
> {
    match r {
        Ok(e) => Ok(e@),
        Err(e) => Err(e@),
    }
}

/// The value of the outcome of a feed or a finish.
pub open spec fn events_result_view(r: Result<Vec<ParseEvent>, CoreError>) -> Result<
    Seq<EventView>,
    CoreErrorView,
> {
    match r {
        Ok(v) => Ok(events_view(v@)),
        Err(e) => Err(e@),
    }
}

} // verus!
