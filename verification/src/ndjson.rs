//! Newline-delimited JSON: one JSON value per line.

use crate::error::{CoreError, CoreErrorView};
use crate::event::{event_result_view, EventView, ParseEvent, PayloadView, RecordPayload};
use crate::format::Format;
use crate::parser::numbers_records;
use crate::tokenizer::{trim, trim_spec};
use vstd::prelude::*;

verus! {

/// What `serde_json` makes of `bytes` read as one JSON value: the value's
/// compact text, or the text of the error.
pub uninterp spec fn json_canonical(bytes: Seq<u8>) -> Result<Seq<char>, Seq<char>>;

/// Calls `serde_json::from_slice::<serde_json::Value>` and renders the value,
/// or the error, with `to_string`. Claimed: the outcome, text included, is a
/// function of the bytes alone.
#[verifier::external_body]
fn canonical_json(bytes: &[u8]) -> (parsed: Result<String, String>)
    ensures
        json_canonical(bytes@) == (match parsed {
            Ok(text) => Ok::<Seq<char>, Seq<char>>(text@),
            Err(message) => Err::<Seq<char>, Seq<char>>(message@),
        }),
{
    match serde_json::from_slice::<serde_json::Value>(bytes) {
        Ok(value) => Ok(value.to_string()),
        Err(err) => Err(err.to_string()),
    }
}

/// The event, or the error, for record `index` of `raw_len` bytes once its
/// JSON text has been read: the canonical text, or the reader's message.
pub open spec fn json_event(
    raw_len: usize,
    index: u64,
    parsed: Result<Seq<char>, Seq<char>>,
) -> Result<EventView, CoreErrorView> {
    match parsed {
        Ok(text) => Ok(EventView { index, raw_len, payload: PayloadView::Json(text) }),
        Err(message) => Err(CoreErrorView::InvalidRecord { index, message }),
    }
}

/// Builds the event for record `index` of `raw_len` bytes from the outcome of
/// reading its JSON text.
pub fn json_record_event(raw_len: usize, index: u64, parsed: Result<String, String>) -> (r: Result<
    ParseEvent,
    CoreError,
>)
    ensures
        event_result_view(r) == json_event(
            raw_len,
            index,
            match parsed {
                Ok(text) => Ok::<Seq<char>, Seq<char>>(text@),
                Err(message) => Err::<Seq<char>, Seq<char>>(message@),
            },
        ),
{
    match parsed {
        Ok(text) => Ok(ParseEvent { index, raw_len, payload: RecordPayload::Json(text) }),
        Err(message) => Err(CoreError::InvalidRecord { index, message }),
    }
}

/// Parses newline-delimited JSON, validating each line as a JSON value and
/// storing its canonical text.
pub struct Ndjson;

impl Format for Ndjson {
    open spec fn terminator(&self) -> u8 {
        0x0Au8
    }

    open spec fn decode(&self, record: Seq<u8>, index: u64) -> Result<EventView, CoreErrorView> {
        json_event(record.len() as usize, index, json_canonical(trim_spec(record)))
    }

    fn record_terminator(&self) -> (t: u8) {
        0x0Au8
    }

    fn parse_record(&self, record: &[u8], index: u64) -> (r: Result<ParseEvent, CoreError>) {
        let trimmed = trim(record);
        let parsed = canonical_json(trimmed);
        json_record_event(record.len(), index, parsed)
    }
}

/// Each event carries the index the record was decoded at.
pub proof fn lemma_ndjson_numbers_records(format: Ndjson)
    ensures
        numbers_records(format),
{
}

} // verus!
