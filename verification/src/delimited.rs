//! Delimited records (CSV-like): fields separated by a single delimiter byte.

use crate::error::{CoreError, CoreErrorView};
use crate::event::{strings_view, EventView, ParseEvent, PayloadView, RecordPayload};
use crate::format::Format;
use crate::parser::numbers_records;
use crate::tokenizer::{count_byte, lemma_split_count, split_fields, split_on, trim, trim_spec};
use vstd::prelude::*;
use vstd::utf8::{decode_utf8, valid_utf8};

verus! {

/// What `String::from_utf8_lossy` makes of `bytes`.
pub uninterp spec fn utf8_lossy(bytes: Seq<u8>) -> Seq<char>;

/// Calls `String::from_utf8_lossy` and takes ownership of the result. Claimed:
/// the characters are a function of the bytes alone, and when the bytes are
/// valid UTF-8 they are exactly the characters the bytes encode. What replaces
/// an invalid sequence is left unsaid.
#[verifier::external_body]
fn lossy_string(bytes: &[u8]) -> (text: String)
    ensures
        text@ == utf8_lossy(bytes@),
        valid_utf8(bytes@) ==> text@ == decode_utf8(bytes@),
{
    String::from_utf8_lossy(bytes).into_owned()
}

/// The text of a field's bytes: the characters they encode when they are
/// valid UTF-8, else their lenient decoding.
pub open spec fn field_text(bytes: Seq<u8>) -> Seq<char> {
    if valid_utf8(bytes) {
        decode_utf8(bytes)
    } else {
        utf8_lossy(bytes)
    }
}

/// The fields of `record` split on `delimiter`, each trimmed and decoded as
/// UTF-8 leniently.
pub open spec fn delimited_fields(record: Seq<u8>, delimiter: u8) -> Seq<Seq<char>> {
    split_on(record, delimiter).map_values(|field: Seq<u8>| field_text(trim_spec(field)))
}

/// The event for record `index` of `raw_len` bytes whose decoded fields are
/// `fields`.
pub fn fields_event(index: u64, raw_len: usize, fields: Vec<String>) -> (event: ParseEvent)
    ensures
        event@ == (EventView {
            index,
            raw_len,
            payload: PayloadView::Fields(strings_view(fields@)),
        }),
{
    ParseEvent { index, raw_len, payload: RecordPayload::Fields(fields) }
}

/// Parses single-delimiter records, trimming each field. CRLF-safe: a trailing
/// `\r` is trimmed from the final field.
pub struct Delimited {
    delimiter: u8,
}

impl Delimited {
    /// The byte that separates fields.
    pub closed spec fn delimiter_byte(&self) -> u8 {
        self.delimiter
    }

    pub fn new(delimiter: u8) -> (format: Self)
        ensures
            format.delimiter_byte() == delimiter,
    {
        Self { delimiter }
    }

    /// A comma-delimited parser.
    pub fn comma() -> (format: Self)
        ensures
            format.delimiter_byte() == 0x2Cu8,
    {
        Self { delimiter: 0x2Cu8 }
    }
}

impl Format for Delimited {
    open spec fn terminator(&self) -> u8 {
        0x0Au8
    }

    open spec fn decode(&self, record: Seq<u8>, index: u64) -> Result<EventView, CoreErrorView> {
        Ok(
            EventView {
                index,
                raw_len: record.len() as usize,
                payload: PayloadView::Fields(delimited_fields(record, self.delimiter_byte())),
            },
        )
    }

    fn record_terminator(&self) -> (t: u8) {
        0x0Au8
    }

    fn parse_record(&self, record: &[u8], index: u64) -> (r: Result<ParseEvent, CoreError>) {
        let parts = split_fields(record, self.delimiter);
        let ghost split = split_on(record@, self.delimiter);
        assert(parts@.len() == split.len()) by {
            assert(parts@.map_values(|f: &[u8]| f@).len() == parts@.len());
        }
        let mut fields: Vec<String> = Vec::new();
        let mut i: usize = 0;
        while i < parts.len()
            invariant
                i <= parts@.len() == split.len(),
                split == split_on(record@, self.delimiter),
                parts@.map_values(|f: &[u8]| f@) == split,
                strings_view(fields@) == delimited_fields(record@, self.delimiter).take(i as int),
            decreases parts@.len() - i,
        {
            let text = lossy_string(trim(parts[i]));
            let ghost before = fields@;
            fields.push(text);
            proof {
                assert(parts@[i as int]@ == parts@.map_values(|f: &[u8]| f@)[i as int]);
                assert(strings_view(fields@) =~= strings_view(before).push(text@));
                assert(delimited_fields(record@, self.delimiter).take(i + 1) =~= delimited_fields(
                    record@,
                    self.delimiter,
                ).take(i as int).push(text@));
            }
            i += 1;
        }
        proof {
            assert(delimited_fields(record@, self.delimiter).take(i as int) =~= delimited_fields(
                record@,
                self.delimiter,
            ));
        }
        Ok(fields_event(index, record.len(), fields))
    }
}

/// Each event carries the index the record was decoded at.
pub proof fn lemma_delimited_numbers_records(format: Delimited)
    ensures
        numbers_records(format),
{
}

/// A record holding `k` delimiters decodes, at any index, into an event of
/// that index and the record's length with `k + 1` fields: field `j` is the
/// `j`-th piece between delimiters, trimmed, and when that piece is valid
/// UTF-8 it is exactly the characters the piece encodes.
pub proof fn lemma_delimited_decodes_every_piece(format: Delimited, record: Seq<u8>, index: u64)
    ensures
        ({
            let d = format.delimiter_byte();
            let pieces = split_on(record, d);
            let r = format.decode(record, index);
            &&& r is Ok
            &&& r->Ok_0.index == index
            &&& r->Ok_0.raw_len == record.len() as usize
            &&& r->Ok_0.payload matches PayloadView::Fields(fields) && fields.len() == count_byte(
                record,
                d,
            ) + 1 && forall|j: int|
                0 <= j < fields.len() && valid_utf8(trim_spec(#[trigger] pieces[j])) ==> fields[j]
                    == decode_utf8(trim_spec(pieces[j]))
        }),
{
    lemma_split_count(record, format.delimiter_byte());
}

} // verus!
