//! A push-based, incremental parser for record-structured byte streams.
//!
//! Bytes are fed in arbitrary chunks; every record completed by a chunk is
//! decoded by a pluggable [`Format`] into a [`ParseEvent`]. Peak memory is
//! bounded by the largest single record, never by the total input.

pub mod buffer;
pub mod cli;
pub mod delimited;
pub mod error;
pub mod event;
pub mod format;
pub mod ndjson;
pub mod parser;
pub mod tokenizer;

pub use buffer::{StreamBuffer, DEFAULT_MAX_RECORD_SIZE};
pub use delimited::Delimited;
pub use error::CoreError;
pub use event::{ParseEvent, RecordPayload};
pub use format::Format;
pub use ndjson::Ndjson;
pub use parser::StreamParser;
