use streamparse::error::CoreErrorView;
use streamparse::event::EventView;
use streamparse::{CoreError, Format, ParseEvent, RecordPayload, StreamParser};

/// A trivial test format: each line becomes a single-field record.
struct LineFormat;

impl Format for LineFormat {
    fn terminator(&self) -> u8 {
        unreachable!()
    }

    fn decode(&self, _: vstd::seq::Seq<u8>, _: u64) -> Result<EventView, CoreErrorView> {
        unreachable!()
    }

    fn record_terminator(&self) -> u8 {
        b'\n'
    }

    fn parse_record(&self, record: &[u8], index: u64) -> Result<ParseEvent, CoreError> {
        let text = String::from_utf8_lossy(record).into_owned();
        Ok(ParseEvent {
            index,
            raw_len: record.len(),
            payload: RecordPayload::Fields(vec![text]),
        })
    }
}

/// Rejects any record that starts with `!`.
struct PickyFormat;

impl Format for PickyFormat {
    fn terminator(&self) -> u8 {
        unreachable!()
    }

    fn decode(&self, _: vstd::seq::Seq<u8>, _: u64) -> Result<EventView, CoreErrorView> {
        unreachable!()
    }

    fn record_terminator(&self) -> u8 {
        b';'
    }

    fn parse_record(&self, record: &[u8], index: u64) -> Result<ParseEvent, CoreError> {
        if record.first() == Some(&b'!') {
            return Err(CoreError::InvalidRecord {
                index,
                message: "bang".to_string(),
            });
        }
        Ok(ParseEvent {
            index,
            raw_len: record.len(),
            payload: RecordPayload::Json(String::from_utf8_lossy(record).into_owned()),
        })
    }
}

fn line_text(event: &ParseEvent) -> String {
    match &event.payload {
        RecordPayload::Fields(fields) => fields.join(""),
        RecordPayload::Json(text) => text.clone(),
    }
}

#[test]
fn parses_two_lines_in_one_feed() {
    let mut parser = StreamParser::new(LineFormat);
    let events = parser.feed(b"hello\nworld\n").unwrap();
    assert_eq!(events.len(), 2);
    assert_eq!(events[0].index, 0);
    assert_eq!(line_text(&events[0]), "hello");
    assert_eq!(line_text(&events[1]), "world");
}

#[test]
fn handles_record_split_across_feeds() {
    let mut parser = StreamParser::new(LineFormat);
    assert!(parser.feed(b"hel").unwrap().is_empty());
    let events = parser.feed(b"lo\n").unwrap();
    assert_eq!(events.len(), 1);
    assert_eq!(line_text(&events[0]), "hello");
}

#[test]
fn skips_blank_lines_without_consuming_index() {
    let mut parser = StreamParser::new(LineFormat);
    let events = parser.feed(b"a\n\nb\n").unwrap();
    assert_eq!(events.len(), 2);
    assert_eq!(events[1].index, 1);
}

#[test]
fn finish_emits_unterminated_record() {
    let mut parser = StreamParser::new(LineFormat);
    let first = parser.feed(b"x\ny").unwrap();
    assert_eq!(first.len(), 1);
    let last = parser.finish().unwrap();
    assert_eq!(last.len(), 1);
    assert_eq!(line_text(&last[0]), "y");
}

#[test]
fn finish_ignores_whitespace_remainder() {
    let mut parser = StreamParser::new(LineFormat);
    let _ = parser.feed(b"a\n  ").unwrap();
    assert!(parser.finish().unwrap().is_empty());
}

#[test]
fn enforces_max_record_size() {
    let mut parser = StreamParser::with_max_record_size(LineFormat, 4);
    let result = parser.feed(b"abcdef"); // 6 bytes, no terminator
    assert!(matches!(result, Err(CoreError::RecordTooLarge { .. })));
}

#[test]
fn reports_records_emitted() {
    let mut parser = StreamParser::new(LineFormat);
    parser.feed(b"a\nb\n").unwrap();
    assert_eq!(parser.records_emitted(), 2);
}

#[test]
fn record_too_large_reports_sizes_and_keeps_earlier_records_consumed() {
    let mut parser = StreamParser::with_max_record_size(LineFormat, 4);
    match parser.feed(b"ok\nabcdef") {
        Err(CoreError::RecordTooLarge { got, max }) => {
            assert_eq!(got, 6);
            assert_eq!(max, 4);
        }
        other => panic!("unexpected {:?}", other),
    }
    // The complete record was consumed and numbered even though the feed failed.
    assert_eq!(parser.records_emitted(), 1);
    // Once terminated, the over-long record is refused and removed.
    match parser.feed(b"\nxy\n") {
        Err(CoreError::RecordTooLarge { got, max }) => {
            assert_eq!(got, 6);
            assert_eq!(max, 4);
        }
        other => panic!("unexpected {:?}", other),
    }
    assert_eq!(parser.records_emitted(), 1);
    let events = parser.feed(b"").unwrap();
    assert_eq!(events.len(), 1);
    assert_eq!(events[0].index, 1);
    assert_eq!(line_text(&events[0]), "xy");
}

#[test]
fn complete_record_over_the_limit_is_refused() {
    let mut parser = StreamParser::with_max_record_size(LineFormat, 4);
    match parser.feed(b"abcdefgh\nxy") {
        Err(CoreError::RecordTooLarge { got, max }) => {
            assert_eq!(got, 8);
            assert_eq!(max, 4);
        }
        other => panic!("unexpected {:?}", other),
    }
    assert_eq!(parser.records_emitted(), 0);
    let last = parser.finish().unwrap();
    assert_eq!(last.len(), 1);
    assert_eq!(last[0].index, 0);
    assert_eq!(line_text(&last[0]), "xy");
}

#[test]
fn over_long_blank_line_is_refused_too() {
    let mut parser = StreamParser::with_max_record_size(LineFormat, 2);
    assert!(matches!(
        parser.feed(b"     \n"),
        Err(CoreError::RecordTooLarge { got: 5, max: 2 })
    ));
    assert!(parser.feed(b"  \nab\n").unwrap().len() == 1);
}

#[test]
fn several_feeds_equal_one_feed_of_their_concatenation() {
    let chunks: [&[u8]; 4] = [b"a\nb", b"", b"\n\nc", b"d\ne"];
    let mut split = StreamParser::new(LineFormat);
    let mut events = Vec::new();
    for chunk in chunks {
        events.extend(split.feed(chunk).unwrap());
    }
    let mut whole = StreamParser::new(LineFormat);
    let all = whole.feed(&chunks.concat()).unwrap();
    assert_eq!(events, all);
    assert_eq!(split.records_emitted(), whole.records_emitted());
    assert_eq!(split.finish().unwrap(), whole.finish().unwrap());
}

#[test]
fn remainder_at_the_limit_is_accepted() {
    let mut parser = StreamParser::with_max_record_size(LineFormat, 4);
    assert!(parser.feed(b"abcd").unwrap().is_empty());
    let events = parser.feed(b"\n").unwrap();
    assert_eq!(events[0].raw_len, 4);
}

#[test]
fn decoding_error_stops_the_feed_after_removing_the_record() {
    let mut parser = StreamParser::new(PickyFormat);
    match parser.feed(b"a;!b;c;") {
        Err(CoreError::InvalidRecord { index, message }) => {
            assert_eq!(index, 1);
            assert_eq!(message, "bang");
        }
        other => panic!("unexpected {:?}", other),
    }
    assert_eq!(parser.records_emitted(), 1);
    let events = parser.feed(b"").unwrap();
    assert_eq!(events.len(), 1);
    assert_eq!(events[0].index, 1);
    assert_eq!(line_text(&events[0]), "c");
}

#[test]
fn finish_reports_a_bad_last_record() {
    let mut parser = StreamParser::new(PickyFormat);
    assert!(parser.feed(b"!x ").unwrap().is_empty());
    assert!(matches!(parser.finish(), Err(CoreError::InvalidRecord { index: 0, .. })));
    assert!(parser.finish().unwrap().is_empty());
}

#[test]
fn finish_twice_emits_nothing_more() {
    let mut parser = StreamParser::new(LineFormat);
    parser.feed(b"a\nb").unwrap();
    assert_eq!(parser.finish().unwrap().len(), 1);
    assert!(parser.finish().unwrap().is_empty());
    assert_eq!(parser.records_emitted(), 2);
}

#[test]
fn raw_len_excludes_the_terminator() {
    let mut parser = StreamParser::new(LineFormat);
    let events = parser.feed(b" ab \r\n").unwrap();
    assert_eq!(events[0].raw_len, 5);
}

#[test]
fn any_chunking_gives_the_same_events() {
    let input: &[u8] = b"one\n\n two\nthree\n  \nfour";
    let mut whole = StreamParser::new(LineFormat);
    let mut expected = whole.feed(input).unwrap();
    expected.extend(whole.finish().unwrap());
    assert_eq!(expected.len(), 4);
    for size in 1..input.len() {
        let mut parser = StreamParser::new(LineFormat);
        let mut events = Vec::new();
        for chunk in input.chunks(size) {
            events.extend(parser.feed(chunk).unwrap());
        }
        events.extend(parser.finish().unwrap());
        assert_eq!(events, expected);
    }
    let indices: Vec<u64> = expected.iter().map(|e| e.index).collect();
    assert_eq!(indices, vec![0, 1, 2, 3]);
}

#[test]
fn successful_feed_leaves_no_terminator_buffered() {
    let mut parser = StreamParser::with_max_record_size(LineFormat, 3);
    let events = parser.feed(b"a\nb\nc\nxyz").unwrap();
    assert_eq!(events.len(), 3);
    assert_eq!(parser.records_emitted(), 3);
    let rest = parser.finish().unwrap();
    assert_eq!(line_text(&rest[0]), "xyz");
    assert_eq!(rest[0].index, 3);
}
