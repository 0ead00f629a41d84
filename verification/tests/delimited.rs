use streamparse::{Delimited, Format, RecordPayload, StreamParser};

#[test]
fn splits_fields_on_delimiter() {
    let mut parser = StreamParser::new(Delimited::comma());
    let events = parser.feed(b"a,b,c\n").unwrap();
    assert_eq!(events.len(), 1);
    match &events[0].payload {
        RecordPayload::Fields(fields) => {
            assert_eq!(fields, &vec!["a".to_string(), "b".to_string(), "c".to_string()]);
        }
        RecordPayload::Json(_) => panic!("expected fields payload"),
    }
}

#[test]
fn trims_fields_and_handles_crlf() {
    let mut parser = StreamParser::new(Delimited::comma());
    let events = parser.feed(b" a , b \r\n").unwrap();
    match &events[0].payload {
        RecordPayload::Fields(fields) => {
            assert_eq!(fields, &vec!["a".to_string(), "b".to_string()]);
        }
        RecordPayload::Json(_) => panic!("expected fields payload"),
    }
}

#[test]
fn custom_delimiter_and_empty_fields() {
    let format = Delimited::new(b'\t');
    assert_eq!(format.record_terminator(), b'\n');
    let event = format.parse_record(b"x\t\t y ", 7).unwrap();
    assert_eq!(event.index, 7);
    assert_eq!(event.raw_len, 6);
    assert_eq!(
        event.payload,
        RecordPayload::Fields(vec!["x".to_string(), String::new(), "y".to_string()])
    );
}

#[test]
fn invalid_utf8_is_replaced_not_rejected() {
    let format = Delimited::comma();
    let event = format.parse_record(b"ok,\xff", 0).unwrap();
    assert_eq!(
        event.payload,
        RecordPayload::Fields(vec!["ok".to_string(), "\u{FFFD}".to_string()])
    );
}

#[test]
fn utf8_fields_are_kept() {
    let format = Delimited::comma();
    let event = format.parse_record("caf\u{e9}, \u{3bb} ".as_bytes(), 0).unwrap();
    assert_eq!(
        event.payload,
        RecordPayload::Fields(vec!["caf\u{e9}".to_string(), "\u{3bb}".to_string()])
    );
}
