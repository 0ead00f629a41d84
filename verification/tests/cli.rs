use streamparse::cli::{emit, print_event, stats_report, Cli, Command, FormatKind};
use streamparse::{ParseEvent, RecordPayload};

fn json_event(index: u64, raw_len: usize, text: &str) -> ParseEvent {
    ParseEvent {
        index,
        raw_len,
        payload: RecordPayload::Json(text.to_string()),
    }
}

#[test]
fn print_event_formats_json_and_fields() {
    assert_eq!(print_event(&json_event(0, 7, "{\"a\":1}")), "[0] json {\"a\":1}");
    let fields = ParseEvent {
        index: 1234567890,
        raw_len: 5,
        payload: RecordPayload::Fields(vec!["a".to_string(), "b".to_string(), "c".to_string()]),
    };
    assert_eq!(print_event(&fields), "[1234567890] fields a | b | c");
    let single = ParseEvent {
        index: 10,
        raw_len: 0,
        payload: RecordPayload::Fields(vec![String::new()]),
    };
    assert_eq!(print_event(&single), "[10] fields ");
    let none = ParseEvent {
        index: u64::MAX,
        raw_len: 0,
        payload: RecordPayload::Fields(vec![]),
    };
    assert_eq!(print_event(&none), "[18446744073709551615] fields ");
}

#[test]
fn emit_counts_and_renders() {
    let events = vec![json_event(0, 3, "1"), json_event(1, 10, "[2]")];
    let mut count = 5u64;
    let mut bytes = 100u64;
    let lines = emit(&events, false, &mut count, &mut bytes);
    assert_eq!(count, 7);
    assert_eq!(bytes, 113);
    assert_eq!(lines, vec!["[0] json 1".to_string(), "[1] json [2]".to_string()]);
}

#[test]
fn emit_stats_only_prints_nothing() {
    let events = vec![json_event(0, 3, "1")];
    let mut count = 0u64;
    let mut bytes = 0u64;
    let lines = emit(&events, true, &mut count, &mut bytes);
    assert!(lines.is_empty());
    assert_eq!((count, bytes), (1, 3));
}

#[test]
fn stats_report_lines() {
    assert_eq!(
        stats_report(3, 0),
        vec!["records: 3".to_string(), "record bytes: 0".to_string()]
    );
}

#[test]
fn command_types_hold_their_arguments() {
    let cli = Cli {
        command: Command::Stats {
            format: FormatKind::Delimited,
            input: "-".to_string(),
        },
    };
    match cli.command {
        Command::Stats { format, input } => {
            assert_eq!(format, FormatKind::Delimited);
            assert_eq!(input, "-");
        }
        Command::Parse { .. } => panic!("expected stats"),
    }
}
