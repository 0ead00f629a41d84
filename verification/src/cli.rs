//! The command line's arguments, and the text it prints for a stream of events.

use crate::event::{events_view, EventView, ParseEvent, PayloadView, RecordPayload};
use vstd::prelude::*;

verus! {

/// A streaming, incremental data parser.
#[derive(Debug)]
pub struct Cli {
    pub command: Command,
}

#[derive(Debug)]
pub enum Command {
    /// Stream-parse input and print one line per record.
    Parse {
        format: FormatKind,
        /// Input path, or "-" for stdin.
        input: String,
    },
    /// Stream-parse input and print aggregate statistics only.
    Stats {
        format: FormatKind,
        /// Input path, or "-" for stdin.
        input: String,
    },
}

/// The supported input formats.
#[derive(Clone, Copy, Debug, PartialEq, Eq)]
pub enum FormatKind {
    Ndjson,
    Delimited,
}

/// The character of decimal digit `d`.
pub open spec fn digit_char(d: nat) -> char {
    (48 + d) as char
}

/// The decimal notation of `n`, without leading zeros.
pub open spec fn decimal(n: nat) -> Seq<char>
    decreases n,
{
    if n < 10 {
        seq![digit_char(n)]
    } else {
        decimal(n / 10) + seq![digit_char(n % 10)]
    }
}

/// The texts joined, `sep` between each two.
pub open spec fn joined(texts: Seq<Seq<char>>, sep: Seq<char>) -> Seq<char>
    decreases texts.len(),
{
    if texts.len() == 0 {
        Seq::empty()
    } else if texts.len() == 1 {
        texts[0]
    } else {
        joined(texts.drop_last(), sep) + sep + texts.last()
    }
}

/// The line printed for an event: `[index] json text` or
/// `[index] fields a | b | c`.
pub open spec fn event_line(e: EventView) -> Seq<char> {
    seq!['['] + decimal(e.index as nat) + match e.payload {
        PayloadView::Json(text) => seq![']', ' ', 'j', 's', 'o', 'n', ' '] + text,
        PayloadView::Fields(fields) => seq![']', ' ', 'f', 'i', 'e', 'l', 'd', 's', ' '] + joined(
            fields,
            seq![' ', '|', ' '],
        ),
    }
}

/// The sum of the raw lengths of the events.
pub open spec fn total_raw_len(events: Seq<EventView>) -> nat
    decreases events.len(),
{
    if events.len() == 0 {
        0
    } else {
        total_raw_len(events.drop_last()) + events.last().raw_len as nat
    }
}

/// The characters of each line.
pub open spec fn lines_view(lines: Seq<String>) -> Seq<Seq<char>> {
    lines.map_values(|l: String| l@)
}

fn digit_str(d: u64) -> (s: &'static str)
    requires
        d < 10,
    ensures
        s@ == seq![digit_char(d as nat)],
{
    proof {
        reveal_strlit("0");
        reveal_strlit("1");
        reveal_strlit("2");
        reveal_strlit("3");
        reveal_strlit("4");
        reveal_strlit("5");
        reveal_strlit("6");
        reveal_strlit("7");
        reveal_strlit("8");
        reveal_strlit("9");
    }
    let s = if d == 0 {
        "0"
    } else if d == 1 {
        "1"
    } else if d == 2 {
        "2"
    } else if d == 3 {
        "3"
    } else if d == 4 {
        "4"
    } else if d == 5 {
        "5"
    } else if d == 6 {
        "6"
    } else if d == 7 {
        "7"
    } else if d == 8 {
        "8"
    } else {
        "9"
    };
    assert(s@ =~= seq![digit_char(d as nat)]);
    s
}

fn decimal_string(n: u64) -> (s: String)
    ensures
        s@ == decimal(n as nat),
    decreases n,
{
    if n < 10 {
        String::from_str(digit_str(n))
    } else {
        let mut s = decimal_string(n / 10);
        s.append(digit_str(n % 10));
        s
    }
}

/// The line printed for `event`, without its line break.
pub fn print_event(event: &ParseEvent) -> (line: String)
    ensures
        line@ == event_line(event@),
{
    proof {
        reveal_strlit("[");
        reveal_strlit("] json ");
        reveal_strlit("] fields ");
        reveal_strlit(" | ");
    }
    let mut line = String::from_str("[");
    line.append(decimal_string(event.index).as_str());
    match &event.payload {
        RecordPayload::Json(text) => {
            line.append("] json ");
            line.append(text.as_str());
            assert(line@ =~= event_line(event@));
        },
        RecordPayload::Fields(fields) => {
            line.append("] fields ");
            let ghost head = line@;
            let ghost texts = fields@.map_values(|s: String| s@);
            let mut i: usize = 0;
            while i < fields.len()
                invariant
                    i <= fields@.len(),
                    texts == fields@.map_values(|s: String| s@),
                    line@ == head + joined(texts.take(i as int), seq![' ', '|', ' ']),
                decreases fields@.len() - i,
            {
                let ghost prev = line@;
                if i > 0 {
                    proof {
                        reveal_strlit(" | ");
                    }
                    line.append(" | ");
                    assert(line@ =~= prev + seq![' ', '|', ' ']);
                }
                line.append(fields[i].as_str());
                proof {
                    let t = texts.take(i + 1);
                    assert(t.drop_last() =~= texts.take(i as int));
                    assert(t.last() == fields@[i as int]@);
                    if i == 0 {
                        assert(texts.take(0) =~= Seq::<Seq<char>>::empty());
                        assert(line@ =~= prev + t.last());
                    } else {
                        assert(line@ =~= prev + seq![' ', '|', ' '] + t.last());
                    }
                    assert(line@ =~= head + joined(t, seq![' ', '|', ' ']));
                }
                i += 1;
            }
            proof {
                assert(texts.take(i as int) =~= texts);
                assert(line@ =~= event_line(event@));
            }
        },
    }
    line
}

/// Counts `events` into `count` and their raw bytes into `bytes`, and gives
/// the lines to print for them: one per event, or none for statistics only.
pub fn emit(events: &[ParseEvent], stats_only: bool, count: &mut u64, bytes: &mut u64) -> (lines:
    Vec<String>)
    requires
        *old(count) + events@.len() <= u64::MAX,
        *old(bytes) + total_raw_len(events_view(events@)) <= u64::MAX,
    ensures
        *final(count) == *old(count) + events@.len(),
        *final(bytes) == *old(bytes) + total_raw_len(events_view(events@)),
        stats_only ==> lines@.len() == 0,
        !stats_only ==> lines_view(lines@) == events_view(events@).map_values(
            |e: EventView| event_line(e),
        ),
{
    let mut lines: Vec<String> = Vec::new();
    let ghost evs = events_view(events@);
    let mut i: usize = 0;
    while i < events.len()
        invariant
            i <= events@.len(),
            evs == events_view(events@),
            *old(count) + events@.len() <= u64::MAX,
            *old(bytes) + total_raw_len(evs) <= u64::MAX,
            *count == *old(count) + i,
            *bytes == *old(bytes) + total_raw_len(evs.take(i as int)),
            stats_only ==> lines@.len() == 0,
            !stats_only ==> lines_view(lines@) == evs.take(i as int).map_values(
                |e: EventView| event_line(e),
            ),
        decreases events@.len() - i,
    {
        let event = &events[i];
        proof {
            let t = evs.take(i + 1);
            assert(t.drop_last() =~= evs.take(i as int));
            assert(t.last() == event@);
            lemma_total_raw_len_prefix(evs, i + 1);
        }
        *count = *count + 1;
        *bytes = *bytes + event.raw_len as u64;
        if !stats_only {
            let line = print_event(event);
            let ghost before = lines@;
            lines.push(line);
            proof {
                assert(lines_view(lines@) =~= lines_view(before).push(line@));
                assert(evs.take(i + 1).map_values(|e: EventView| event_line(e)) =~= evs.take(
                    i as int,
                ).map_values(|e: EventView| event_line(e)).push(event_line(event@)));
            }
        }
        i += 1;
    }
    proof {
        assert(evs.take(i as int) =~= evs);
    }
    lines
}

proof fn lemma_total_raw_len_prefix(events: Seq<EventView>, n: int)
    requires
        0 <= n <= events.len(),
    ensures
        total_raw_len(events.take(n)) <= total_raw_len(events),
    decreases events.len(),
{
    if n < events.len() {
        assert(events.drop_last().take(n) =~= events.take(n));
        lemma_total_raw_len_prefix(events.drop_last(), n);
    } else {
        assert(events.take(n) =~= events);
    }
}

/// The two lines printed by the statistics command.
pub fn stats_report(count: u64, bytes: u64) -> (lines: Vec<String>)
    ensures
        lines_view(lines@) == seq![
            seq!['r', 'e', 'c', 'o', 'r', 'd', 's', ':', ' '] + decimal(count as nat),
            seq!['r', 'e', 'c', 'o', 'r', 'd', ' ', 'b', 'y', 't', 'e', 's', ':', ' '] + decimal(
                bytes as nat,
            ),
        ],
{
    proof {
        reveal_strlit("records: ");
        reveal_strlit("record bytes: ");
    }
    let mut first = String::from_str("records: ");
    assert(first@ =~= seq!['r', 'e', 'c', 'o', 'r', 'd', 's', ':', ' ']);
    first.append(decimal_string(count).as_str());
    let mut second = String::from_str("record bytes: ");
    assert(second@ =~= seq!['r', 'e', 'c', 'o', 'r', 'd', ' ', 'b', 'y', 't', 'e', 's', ':', ' ']);
    second.append(decimal_string(bytes).as_str());
    let mut lines: Vec<String> = Vec::new();
    lines.push(first);
    lines.push(second);
    assert(lines_view(lines@) =~= seq![first@, second@]);
    lines
}

/// The number a string of decimal digits denotes.
pub open spec fn numeral_value(digits: Seq<char>) -> int
    decreases digits.len(),
{
    if digits.len() == 0 {
        0
    } else {
        numeral_value(digits.drop_last()) * 10 + (digits.last() as int - 48)
    }
}

/// `decimal(n)` is the base-10 notation of `n`: one or more digits `0`-`9`
/// that denote `n`, with no leading zero.
pub proof fn lemma_decimal_notation(n: nat)
    ensures
        decimal(n).len() >= 1,
        decimal(n).len() == 1 <==> n < 10,
        forall|k: int|
            0 <= k < decimal(n).len() ==> 48 <= (#[trigger] decimal(n)[k]) as int <= 57,
        numeral_value(decimal(n)) == n,
        decimal(n).len() > 1 ==> decimal(n)[0] != '0',
    decreases n,
{
    if n < 10 {
        assert(decimal(n).drop_last() =~= Seq::<char>::empty());
        assert(digit_char(n) as int == 48 + n);
        assert(numeral_value(Seq::<char>::empty()) == 0);
        assert(numeral_value(decimal(n)) == numeral_value(decimal(n).drop_last()) * 10 + (
        decimal(n).last() as int - 48));
    } else {
        let m = n / 10;
        lemma_decimal_notation(m);
        let s = decimal(n);
        assert(s.drop_last() =~= decimal(m));
        assert(n == m * 10 + n % 10) by (nonlinear_arith)
            requires
                m == n / 10,
        ;
        assert(s.last() == digit_char(n % 10));
        assert(digit_char(n % 10) as int == 48 + n % 10);
        assert(numeral_value(s) == numeral_value(decimal(m)) * 10 + (n % 10));
        assert(s[0] == decimal(m)[0]);
        assert forall|k: int| 0 <= k < s.len() implies 48 <= (#[trigger] s[k]) as int <= 57 by {
            if k < s.len() - 1 {
                assert(s[k] == decimal(m)[k]);
            }
        }
    }
}

/// The raw length of one more event adds its raw length, whatever its
/// payload.
pub proof fn lemma_total_raw_len_push(events: Seq<EventView>, e: EventView)
    ensures
        total_raw_len(events.push(e)) == total_raw_len(events) + e.raw_len,
{
    assert(events.push(e).drop_last() =~= events);
}

/// The raw length of two runs of events is the sum of theirs.
pub proof fn lemma_total_raw_len_concat(a: Seq<EventView>, b: Seq<EventView>)
    ensures
        total_raw_len(a + b) == total_raw_len(a) + total_raw_len(b),
    decreases b.len(),
{
    if b.len() == 0 {
        assert(a + b =~= a);
    } else {
        assert((a + b).drop_last() =~= a + b.drop_last());
        lemma_total_raw_len_concat(a, b.drop_last());
    }
}

} // verus!
