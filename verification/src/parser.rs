//! The push-based incremental parser.

use crate::buffer::{StreamBuffer, DEFAULT_MAX_RECORD_SIZE};
use crate::error::{CoreError, CoreErrorView};
use crate::event::{events_result_view, events_view, event_result_view, EventView, ParseEvent};
use crate::format::Format;
use crate::tokenizer::{
    find_byte, first_of, is_first, lemma_first_of, lemma_first_of_is, lemma_trim_keeps_and_empties,
    no_byte, trim, trim_spec,
};
use vstd::prelude::*;

verus! {

/// What draining the complete records out of a buffer gives: the events
/// decoded in order, the bytes left buffered, the next record index, and the
/// error that stopped the draining, if any.
pub struct Drained {
    pub events: Seq<EventView>,
    pub rest: Seq<u8>,
    pub next: int,
    pub error: Option<CoreErrorView>,
}

/// Takes the records of `buf` one terminator at a time: a record longer than
/// `max` bytes is refused; a record that is blank after trimming is dropped
/// without using an index; any other is decoded as record `next`. A refused
/// record or a decoding error stops the draining, with that record already
/// removed.
pub open spec fn drain<F: Format>(f: F, max: usize, buf: Seq<u8>, next: int) -> Drained
    decreases buf.len(),
{
    match first_of(buf, f.terminator()) {
        None => Drained { events: Seq::empty(), rest: buf, next, error: None },
        Some(end) => {
            proof {
                lemma_first_of(buf, f.terminator());
            }
            let record = buf.take(end);
            let rest = buf.skip(end + 1);
            if record.len() > max {
                Drained {
                    events: Seq::empty(),
                    rest,
                    next,
                    error: Some(CoreErrorView::RecordTooLarge { got: record.len() as usize, max }),
                }
            } else if trim_spec(record).len() == 0 {
                drain(f, max, rest, next)
            } else {
                match f.decode(record, next as u64) {
                    Err(e) => Drained { events: Seq::empty(), rest, next, error: Some(e) },
                    Ok(ev) => {
                        let d = drain(f, max, rest, next + 1);
                        Drained {
                            events: seq![ev] + d.events,
                            rest: d.rest,
                            next: d.next,
                            error: d.error,
                        }
                    },
                }
            }
        },
    }
}

/// The outcome of one call on the parser: what it returns, and the buffered
/// bytes and next record index it leaves.
pub struct Step {
    pub result: Result<Seq<EventView>, CoreErrorView>,
    pub buffered: Seq<u8>,
    pub next: int,
}

/// Draining `buf`, then refusing a remainder longer than `max` bytes.
pub open spec fn feed_step<F: Format>(f: F, max: usize, buf: Seq<u8>, next: int) -> Step {
    let d = drain(f, max, buf, next);
    match d.error {
        Some(e) => Step { result: Err(e), buffered: d.rest, next: d.next },
        None => if d.rest.len() > max {
            Step {
                result: Err(
                    CoreErrorView::RecordTooLarge { got: d.rest.len() as usize, max },
                ),
                buffered: d.rest,
                next: d.next,
            }
        } else {
            Step { result: Ok(d.events), buffered: d.rest, next: d.next }
        },
    }
}

/// A successful `feed_step`, then the remainder taken as a last record unless
/// it is blank after trimming.
pub open spec fn finish_step<F: Format>(f: F, max: usize, buf: Seq<u8>, next: int) -> Step {
    let s = feed_step(f, max, buf, next);
    match s.result {
        Err(_) => s,
        Ok(events) => if trim_spec(s.buffered).len() == 0 {
            Step { result: Ok(events), buffered: Seq::empty(), next: s.next }
        } else {
            match f.decode(s.buffered, s.next as u64) {
                Err(e) => Step { result: Err(e), buffered: Seq::empty(), next: s.next },
                Ok(ev) => Step {
                    result: Ok(events.push(ev)),
                    buffered: Seq::empty(),
                    next: s.next + 1,
                },
            }
        },
    }
}

/// Drives a `Format` over a byte stream incrementally. Feed bytes in arbitrary
/// chunks; receive events as records complete. Peak memory is bounded by the
/// largest single record.
pub struct StreamParser<F: Format> {
    format: F,
    buffer: StreamBuffer,
    next_index: u64,
}

impl<F: Format> StreamParser<F> {
    /// The format the parser drives.
    pub closed spec fn format(&self) -> F {
        self.format
    }

    /// The bytes of the current partial record.
    pub closed spec fn buffered(&self) -> Seq<u8> {
        self.buffer@
    }

    /// The index the next emitted record gets.
    pub closed spec fn next_index(&self) -> u64 {
        self.next_index
    }

    /// The largest number of bytes that may stay buffered after a feed.
    pub closed spec fn limit(&self) -> usize {
        self.buffer.limit()
    }

    pub fn new(format: F) -> (parser: Self)
        ensures
            parser.format() == format,
            parser.buffered() == Seq::<u8>::empty(),
            parser.next_index() == 0,
            parser.limit() == DEFAULT_MAX_RECORD_SIZE,
    {
        Self::with_max_record_size(format, DEFAULT_MAX_RECORD_SIZE)
    }

    pub fn with_max_record_size(format: F, max_record_size: usize) -> (parser: Self)
        ensures
            parser.format() == format,
            parser.buffered() == Seq::<u8>::empty(),
            parser.next_index() == 0,
            parser.limit() == max_record_size,
    {
        Self { format, buffer: StreamBuffer::new(max_record_size), next_index: 0 }
    }

    /// Total records emitted so far.
    pub fn records_emitted(&self) -> (n: u64)
        ensures
            n == self.next_index(),
    {
        self.next_index
    }

    /// Feeds a chunk of input, returning every record completed by it.
    pub fn feed(&mut self, chunk: &[u8]) -> (r: Result<Vec<ParseEvent>, CoreError>)
        requires
            old(self).next_index() + old(self).buffered().len() + chunk@.len() <= u64::MAX,
        ensures
            ({
                let s = feed_step(
                    old(self).format(),
                    old(self).limit(),
                    old(self).buffered() + chunk@,
                    old(self).next_index() as int,
                );
                &&& events_result_view(r) == s.result
                &&& final(self).buffered() == s.buffered
                &&& final(self).next_index() == s.next
            }),
            final(self).format() == old(self).format(),
            final(self).limit() == old(self).limit(),
            r is Ok ==> final(self).buffered().len() <= final(self).limit(),
            r is Ok ==> no_byte(final(self).buffered(), final(self).format().terminator()),
            r matches Ok(events) ==> final(self).next_index() == old(self).next_index()
                + events.len(),
            final(self).next_index() + final(self).buffered().len() <= old(self).next_index()
                + old(self).buffered().len() + chunk@.len(),
    {
        self.buffer.extend(chunk);
        let r = self.drain_complete_records();
        proof {
            let f = old(self).format();
            let max = old(self).limit();
            let buf = old(self).buffered() + chunk@;
            lemma_drain_facts(f, max, buf, old(self).next_index() as int);
            if r is Ok {
                assert(drain(f, max, buf, old(self).next_index() as int).error is None);
            }
        }
        r
    }

    /// Signals end of input, emitting any final unterminated record.
    pub fn finish(&mut self) -> (r: Result<Vec<ParseEvent>, CoreError>)
        requires
            old(self).next_index() + old(self).buffered().len() <= u64::MAX,
        ensures
            ({
                let s = finish_step(
                    old(self).format(),
                    old(self).limit(),
                    old(self).buffered(),
                    old(self).next_index() as int,
                );
                &&& events_result_view(r) == s.result
                &&& final(self).buffered() == s.buffered
                &&& final(self).next_index() == s.next
            }),
            final(self).format() == old(self).format(),
            final(self).limit() == old(self).limit(),
            r is Ok ==> final(self).buffered() == Seq::<u8>::empty(),
            r matches Ok(events) ==> final(self).next_index() == old(self).next_index()
                + events.len(),
            final(self).next_index() + final(self).buffered().len() <= old(self).next_index()
                + old(self).buffered().len(),
    {
        proof {
            let next = old(self).next_index() as int;
            lemma_drain_facts(old(self).format(), old(self).limit(), old(self).buffered(), next);
        }
        let mut events = match self.drain_complete_records() {
            Ok(events) => events,
            Err(e) => return Err(e),
        };
        let ghost drained = events@;
        if !self.buffer.is_empty() {
            let record = self.buffer.take_all();
            if !trim(record.as_slice()).is_empty() {
                let event = match self.format.parse_record(record.as_slice(), self.next_index) {
                    Ok(event) => event,
                    Err(e) => return Err(e),
                };
                self.next_index += 1;
                events.push(event);
                proof {
                    assert(events_view(events@) =~= events_view(drained).push(event@));
                }
            }
        } else {
            proof {
                assert(trim_spec(Seq::<u8>::empty()) =~= Seq::<u8>::empty());
            }
        }
        Ok(events)
    }

    fn drain_complete_records(&mut self) -> (r: Result<Vec<ParseEvent>, CoreError>)
        requires
            old(self).next_index() + old(self).buffered().len() <= u64::MAX,
        ensures
            ({
                let s = feed_step(
                    old(self).format(),
                    old(self).limit(),
                    old(self).buffered(),
                    old(self).next_index() as int,
                );
                &&& events_result_view(r) == s.result
                &&& final(self).buffered() == s.buffered
                &&& final(self).next_index() == s.next
            }),
            final(self).format() == old(self).format(),
            final(self).limit() == old(self).limit(),
    {
        let terminator = self.format.record_terminator();
        let max = self.buffer.max_record_size();
        let mut events: Vec<ParseEvent> = Vec::new();
        let ghost f = self.format;
        let ghost target = drain(f, max, self.buffer@, self.next_index as int);
        loop
            invariant
                self.format == f,
                f == old(self).format(),
                terminator == f.terminator(),
                self.buffer.limit() == old(self).limit(),
                max == old(self).limit(),
                self.next_index + self.buffer@.len() <= u64::MAX,
                target == drain(f, max, old(self).buffered(), old(self).next_index() as int),
                ({
                    let d = drain(f, max, self.buffer@, self.next_index as int);
                    &&& events_view(events@) + d.events == target.events
                    &&& d.rest == target.rest
                    &&& d.next == target.next
                    &&& d.error == target.error
                }),
            ensures
                self.format == f,
                self.buffer.limit() == old(self).limit(),
                target == drain(f, max, old(self).buffered(), old(self).next_index() as int),
                events_view(events@) == target.events,
                self.buffer@ == target.rest,
                self.next_index == target.next,
                target.error is None,
            decreases self.buffer@.len(),
        {
            let next_terminator = find_byte(self.buffer.as_slice(), terminator);
            let end = match next_terminator {
                Some(end) => end,
                None => {
                    proof {
                        let done = events_view(events@);
                        assert(done + Seq::<EventView>::empty() =~= done);
                    }
                    break;
                },
            };
            let ghost buf = self.buffer@;
            let record = self.buffer.take_record(end);
            if record.len() > max {
                return Err(CoreError::RecordTooLarge { got: record.len(), max });
            }
            if trim(record.as_slice()).is_empty() {
                continue;
            }
            let event = match self.format.parse_record(record.as_slice(), self.next_index) {
                Ok(event) => event,
                Err(e) => {
                    proof {
                        assert(events_result_view(Err::<Vec<ParseEvent>, CoreError>(e)) == Err::<
                            Seq<EventView>,
                            CoreErrorView,
                        >(e@));
                    }
                    return Err(e);
                },
            };
            let ghost before = events@;
            self.next_index += 1;
            events.push(event);
            proof {
                assert(events_view(events@) =~= events_view(before).push(event@));
                let d = drain(f, max, self.buffer@, self.next_index as int);
                assert(events_view(events@) + d.events =~= events_view(before) + (seq![event@]
                    + d.events));
            }
        }
        let buffered = self.buffer.len();
        if buffered > max {
            return Err(CoreError::RecordTooLarge { got: buffered, max });
        }
        Ok(events)
    }
}

/// Facts of `drain`: every emitted record uses one index, and when no error
/// stopped it, what stays buffered holds no terminator.
pub proof fn lemma_drain_facts<F: Format>(f: F, max: usize, buf: Seq<u8>, next: int)
    ensures
        drain(f, max, buf, next).next == next + drain(f, max, buf, next).events.len(),
        drain(f, max, buf, next).events.len() + drain(f, max, buf, next).rest.len() <= buf.len(),
        drain(f, max, buf, next).error is None ==> no_byte(drain(f, max, buf, next).rest, f.terminator()),
    decreases buf.len(),
{
    lemma_first_of(buf, f.terminator());
    match first_of(buf, f.terminator()) {
        None => {},
        Some(end) => {
            let record = buf.take(end);
            let rest = buf.skip(end + 1);
            if trim_spec(record).len() == 0 {
                lemma_drain_facts(f, max, rest, next);
            } else {
                match f.decode(record, next as u64) {
                    Err(e) => {},
                    Ok(ev) => {
                        lemma_drain_facts(f, max, rest, next + 1);
                    },
                }
            }
        },
    }
}

/// Feeding each chunk in turn and then finishing, stopping at the first
/// error: the events of all calls in order, and the state left behind.
pub open spec fn stream_chunks<F: Format>(
    f: F,
    max: usize,
    buf: Seq<u8>,
    next: int,
    chunks: Seq<Seq<u8>>,
) -> Step
    decreases chunks.len(),
{
    if chunks.len() == 0 {
        finish_step(f, max, buf, next)
    } else {
        let s = feed_step(f, max, buf + chunks[0], next);
        match s.result {
            Err(_) => s,
            Ok(first) => {
                let r = stream_chunks(f, max, s.buffered, s.next, chunks.drop_first());
                match r.result {
                    Ok(later) => Step {
                        result: Ok(first + later),
                        buffered: r.buffered,
                        next: r.next,
                    },
                    Err(_) => r,
                }
            },
        }
    }
}

/// Feeding each chunk in turn, stopping at the first error: the events of all
/// feeds in order, and the state left behind.
pub open spec fn feed_chunks<F: Format>(
    f: F,
    max: usize,
    buf: Seq<u8>,
    next: int,
    chunks: Seq<Seq<u8>>,
) -> Step
    decreases chunks.len(),
{
    if chunks.len() == 0 {
        Step { result: Ok(Seq::empty()), buffered: buf, next }
    } else {
        let s = feed_step(f, max, buf + chunks[0], next);
        match s.result {
            Err(_) => s,
            Ok(first) => {
                let r = feed_chunks(f, max, s.buffered, s.next, chunks.drop_first());
                match r.result {
                    Ok(later) => Step {
                        result: Ok(first + later),
                        buffered: r.buffered,
                        next: r.next,
                    },
                    Err(_) => r,
                }
            },
        }
    }
}

/// One or more feeds that all succeed give what one feed of the chunks joined
/// together gives: the same events in order, the same bytes left buffered and
/// the same next index.
pub proof fn lemma_feeds_concat<F: Format>(
    f: F,
    max: usize,
    buf: Seq<u8>,
    next: int,
    chunks: Seq<Seq<u8>>,
)
    requires
        chunks.len() >= 1,
        feed_chunks(f, max, buf, next, chunks).result is Ok,
    ensures
        feed_chunks(f, max, buf, next, chunks) == feed_step(
            f,
            max,
            buf + chunks.flatten(),
            next,
        ),
    decreases chunks.len(),
{
    let s = feed_step(f, max, buf + chunks[0], next);
    let rest = chunks.drop_first();
    if chunks.len() == 1 {
        assert(rest.flatten() =~= Seq::<u8>::empty());
        assert(buf + chunks.flatten() =~= buf + chunks[0]);
        assert(s.result->Ok_0 + Seq::<EventView>::empty() =~= s.result->Ok_0);
    } else {
        lemma_feeds_concat(f, max, s.buffered, s.next, rest);
        lemma_feed_twice(f, max, buf, next, chunks[0], rest.flatten());
    }
}

/// A complete record holding some byte other than ASCII whitespace is never
/// skipped: it is decoded at the next index and gives the first event, or its
/// error stops the draining; what follows it is drained as before.
pub proof fn lemma_nonblank_record_decoded<F: Format>(
    f: F,
    max: usize,
    record: Seq<u8>,
    rest: Seq<u8>,
    next: int,
)
    requires
        no_byte(record, f.terminator()),
        record.len() <= max,
        ({
            let ws = |b: u8|
                b == 0x20u8 || b == 0x09u8 || b == 0x0Au8 || b == 0x0Cu8 || b == 0x0Du8;
            exists|j: int| 0 <= j < record.len() && !ws(#[trigger] record[j])
        }),
    ensures
        drain(f, max, record.push(f.terminator()) + rest, next) == match f.decode(
            record,
            next as u64,
        ) {
            Err(e) => Drained { events: Seq::empty(), rest, next, error: Some(e) },
            Ok(ev) => {
                let d = drain(f, max, rest, next + 1);
                Drained { events: seq![ev] + d.events, rest: d.rest, next: d.next, error: d.error }
            },
        },
{
    let t = f.terminator();
    let buf = record.push(t) + rest;
    let end = record.len() as int;
    assert(buf.take(end) =~= record);
    assert(buf.skip(end + 1) =~= rest);
    assert(is_first(buf, t, end));
    lemma_first_of_is(buf, t, end);
    lemma_trim_keeps_and_empties(record);
}

/// A complete record made of ASCII whitespace only (within the size limit)
/// is dropped without an event and without using an index.
pub proof fn lemma_blank_record_skipped<F: Format>(
    f: F,
    max: usize,
    record: Seq<u8>,
    rest: Seq<u8>,
    next: int,
)
    requires
        no_byte(record, f.terminator()),
        record.len() <= max,
        ({
            let ws = |b: u8|
                b == 0x20u8 || b == 0x09u8 || b == 0x0Au8 || b == 0x0Cu8 || b == 0x0Du8;
            forall|j: int| 0 <= j < record.len() ==> ws(#[trigger] record[j])
        }),
    ensures
        drain(f, max, record.push(f.terminator()) + rest, next) == drain(f, max, rest, next),
{
    let t = f.terminator();
    let buf = record.push(t) + rest;
    let end = record.len() as int;
    assert(buf.take(end) =~= record);
    assert(buf.skip(end + 1) =~= rest);
    assert(is_first(buf, t, end));
    lemma_first_of_is(buf, t, end);
    lemma_trim_keeps_and_empties(record);
}

/// At the end of input, an unterminated remainder within the size limit that
/// holds some byte other than ASCII whitespace is decoded as the last record.
pub proof fn lemma_finish_decodes_nonblank_remainder<F: Format>(
    f: F,
    max: usize,
    buf: Seq<u8>,
    next: int,
)
    requires
        no_byte(buf, f.terminator()),
        buf.len() <= max,
        ({
            let ws = |b: u8|
                b == 0x20u8 || b == 0x09u8 || b == 0x0Au8 || b == 0x0Cu8 || b == 0x0Du8;
            exists|j: int| 0 <= j < buf.len() && !ws(#[trigger] buf[j])
        }),
    ensures
        finish_step(f, max, buf, next) == match f.decode(buf, next as u64) {
            Err(e) => Step { result: Err(e), buffered: Seq::empty(), next },
            Ok(ev) => Step { result: Ok(seq![ev]), buffered: Seq::empty(), next: next + 1 },
        },
{
    lemma_first_of(buf, f.terminator());
    lemma_trim_keeps_and_empties(buf);
    assert(Seq::<EventView>::empty().push(f.decode(buf, next as u64)->Ok_0) =~= seq![
        f.decode(buf, next as u64)->Ok_0,
    ]);
}

/// Draining a buffer that grew at its end: when draining `buf` stopped on no
/// error, draining `buf + more` gives the same events, then those of what
/// stayed buffered followed by `more`.
pub proof fn lemma_drain_append<F: Format>(
    f: F,
    max: usize,
    buf: Seq<u8>,
    more: Seq<u8>,
    next: int,
)
    requires
        drain(f, max, buf, next).error is None,
    ensures
        ({
            let d = drain(f, max, buf, next);
            let d2 = drain(f, max, d.rest + more, d.next);
            drain(f, max, buf + more, next) == Drained {
                events: d.events + d2.events,
                rest: d2.rest,
                next: d2.next,
                error: d2.error,
            }
        }),
    decreases buf.len(),
{
    let t = f.terminator();
    lemma_first_of(buf, t);
    let d = drain(f, max, buf, next);
    match first_of(buf, t) {
        None => {
            let d2 = drain(f, max, d.rest + more, d.next);
            assert(d.events + d2.events =~= d2.events);
        },
        Some(end) => {
            let whole = buf + more;
            assert(whole.take(end) =~= buf.take(end));
            assert(is_first(whole, t, end));
            lemma_first_of_is(whole, t, end);
            assert(whole.skip(end + 1) =~= buf.skip(end + 1) + more);
            let record = buf.take(end);
            let rest = buf.skip(end + 1);
            if trim_spec(record).len() == 0 {
                lemma_drain_append(f, max, rest, more, next);
            } else {
                match f.decode(record, next as u64) {
                    Err(e) => {},
                    Ok(ev) => {
                        lemma_drain_append(f, max, rest, more, next + 1);
                        let d1 = drain(f, max, rest, next + 1);
                        let d2 = drain(f, max, d1.rest + more, d1.next);
                        assert(seq![ev] + (d1.events + d2.events) =~= (seq![ev] + d1.events)
                            + d2.events);
                    },
                }
            }
        },
    }
}

/// Two feeds in a row that both succeed give what one feed of both chunks
/// gives: the events of the first then of the second, and the same state.
pub proof fn lemma_feed_twice<F: Format>(
    f: F,
    max: usize,
    buf: Seq<u8>,
    next: int,
    a: Seq<u8>,
    b: Seq<u8>,
)
    requires
        feed_step(f, max, buf + a, next).result is Ok,
        feed_step(
            f,
            max,
            feed_step(f, max, buf + a, next).buffered + b,
            feed_step(f, max, buf + a, next).next,
        ).result is Ok,
    ensures
        ({
            let s1 = feed_step(f, max, buf + a, next);
            let s2 = feed_step(f, max, s1.buffered + b, s1.next);
            feed_step(f, max, buf + (a + b), next) == Step {
                result: Ok(s1.result->Ok_0 + s2.result->Ok_0),
                buffered: s2.buffered,
                next: s2.next,
            }
        }),
{
    assert(buf + (a + b) =~= (buf + a) + b);
    lemma_drain_append(f, max, buf + a, b, next);
}

/// A successful feed of `a` followed by a successful finish after feeding
/// `b` gives what feeding `a + b` and finishing gives.
pub proof fn lemma_feed_then_finish<F: Format>(
    f: F,
    max: usize,
    buf: Seq<u8>,
    next: int,
    a: Seq<u8>,
    b: Seq<u8>,
)
    requires
        feed_step(f, max, buf + a, next).result is Ok,
        finish_step(
            f,
            max,
            feed_step(f, max, buf + a, next).buffered + b,
            feed_step(f, max, buf + a, next).next,
        ).result is Ok,
    ensures
        ({
            let s1 = feed_step(f, max, buf + a, next);
            let s2 = finish_step(f, max, s1.buffered + b, s1.next);
            finish_step(f, max, buf + (a + b), next) == Step {
                result: Ok(s1.result->Ok_0 + s2.result->Ok_0),
                buffered: s2.buffered,
                next: s2.next,
            }
        }),
{
    assert(buf + (a + b) =~= (buf + a) + b);
    lemma_drain_append(f, max, buf + a, b, next);
    let s1 = feed_step(f, max, buf + a, next);
    let m = feed_step(f, max, s1.buffered + b, s1.next);
    let whole = feed_step(f, max, buf + (a + b), next);
    assert(whole.result == Ok::<Seq<EventView>, CoreErrorView>(
        s1.result->Ok_0 + m.result->Ok_0,
    ));
    if trim_spec(m.buffered).len() != 0 {
        match f.decode(m.buffered, m.next as u64) {
            Err(e) => {},
            Ok(ev) => {
                assert((s1.result->Ok_0 + m.result->Ok_0).push(ev) =~= s1.result->Ok_0 + (
                m.result->Ok_0).push(ev));
            },
        }
    }
}

/// However the input is cut into chunks, a stream that succeeds gives
/// exactly what feeding the whole input at once and finishing gives: the same
/// events, in the same order, with the same indices.
pub proof fn lemma_chunking_invariance<F: Format>(
    f: F,
    max: usize,
    buf: Seq<u8>,
    next: int,
    chunks: Seq<Seq<u8>>,
)
    requires
        stream_chunks(f, max, buf, next, chunks).result is Ok,
    ensures
        stream_chunks(f, max, buf, next, chunks) == finish_step(
            f,
            max,
            buf + chunks.flatten(),
            next,
        ),
    decreases chunks.len(),
{
    if chunks.len() == 0 {
        assert(buf + chunks.flatten() =~= buf);
    } else {
        let s = feed_step(f, max, buf + chunks[0], next);
        let rest = chunks.drop_first();
        lemma_chunking_invariance(f, max, s.buffered, s.next, rest);
        lemma_feed_then_finish(f, max, buf, next, chunks[0], rest.flatten());
    }
}

/// `f` puts into each event the index it was asked to decode the record at.
pub open spec fn numbers_records<F: Format>(f: F) -> bool {
    forall|record: Seq<u8>, index: u64|
        (#[trigger] f.decode(record, index)) is Ok ==> f.decode(record, index)->Ok_0.index == index
}

proof fn lemma_drain_numbering<F: Format>(f: F, max: usize, buf: Seq<u8>, next: int)
    requires
        numbers_records(f),
        0 <= next,
        next + buf.len() <= u64::MAX,
    ensures
        forall|k: int|
            0 <= k < drain(f, max, buf, next).events.len() ==> (#[trigger] drain(
                f,
                max,
                buf,
                next,
            ).events[k]).index == next + k,
    decreases buf.len(),
{
    lemma_first_of(buf, f.terminator());
    match first_of(buf, f.terminator()) {
        None => {},
        Some(end) => {
            let record = buf.take(end);
            let rest = buf.skip(end + 1);
            if trim_spec(record).len() == 0 {
                lemma_drain_numbering(f, max, rest, next);
            } else {
                match f.decode(record, next as u64) {
                    Err(e) => {},
                    Ok(ev) => {
                        lemma_drain_numbering(f, max, rest, next + 1);
                        let d = drain(f, max, rest, next + 1);
                        assert forall|k: int| 0 <= k < d.events.len() + 1 implies (#[trigger] (
                        seq![ev] + d.events)[k]).index == next + k by {
                            if k > 0 {
                                assert((seq![ev] + d.events)[k] == d.events[k - 1]);
                            }
                        }
                    },
                }
            }
        },
    }
}

/// With a format that numbers records as asked, the events of a successful
/// feed or finish are numbered consecutively from the records emitted so far.
pub proof fn lemma_consecutive_indices<F: Format>(f: F, max: usize, buf: Seq<u8>, next: int)
    requires
        numbers_records(f),
        0 <= next,
        next + buf.len() <= u64::MAX,
    ensures
        feed_step(f, max, buf, next).result matches Ok(events) ==> forall|k: int|
            0 <= k < events.len() ==> (#[trigger] events[k]).index == next + k,
        finish_step(f, max, buf, next).result matches Ok(events) ==> forall|k: int|
            0 <= k < events.len() ==> (#[trigger] events[k]).index == next + k,
{
    lemma_drain_numbering(f, max, buf, next);
    lemma_drain_facts(f, max, buf, next);
}

} // verus!
