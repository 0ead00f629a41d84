//! The bounded accumulator that holds partially-parsed input between feeds.

use vstd::prelude::*;

verus! {

/// Default cap on a single record's size (1 MiB), bounding peak memory.
pub const DEFAULT_MAX_RECORD_SIZE: usize = 1048576;

/// Accumulates fed bytes and yields complete records. Peak memory is bounded by
/// the largest single record, never the total input size.
#[derive(Debug)]
pub struct StreamBuffer {
    data: Vec<u8>,
    max_record_size: usize,
}

impl View for StreamBuffer {
    type V = Seq<u8>;

    /// The buffered bytes.
    closed spec fn view(&self) -> Seq<u8> {
        self.data@
    }
}

impl StreamBuffer {
    /// The record size limit the buffer was made with.
    pub closed spec fn limit(&self) -> usize {
        self.max_record_size
    }

    pub fn new(max_record_size: usize) -> (buf: Self)
        ensures
            buf@ == Seq::<u8>::empty(),
            buf.limit() == max_record_size,
    {
        Self { data: Vec::new(), max_record_size }
    }

    /// Appends a fed chunk.
    pub fn extend(&mut self, chunk: &[u8])
        ensures
            final(self)@ == old(self)@ + chunk@,
            final(self).limit() == old(self).limit(),
    {
        let mut i: usize = 0;
        while i < chunk.len()
            invariant
                i <= chunk@.len(),
                self.data@ == old(self)@ + chunk@.take(i as int),
                self.max_record_size == old(self).limit(),
            decreases chunk@.len() - i,
        {
            self.data.push(chunk[i]);
            proof {
                assert(chunk@.take(i + 1) =~= chunk@.take(i as int).push(chunk@[i as int]));
            }
            i += 1;
        }
        proof {
            assert(chunk@.take(i as int) =~= chunk@);
        }
    }

    /// The currently buffered bytes.
    pub fn as_slice(&self) -> (bytes: &[u8])
        ensures
            bytes@ == self@,
    {
        self.data.as_slice()
    }

    pub fn len(&self) -> (n: usize)
        ensures
            n == self@.len(),
    {
        self.data.len()
    }

    pub fn is_empty(&self) -> (b: bool)
        ensures
            b == (self@.len() == 0),
    {
        self.data.len() == 0
    }

    pub fn max_record_size(&self) -> (max: usize)
        ensures
            max == self.limit(),
    {
        self.max_record_size
    }

    /// Removes the record ending at the terminator located at `content_end`,
    /// returning the record's bytes (excluding the terminator). The record and
    /// its terminator are drained from the front of the buffer.
    pub fn take_record(&mut self, content_end: usize) -> (record: Vec<u8>)
        requires
            content_end < old(self)@.len(),
        ensures
            record@ == old(self)@.take(content_end as int),
            final(self)@ == old(self)@.skip(content_end + 1),
            final(self).limit() == old(self).limit(),
    {
        let mut record: Vec<u8> = Vec::new();
        std::mem::swap(&mut record, &mut self.data);
        let len = record.len();
        assert(content_end < len);
        let rest = record.split_off(content_end + 1);
        record.truncate(content_end);
        self.data = rest;
        proof {
            assert(record@ =~= old(self)@.take(content_end as int));
            assert(self.data@ =~= old(self)@.skip(content_end + 1));
        }
        record
    }

    /// Removes and returns all remaining buffered bytes.
    pub fn take_all(&mut self) -> (all: Vec<u8>)
        ensures
            all@ == old(self)@,
            final(self)@ == Seq::<u8>::empty(),
            final(self).limit() == old(self).limit(),
    {
        let mut all: Vec<u8> = Vec::new();
        std::mem::swap(&mut all, &mut self.data);
        all
    }
}

} // verus!
