//! The write-ahead log.
//!
//! The log is an append-only stream of `"<key>:<value>\n"` lines, in the
//! order the engine accepted the writes.  This type keeps the records of the
//! current log and computes each appended line, so the caller can carry the
//! line to durable storage before the write is acknowledged; `reset`
//! corresponds to truncating the file after a successful flush.

use crate::codec::{
    all_storable, encode_line, encode_record, encode_records, storable_key, storable_value,
    Record, SpecRecord, views,
};
use vstd::prelude::*;

verus! {

/// The records of the current write-ahead log, oldest first.
pub struct Wal {
    records: Vec<Record>,
}

impl View for Wal {
    type V = Seq<SpecRecord>;

    closed spec fn view(&self) -> Seq<SpecRecord> {
        views(self.records@)
    }
}

impl Wal {
    /// Every record in the log is storable.
    pub open spec fn wf(&self) -> bool {
        all_storable(self@)
    }

    /// The file content that holds this log.
    pub open spec fn file_content(&self) -> Seq<char> {
        encode_records(self@)
    }

    /// Creates an empty log.
    pub fn new() -> (w: Wal)
        ensures
            w.wf(),
            w@ == Seq::<SpecRecord>::empty(),
    {
        let w = Wal { records: Vec::new() };
        proof {
            assert(w@ =~= Seq::<SpecRecord>::empty());
        }
        w
    }

    /// Takes over an existing log file at startup: its records are the
    /// parsed content, and nothing is truncated.
    pub fn load(content: &str) -> (w: Wal)
        ensures
            w.wf(),
            w@ == crate::codec::parse_records(content@),
    {
        let records = crate::codec::parse_content(content);
        proof {
            crate::codec::lemma_parse_records_storable(content@);
        }
        Wal { records }
    }

    /// Accepts one record and returns the line that must be appended to the
    /// log file (and forced to durable storage) before the write is
    /// acknowledged.
    pub fn append(&mut self, key: &str, value: &str) -> (line: String)
        requires
            old(self).wf(),
            storable_key(key@),
            storable_value(value@),
        ensures
            final(self).wf(),
            final(self)@ == old(self)@.push((key@, value@)),
            line@ == encode_record((key@, value@)),
            final(self).file_content() == old(self).file_content() + line@,
    {
        let line = encode_line(key, value);
        self.records.push(Record { key: String::from_str(key), value: String::from_str(value) });
        proof {
            assert(self@ =~= old(self)@.push((key@, value@)));
            crate::codec::lemma_encode_records_push(old(self)@, (key@, value@));
        }
        line
    }

    /// Empties the log: the file is truncated to zero length.  Done only
    /// after the flushed MemTable is durable in a new SSTable.
    pub fn reset(&mut self)
        ensures
            final(self).wf(),
            final(self)@ == Seq::<SpecRecord>::empty(),
            final(self).file_content() == Seq::<char>::empty(),
    {
        self.records = Vec::new();
        proof {
            assert(self@ =~= Seq::<SpecRecord>::empty());
        }
    }
}

} // verus!
