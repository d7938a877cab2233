//! The SSTable: an immutable sorted key-value file with a sparse index and a
//! Bloom filter.
//!
//! The data file holds one `"<key>:<value>\n"` line per record, in ascending
//! key order without duplicates.  The index file holds, for each key, the
//! byte position at which its line begins in the data file.  The in-memory
//! descriptor keeps the file content, the index and a Bloom filter over the
//! keys; the filter is rebuilt at every construction and never persisted.

use crate::bloom_filter::BloomFilter;
use crate::codec::{
    all_storable, assoc, dec_rep, encode_index, encode_index_from, encode_line, encode_record,
    encode_records, find_char_from, offset_of, parse_records, split_record, storable,
    u64_to_dec, views, Record, SpecRecord,
};
use crate::codec::{
    lemma_assoc_absent, lemma_assoc_concat, lemma_assoc_singleton, lemma_encode_records_push,
    lemma_line_at_offset, lemma_parse_encode_records, lemma_parse_line_encoded,
    lemma_parse_records_storable,
};
use crate::mem_table::MemTable;
use crate::order::{
    lemma_adjacent_sorted, lemma_lex_lt_ne, lex_lt, sorted_keys, str_eq, str_lt,
};
use vstd::prelude::*;

verus! {

/// The number of bits in every SSTable's Bloom filter.
pub const BLOOM_BITS: usize = 1000;

/// An immutable sorted table: its data file content, its index, and the
/// Bloom filter over its keys.
pub struct SSTable {
    bloom_filter: BloomFilter,
    entries: Vec<Record>,
    offsets: Vec<usize>,
    data: String,
}

impl View for SSTable {
    type V = Seq<SpecRecord>;

    closed spec fn view(&self) -> Seq<SpecRecord> {
        views(self.entries@)
    }
}

impl SSTable {
    /// The content of the table's data file.
    pub closed spec fn file_content(&self) -> Seq<char> {
        self.data@
    }

    /// The in-memory index maps the key of record `i` to the position at
    /// which its line begins in the data file.
    pub closed spec fn index_wf(&self) -> bool {
        &&& self.offsets@.len() == self.entries@.len()
        &&& forall|i: int|
            0 <= i < self.offsets@.len() ==> self.offsets@[i] == offset_of(self@, i)
    }

    /// The Bloom filter holds every key of the table.
    pub closed spec fn bloom_wf(&self) -> bool {
        &&& self.bloom_filter.wf()
        &&& forall|i: int|
            0 <= i < self@.len() ==> self.bloom_filter.spec_contains(#[trigger] self@[i].0)
    }

    /// Sorted unique storable records; the data file is their encoding; the
    /// index and the Bloom filter agree with them.
    pub open spec fn wf(&self) -> bool {
        &&& sorted_keys(self@)
        &&& all_storable(self@)
        &&& self.file_content() == encode_records(self@)
        &&& self.index_wf()
        &&& self.bloom_wf()
    }

    /// Builds the descriptor for a data file content: scans the lines,
    /// collects every record, builds the Bloom filter and the in-memory
    /// index, and renders the sibling index file content.  Returns nothing
    /// when the records are not strictly sorted by key, which no file this
    /// library writes can produce.
    pub fn new(data: &str) -> (r: Option<(SSTable, String)>)
        ensures
            r is Some <==> sorted_keys(parse_records(data@)),
            match r {
                Some(p) => {
                    &&& p.0.wf()
                    &&& p.0@ == parse_records(data@)
                    &&& p.1@ == encode_index(parse_records(data@))
                },
                None => true,
            },
    {
        let entries = crate::codec::parse_content(data);
        proof {
            lemma_parse_records_storable(data@);
        }
        let ghost s = views(entries@);
        let n = entries.len();
        let mut i: usize = 1;
        while i < n
            invariant
                1 <= i,
                n == s.len(),
                s == views(entries@),
                s == parse_records(data@),
                forall|t: int| 0 < t < i ==> lex_lt(#[trigger] s[t - 1].0, s[t].0),
            decreases n - i,
        {
            proof {
                assert(views(entries@)[i - 1] == entries@[i - 1]@);
                assert(views(entries@)[i as int] == entries@[i as int]@);
            }
            if !str_lt(entries[i - 1].key.as_str(), entries[i].key.as_str()) {
                proof {
                    assert(!lex_lt(s[i - 1].0, s[i as int].0));
                    if sorted_keys(s) {
                        assert(lex_lt(s[i - 1].0, s[i as int].0));
                    }
                }
                return None;
            }
            i += 1;
        }
        proof {
            lemma_adjacent_sorted(s);
        }
        let mut bloom = BloomFilter::new(BLOOM_BITS);
        let mut canonical = String::new();
        let mut index = String::new();
        let mut offsets: Vec<usize> = Vec::new();
        let mut j: usize = 0;
        proof {
            assert(s.take(0) =~= Seq::<SpecRecord>::empty());
            assert(encode_index_from(s, 0) =~= index@ + encode_index_from(s, 0));
        }
        while j < n
            invariant
                j <= n,
                n == s.len(),
                s == views(entries@),
                all_storable(s),
                bloom.wf(),
                forall|t: int| 0 <= t < j ==> bloom.spec_contains(#[trigger] s[t].0),
                canonical@ == encode_records(s.take(j as int)),
                encode_index(s) == index@ + encode_index_from(s, j as int),
                offsets@.len() == j,
                forall|t: int| 0 <= t < j ==> offsets@[t] == offset_of(s, t),
            decreases n - j,
        {
            proof {
                assert(views(entries@)[j as int] == entries@[j as int]@);
            }
            let offset = canonical.as_str().unicode_len();
            bloom.insert(entries[j].key.as_str());
            offsets.push(offset);
            let line = encode_line(entries[j].key.as_str(), entries[j].value.as_str());
            canonical.append(line.as_str());
            let index_line = encode_line(
                entries[j].key.as_str(),
                u64_to_dec(offset as u64).as_str(),
            );
            index.append(index_line.as_str());
            proof {
                assert(s.take(j + 1) =~= s.take(j as int).push(s[j as int]));
                lemma_encode_records_push(s.take(j as int), s[j as int]);
                assert(offset == offset_of(s, j as int));
                assert(encode_index_from(s, j as int) == encode_record(
                    (s[j as int].0, dec_rep(offset as nat)),
                ) + encode_index_from(s, j + 1));
                assert(index@ + encode_record((s[j as int].0, dec_rep(offset as nat)))
                    + encode_index_from(s, j + 1) =~= (index@ + encode_record(
                    (s[j as int].0, dec_rep(offset as nat)),
                )) + encode_index_from(s, j + 1));
            }
            j += 1;
        }
        let table = SSTable { bloom_filter: bloom, entries, offsets, data: canonical };
        proof {
            assert(s.take(n as int) =~= s);
            assert(encode_index_from(s, n as int) =~= Seq::<char>::empty());
            assert(index@ + Seq::<char>::empty() =~= index@);
            assert(table@ == s);
        }
        Some((table, index))
    }

    /// Rebuilds the descriptor for a pre-existing data file at startup: the
    /// same scan as `new`, without rendering the index file again.
    pub fn load(data: &str) -> (r: Option<SSTable>)
        ensures
            r is Some <==> sorted_keys(parse_records(data@)),
            match r {
                Some(t) => {
                    &&& t.wf()
                    &&& t@ == parse_records(data@)
                },
                None => true,
            },
    {
        match SSTable::new(data) {
            Some((table, _)) => Some(table),
            None => None,
        }
    }

    /// The data file content this table was built from.
    pub fn content(&self) -> (c: &String)
        ensures
            c@ == self.file_content(),
    {
        &self.data
    }

    /// What the table's Bloom filter answers for `k`.
    pub closed spec fn filter_contains(&self, k: Seq<char>) -> bool {
        self.bloom_filter.spec_contains(k)
    }

    /// Consults the Bloom filter alone: the answer is exactly the filter's
    /// membership test, and a false answer proves the key is not in the
    /// table; a true answer means the data must be checked.
    pub fn might_contain(&self, key: &str) -> (r: bool)
        requires
            self.wf(),
        ensures
            r == self.filter_contains(key@),
            assoc(self@, key@) is Some ==> r,
    {
        let r = self.bloom_filter.might_contain(key);
        proof {
            if !r {
                assert forall|i: int| 0 <= i < self@.len() implies (#[trigger] self@[i]).0
                    != key@ by {
                    if self@[i].0 == key@ {
                        assert(self.bloom_filter.spec_contains(self@[i].0));
                    }
                }
                lemma_assoc_absent(self@, key@);
            }
        }
        r
    }

    /// Reads the value stored for `key`: an exact hit in the index gives the
    /// position of its line in the data file; the line is read there and
    /// split at its first `':'`.  A key the index lacks is not in the table.
    /// An empty returned value is a tombstone.
    pub fn read(&self, key: &str) -> (r: Option<String>)
        requires
            self.wf(),
        ensures
            match r {
                Some(v) => assoc(self@, key@) == Some(v@),
                None => assoc(self@, key@) is None,
            },
    {
        let ghost s = self@;
        let ghost kv = key@;
        let n = self.entries.len();
        let mut i: usize = 0;
        while i < n
            invariant_except_break
                i <= n,
                n == s.len(),
                s == self@,
                kv == key@,
                self.wf(),
                forall|t: int| 0 <= t < i ==> (#[trigger] s[t]).0 != kv,
            ensures
                i <= n,
                s == self@,
                kv == key@,
                forall|t: int| 0 <= t < i ==> (#[trigger] s[t]).0 != kv,
                i < n ==> s[i as int].0 == kv,
            decreases n - i,
        {
            proof {
                assert(views(self.entries@)[i as int] == self.entries@[i as int]@);
            }
            if str_eq(self.entries[i].key.as_str(), key) {
                proof {
                    assert(s[i as int].0 == kv);
                }
                break ;
            }
            proof {
                assert(s[i as int].0 != kv);
            }
            i += 1;
        }
        if i == n {
            proof {
                lemma_assoc_absent(s, kv);
            }
            return None;
        }
        // The indexed position of the line.
        let offset = self.offsets[i];
        proof {
            lemma_line_at_offset(s, i as int);
        }
        let nl = find_char_from(self.data.as_str(), '\n', offset);
        proof {
            assert(nl - offset == s[i as int].0.len() + 1 + s[i as int].1.len());
        }
        let line = self.data.as_str().substring_char(offset, nl);
        proof {
            assert(line@ =~= self.data@.subrange(
                offset as int,
                offset + s[i as int].0.len() + 1 + s[i as int].1.len() as int,
            ));
            lemma_parse_line_encoded(s[i as int]);
        }
        match split_record(line) {
            Some(rec) => {
                proof {
                    // The record at `i` is the association for its key: the
                    // later records hold strictly greater keys.
                    let a = s.take(i as int);
                    let b = s.skip(i as int + 1);
                    assert(s =~= a + seq![s[i as int]] + b);
                    lemma_assoc_concat(a + seq![s[i as int]], b, kv);
                    lemma_assoc_concat(a, seq![s[i as int]], kv);
                    lemma_assoc_singleton(s[i as int], kv);
                    assert forall|t: int| 0 <= t < b.len() implies (#[trigger] b[t]).0 != kv by {
                        assert(b[t] == s[i + 1 + t]);
                        assert(lex_lt(s[i as int].0, s[i + 1 + t].0));
                        lemma_lex_lt_ne(kv, b[t].0);
                    }
                    lemma_assoc_absent(b, kv);
                }
                Some(rec.value)
            },
            None => {
                proof {
                    assert(false);
                }
                None
            },
        }
    }

    /// Merges data file contents, oldest first: a later input overwrites an
    /// earlier one for the same key.  Returns the merged data file content,
    /// sorted and free of duplicates, and its index file content.
    pub fn merge(inputs: &Vec<String>) -> (out: (String, String))
        ensures
            sorted_keys(parse_records(out.0@)),
            all_storable(parse_records(out.0@)),
            out.0@ == encode_records(parse_records(out.0@)),
            out.1@ == encode_index(parse_records(out.0@)),
            forall|k: Seq<char>|
                #[trigger] assoc(parse_records(out.0@), k) == assoc(
                    all_records(inputs@.map_values(|c: String| c@)),
                    k,
                ),
    {
        let ghost contents = inputs@.map_values(|c: String| c@);
        let mut acc = MemTable::new(1);
        let n = inputs.len();
        let mut i: usize = 0;
        proof {
            assert(contents.take(0) =~= Seq::<Seq<char>>::empty());
        }
        while i < n
            invariant
                i <= n,
                n == contents.len(),
                contents == inputs@.map_values(|c: String| c@),
                acc.wf(),
                forall|k: Seq<char>|
                    #[trigger] assoc(acc@, k) == assoc(all_records(contents.take(i as int)), k),
            decreases n - i,
        {
            proof {
                assert(contents[i as int] == inputs@[i as int]@);
            }
            let recs = crate::codec::parse_content(inputs[i].as_str());
            proof {
                lemma_parse_records_storable(contents[i as int]);
            }
            let ghost parsed = parse_records(contents[i as int]);
            let m = recs.len();
            let mut j: usize = 0;
            proof {
                assert(parsed.take(0) =~= Seq::<SpecRecord>::empty());
                assert(all_records(contents.take(i as int)) + Seq::<SpecRecord>::empty()
                    =~= all_records(contents.take(i as int)));
                assert(all_records(contents.take(i as int)) + parsed.take(0) =~= all_records(
                    contents.take(i as int),
                ));
            }
            while j < m
                invariant
                    j <= m,
                    m == recs@.len(),
                    views(recs@) == parsed,
                    all_storable(parsed),
                    acc.wf(),
                    forall|k: Seq<char>|
                        #[trigger] assoc(acc@, k) == assoc(
                            all_records(contents.take(i as int)) + parsed.take(j as int),
                            k,
                        ),
                decreases m - j,
            {
                proof {
                    assert(views(recs@)[j as int] == recs@[j as int]@);
                    assert(storable(parsed[j as int]));
                }
                let rec = recs[j].clone();
                acc.insert(rec.key, rec.value);
                proof {
                    let before = all_records(contents.take(i as int)) + parsed.take(j as int);
                    let after = all_records(contents.take(i as int)) + parsed.take(j + 1);
                    assert(after =~= before.push(parsed[j as int]));
                    assert forall|k: Seq<char>|
                        #[trigger] assoc(acc@, k) == assoc(after, k) by {
                        crate::codec::lemma_assoc_push(before, parsed[j as int], k);
                    }
                }
                j += 1;
            }
            proof {
                assert(parsed.take(m as int) =~= parsed);
                assert(contents.take(i + 1) =~= contents.take(i as int).push(
                    contents[i as int],
                ));
                assert(all_records(contents.take(i + 1)) == all_records(contents.take(i as int))
                    + parsed) by {
                    let c = contents.take(i + 1);
                    assert(c.drop_last() =~= contents.take(i as int));
                    assert(c.last() == contents[i as int]);
                }
            }
            i += 1;
        }
        proof {
            assert(contents.take(n as int) =~= contents);
        }
        let out = acc.flush_to_sstable();
        proof {
            lemma_parse_encode_records(acc@);
        }
        out
    }
}

/// All records of a sequence of data file contents, oldest content first, in
/// file order within each content.
pub open spec fn all_records(contents: Seq<Seq<char>>) -> Seq<SpecRecord>
    decreases contents.len(),
{
    if contents.len() == 0 {
        Seq::empty()
    } else {
        all_records(contents.drop_last()) + parse_records(contents.last())
    }
}

} // verus!
