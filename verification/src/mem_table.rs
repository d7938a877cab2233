//! The MemTable: the ordered in-memory buffer of the most recent writes.
//!
//! It holds at most `max_size` live entries, keeps them strictly sorted by
//! key, and stores tombstones (empty values) like any other entry, so that
//! deletions are flushed and survive compaction.

use crate::codec::{
    all_storable, assoc, parse_records, storable_key, storable_value, Record, SpecRecord, views,
};
use crate::codec::{dec_rep, encode_index, encode_index_from, encode_record, encode_records, offset_of};
use crate::codec::{encode_line, lemma_encode_records_push, u64_to_dec};
use crate::codec::lemma_parse_records_storable;
use crate::codec::parse_content;
use crate::order::{
    lemma_lex_lt_connected, lemma_lex_lt_ne, lemma_lex_lt_trans, lex_lt, sorted_keys, str_eq,
    str_lt,
};
use vstd::prelude::*;

verus! {

/// The ordered in-memory buffer of the most recent writes.
pub struct MemTable {
    entries: Vec<Record>,
    max_size: usize,
}

impl View for MemTable {
    type V = Seq<SpecRecord>;

    closed spec fn view(&self) -> Seq<SpecRecord> {
        views(self.entries@)
    }
}

impl MemTable {
    /// The configured number of live entries that triggers a flush.
    pub closed spec fn spec_max(&self) -> usize {
        self.max_size
    }

    /// Entries sorted strictly by key, every record storable.
    pub open spec fn wf(&self) -> bool {
        &&& sorted_keys(self@)
        &&& all_storable(self@)
    }

    /// Creates an empty MemTable that is full at `max_size` entries.
    pub fn new(max_size: usize) -> (m: MemTable)
        ensures
            m.wf(),
            m@ == Seq::<SpecRecord>::empty(),
            m.spec_max() == max_size,
    {
        let m = MemTable { entries: Vec::new(), max_size };
        proof {
            assert(m@ =~= Seq::<SpecRecord>::empty());
        }
        m
    }

    /// The configured capacity.
    pub fn max_size(&self) -> (n: usize)
        ensures
            n == self.spec_max(),
    {
        self.max_size
    }

    /// The number of entries, tombstones included.
    pub fn len(&self) -> (n: usize)
        ensures
            n == self@.len(),
    {
        self.entries.len()
    }

    /// True when the MemTable has reached its capacity and must be flushed.
    pub fn is_full(&self) -> (r: bool)
        ensures
            r == (self@.len() >= self.spec_max()),
    {
        self.entries.len() >= self.max_size
    }

    /// The first position whose key is not below `key`.
    fn lower_bound(&self, key: &str) -> (idx: usize)
        requires
            self.wf(),
        ensures
            idx <= self@.len(),
            forall|i: int| 0 <= i < idx ==> lex_lt(self@[i].0, key@),
            idx < self@.len() ==> !lex_lt(self@[idx as int].0, key@),
    {
        let n = self.entries.len();
        let mut idx: usize = 0;
        while idx < n
            invariant_except_break
                idx <= n,
                n == self@.len(),
                forall|i: int| 0 <= i < idx ==> lex_lt(self@[i].0, key@),
            ensures
                idx <= n,
                forall|i: int| 0 <= i < idx ==> lex_lt(self@[i].0, key@),
                idx < n ==> !lex_lt(self@[idx as int].0, key@),
            decreases n - idx,
        {
            if !str_lt(self.entries[idx].key.as_str(), key) {
                break ;
            }
            idx += 1;
        }
        idx
    }

    /// Places `(key, value)`, overwriting any prior value for `key`.  An
    /// empty `value` is a tombstone and is stored, not removed: a deletion
    /// must reach the SSTables.
    pub fn insert(&mut self, key: String, value: String)
        requires
            old(self).wf(),
            storable_key(key@),
            storable_value(value@),
        ensures
            final(self).wf(),
            final(self).spec_max() == old(self).spec_max(),
            forall|k: Seq<char>|
                #[trigger] assoc(final(self)@, k) == if k == key@ {
                    Some(value@)
                } else {
                    assoc(old(self)@, k)
                },
            assoc(old(self)@, key@) is Some ==> final(self)@.len() == old(self)@.len(),
            assoc(old(self)@, key@) is None ==> final(self)@.len() == old(self)@.len() + 1,
    {
        let ghost s = self@;
        let ghost kv = key@;
        let idx = self.lower_bound(key.as_str());
        let replacing = idx < self.entries.len() && str_eq(self.entries[idx].key.as_str(), key.as_str());
        if replacing {
            self.entries.remove(idx);
        }
        let ghost mid = self@;
        self.entries.insert(idx, Record { key, value });
        proof {
            let t = self@;
            let a = s.take(idx as int);
            let b = if replacing {
                s.skip(idx as int + 1)
            } else {
                s.skip(idx as int)
            };
            assert(mid =~= a + b);
            assert(t =~= a + seq![(kv, value@)] + b);
            // Keys before the slot are below `key`, keys after are above it.
            assert forall|i: int| 0 <= i < b.len() implies lex_lt(kv, #[trigger] b[i].0) by {
                if replacing {
                    let j = idx + 1 + i;
                    assert(b[i] == s[j]);
                    assert(lex_lt(s[idx as int].0, s[j].0));
                } else {
                    let j = idx + i;
                    assert(b[i] == s[j]);
                    if !lex_lt(kv, s[idx as int].0) {
                        lemma_lex_lt_connected(s[idx as int].0, kv);
                    }
                    if i > 0 {
                        lemma_lex_lt_trans(kv, s[idx as int].0, s[j].0);
                    }
                }
            }
            // Sortedness of the result.
            assert forall|i: int, j: int| 0 <= i < j < t.len() implies lex_lt(t[i].0, t[j].0) by {
                let al = a.len() as int;
                if i < al && j < al {
                    assert(t[i] == s[i] && t[j] == s[j]);
                } else if i < al && j == al {
                    assert(t[i] == s[i]);
                } else if i < al && j > al {
                    assert(t[i] == s[i] && t[j] == b[j - al - 1]);
                    lemma_lex_lt_trans(t[i].0, kv, t[j].0);
                } else if i == al && j > al {
                    assert(t[j] == b[j - al - 1]);
                } else {
                    assert(t[i] == b[i - al - 1] && t[j] == b[j - al - 1]);
                    let bi = if replacing {
                        idx + 1 + (i - al - 1)
                    } else {
                        idx + (i - al - 1)
                    };
                    let bj = if replacing {
                        idx + 1 + (j - al - 1)
                    } else {
                        idx + (j - al - 1)
                    };
                    assert(t[i] == s[bi] && t[j] == s[bj]);
                }
            }
            assert(sorted_keys(t));
            assert(all_storable(t)) by {
                assert forall|i: int| 0 <= i < t.len() implies #[trigger] crate::codec::storable(
                    t[i],
                ) by {
                    let al = a.len() as int;
                    if i < al {
                        assert(t[i] == s[i]);
                    } else if i > al {
                        let j = if replacing {
                            idx + 1 + (i - al - 1)
                        } else {
                            idx + (i - al - 1)
                        };
                        assert(t[i] == s[j]);
                    }
                }
            }
            // The association updates pointwise.
            assert forall|k: Seq<char>|
                #[trigger] assoc(t, k) == (if k == kv {
                    Some(value@)
                } else {
                    assoc(s, k)
                }) by {
                crate::codec::lemma_assoc_concat(a + seq![(kv, value@)], b, k);
                crate::codec::lemma_assoc_concat(a, seq![(kv, value@)], k);
                crate::codec::lemma_assoc_singleton((kv, value@), k);
                if replacing {
                    crate::codec::lemma_assoc_singleton(s[idx as int], k);
                }
                if replacing {
                    crate::codec::lemma_assoc_concat(a + seq![s[idx as int]], b, k);
                    crate::codec::lemma_assoc_concat(a, seq![s[idx as int]], k);
                    assert(s =~= a + seq![s[idx as int]] + b);
                } else {
                    crate::codec::lemma_assoc_concat(a, b, k);
                    assert(s =~= a + b);
                }
                if k == kv {
                    assert forall|i: int| 0 <= i < b.len() implies (#[trigger] b[i]).0 != k by {
                        lemma_lex_lt_ne(kv, b[i].0);
                    }
                    crate::codec::lemma_assoc_absent(b, k);
                }
            }
            // Whether the key was present decides the length change.
            if replacing {
                assert(assoc(s, kv) == Some(s[idx as int].1)) by {
                    crate::codec::lemma_assoc_concat(a + seq![s[idx as int]], b, kv);
                    crate::codec::lemma_assoc_concat(a, seq![s[idx as int]], kv);
                    assert(s =~= a + seq![s[idx as int]] + b);
                    assert forall|i: int| 0 <= i < b.len() implies (#[trigger] b[i]).0 != kv by {
                        lemma_lex_lt_ne(kv, b[i].0);
                    }
                    crate::codec::lemma_assoc_absent(b, kv);
                }
            } else {
                assert(assoc(s, kv) is None) by {
                    crate::codec::lemma_assoc_concat(a, b, kv);
                    assert(s =~= a + b);
                    assert forall|i: int| 0 <= i < a.len() implies (#[trigger] a[i]).0 != kv by {
                        lemma_lex_lt_ne(a[i].0, kv);
                    }
                    assert forall|i: int| 0 <= i < b.len() implies (#[trigger] b[i]).0 != kv by {
                        lemma_lex_lt_ne(kv, b[i].0);
                    }
                    crate::codec::lemma_assoc_absent(a, kv);
                    crate::codec::lemma_assoc_absent(b, kv);
                }
            }
        }
    }

    /// The value stored for `key`, if any.  An empty returned value is a
    /// tombstone; the caller treats it as "deleted".
    pub fn get(&self, key: &str) -> (r: Option<String>)
        requires
            self.wf(),
        ensures
            match r {
                Some(v) => assoc(self@, key@) == Some(v@),
                None => assoc(self@, key@) is None,
            },
    {
        let ghost s = self@;
        let ghost kv = key@;
        let idx = self.lower_bound(key);
        if idx < self.entries.len() && str_eq(self.entries[idx].key.as_str(), key) {
            proof {
                let a = s.take(idx as int);
                let b = s.skip(idx as int + 1);
                assert(s =~= a + seq![s[idx as int]] + b);
                crate::codec::lemma_assoc_concat(a + seq![s[idx as int]], b, kv);
                crate::codec::lemma_assoc_concat(a, seq![s[idx as int]], kv);
                crate::codec::lemma_assoc_singleton(s[idx as int], kv);
                assert forall|i: int| 0 <= i < b.len() implies (#[trigger] b[i]).0 != kv by {
                    assert(b[i] == s[idx + 1 + i]);
                    assert(lex_lt(s[idx as int].0, s[idx + 1 + i].0));
                    lemma_lex_lt_ne(kv, b[i].0);
                }
                crate::codec::lemma_assoc_absent(b, kv);
            }
            Some(self.entries[idx].value.clone())
        } else {
            proof {
                if idx < s.len() && !lex_lt(kv, s[idx as int].0) {
                    lemma_lex_lt_connected(s[idx as int].0, kv);
                }
                assert forall|i: int| 0 <= i < s.len() implies (#[trigger] s[i]).0 != kv by {
                    if i < idx {
                        lemma_lex_lt_ne(s[i].0, kv);
                    } else {
                        if i > idx {
                            lemma_lex_lt_trans(kv, s[idx as int].0, s[i].0);
                        }
                        lemma_lex_lt_ne(kv, s[i].0);
                    }
                }
                crate::codec::lemma_assoc_absent(s, kv);
            }
            None
        }
    }

    /// Replays a write-ahead log content into the table, applying each
    /// record as an insert, in log order.  Used only at startup.
    pub fn load_from_wal(&mut self, wal_content: &str)
        requires
            old(self).wf(),
        ensures
            final(self).wf(),
            final(self).spec_max() == old(self).spec_max(),
            forall|k: Seq<char>|
                #[trigger] assoc(final(self)@, k) == match assoc(
                    parse_records(wal_content@),
                    k,
                ) {
                    Some(v) => Some(v),
                    None => assoc(old(self)@, k),
                },
    {
        let ghost s0 = self@;
        let recs = parse_content(wal_content);
        proof {
            lemma_parse_records_storable(wal_content@);
        }
        let ghost parsed = parse_records(wal_content@);
        let n = recs.len();
        let mut i: usize = 0;
        proof {
            assert(parsed.take(0) =~= Seq::<SpecRecord>::empty());
        }
        while i < n
            invariant
                i <= n,
                n == recs@.len(),
                views(recs@) == parsed,
                all_storable(parsed),
                self.wf(),
                self.spec_max() == old(self).spec_max(),
                forall|k: Seq<char>|
                    #[trigger] assoc(self@, k) == match assoc(parsed.take(i as int), k) {
                        Some(v) => Some(v),
                        None => assoc(s0, k),
                    },
            decreases n - i,
        {
            let ghost pre = self@;
            proof {
                assert(views(recs@)[i as int] == recs@[i as int]@);
                assert(crate::codec::storable(parsed[i as int]));
            }
            let rec = recs[i].clone();
            self.insert(rec.key, rec.value);
            proof {
                assert(parsed.take(i + 1) =~= parsed.take(i as int).push(parsed[i as int]));
                assert forall|k: Seq<char>|
                    #[trigger] assoc(self@, k) == match assoc(parsed.take(i + 1), k) {
                        Some(v) => Some(v),
                        None => assoc(s0, k),
                    } by {
                    crate::codec::lemma_assoc_push(parsed.take(i as int), parsed[i as int], k);
                }
            }
            i += 1;
        }
        proof {
            assert(parsed.take(n as int) =~= parsed);
        }
    }

    /// Renders the table as an SSTable: the sorted data file content and the
    /// matching index file content, whose offsets are where each line begins
    /// in the data file.
    pub fn flush_to_sstable(&self) -> (out: (String, String))
        requires
            self.wf(),
        ensures
            out.0@ == encode_records(self@),
            out.1@ == encode_index(self@),
    {
        let ghost s = self@;
        let mut data = String::new();
        let mut index = String::new();
        let n = self.entries.len();
        let mut i: usize = 0;
        proof {
            assert(s.take(0) =~= Seq::<SpecRecord>::empty());
            assert(encode_index_from(s, 0) =~= index@ + encode_index_from(s, 0));
        }
        while i < n
            invariant
                i <= n,
                n == s.len(),
                s == self@,
                self.wf(),
                data@ == encode_records(s.take(i as int)),
                encode_index(s) == index@ + encode_index_from(s, i as int),
            decreases n - i,
        {
            proof {
                assert(views(self.entries@)[i as int] == self.entries@[i as int]@);
            }
            let offset = data.as_str().unicode_len();
            let line = encode_line(self.entries[i].key.as_str(), self.entries[i].value.as_str());
            data.append(line.as_str());
            let index_line = encode_line(
                self.entries[i].key.as_str(),
                u64_to_dec(offset as u64).as_str(),
            );
            index.append(index_line.as_str());
            proof {
                assert(s.take(i + 1) =~= s.take(i as int).push(s[i as int]));
                lemma_encode_records_push(s.take(i as int), s[i as int]);
                assert(offset == offset_of(s, i as int));
                assert(encode_index_from(s, i as int) == encode_record(
                    (s[i as int].0, dec_rep(offset as nat)),
                ) + encode_index_from(s, i + 1));
                assert(index@ + encode_record((s[i as int].0, dec_rep(offset as nat)))
                    + encode_index_from(s, i + 1) =~= (index@ + encode_record(
                    (s[i as int].0, dec_rep(offset as nat)),
                )) + encode_index_from(s, i + 1));
            }
            i += 1;
        }
        proof {
            assert(s.take(n as int) =~= s);
            assert(encode_index_from(s, n as int) =~= Seq::<char>::empty());
            assert(index@ + Seq::<char>::empty() =~= index@);
        }
        (data, index)
    }
}

} // verus!
