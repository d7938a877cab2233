//! The line format shared by the write-ahead log and the SSTable data files.
//!
//! Every record is stored as the line `"<key>:<value>\n"`.  A key never
//! contains the separator `':'` or a newline and is never empty; a value may
//! contain `':'` but never a newline.  An empty value is the tombstone that
//! records a deletion.

use vstd::prelude::*;

verus! {

/// A record as specifications see it: the key and the value, as character
/// sequences.
pub type SpecRecord = (Seq<char>, Seq<char>);

/// A key the line format can carry: no separator, no newline.  (A key a
/// client may store must also be non-empty: see `wf_key`.)
pub open spec fn storable_key(k: Seq<char>) -> bool {
    forall|i: int| 0 <= i < k.len() ==> k[i] != ':' && k[i] != '\n'
}

/// A value the line format can carry: no newline.  The empty value is the
/// tombstone.
pub open spec fn storable_value(v: Seq<char>) -> bool {
    forall|i: int| 0 <= i < v.len() ==> v[i] != '\n'
}

/// A record the line format can carry and give back unchanged.
pub open spec fn storable(r: SpecRecord) -> bool {
    storable_key(r.0) && storable_value(r.1)
}

pub open spec fn all_storable(rs: Seq<SpecRecord>) -> bool {
    forall|i: int| 0 <= i < rs.len() ==> #[trigger] storable(rs[i])
}

/// A key a client may write: non-empty, and carried by the line format.
pub open spec fn wf_key(k: Seq<char>) -> bool {
    k.len() > 0 && storable_key(k)
}

/// A value a client may write.  The empty value is reserved for deletions.
pub open spec fn wf_value(v: Seq<char>) -> bool {
    storable_value(v)
}

pub open spec fn wf_record(r: SpecRecord) -> bool {
    wf_key(r.0) && wf_value(r.1)
}

/// The line that stores one record.
pub open spec fn encode_record(r: SpecRecord) -> Seq<char> {
    r.0 + seq![':'] + r.1 + seq!['\n']
}

/// The file content that stores a sequence of records, one line each.
pub open spec fn encode_records(rs: Seq<SpecRecord>) -> Seq<char>
    decreases rs.len(),
{
    if rs.len() == 0 {
        Seq::empty()
    } else {
        encode_record(rs[0]) + encode_records(rs.drop_first())
    }
}

/// Reports whether `key` may be stored: non-empty, no `':'`, no newline.
pub fn is_valid_key(key: &str) -> (r: bool)
    ensures
        r == wf_key(key@),
{
    let n = key.unicode_len();
    if n == 0 {
        return false;
    }
    let mut i: usize = 0;
    while i < n
        invariant
            n == key@.len(),
            i <= n,
            forall|j: int| 0 <= j < i ==> key@[j] != ':' && key@[j] != '\n',
        decreases n - i,
    {
        let c = key.get_char(i);
        if c == ':' || c == '\n' {
            return false;
        }
        i += 1;
    }
    true
}

/// Reports whether `value` may be stored: no newline.  The empty value is
/// accepted here; it is the tombstone.
pub fn is_valid_value(value: &str) -> (r: bool)
    ensures
        r == wf_value(value@),
{
    let n = value.unicode_len();
    let mut i: usize = 0;
    while i < n
        invariant
            n == value@.len(),
            i <= n,
            forall|j: int| 0 <= j < i ==> value@[j] != '\n',
        decreases n - i,
    {
        let c = value.get_char(i);
        if c == '\n' {
            return false;
        }
        i += 1;
    }
    true
}

/// The index of the first occurrence of `c` in `s`, or `s.len()` when `s`
/// does not contain `c`.
pub open spec fn find_char(s: Seq<char>, c: char) -> nat
    decreases s.len(),
{
    if s.len() == 0 {
        0
    } else if s[0] == c {
        0
    } else {
        1 + find_char(s.drop_first(), c)
    }
}

/// What `find_char` finds is the first occurrence.
pub proof fn lemma_find_char(s: Seq<char>, c: char)
    ensures
        find_char(s, c) <= s.len(),
        forall|j: int| 0 <= j < find_char(s, c) ==> s[j] != c,
        find_char(s, c) < s.len() ==> s[find_char(s, c) as int] == c,
    decreases s.len(),
{
    if s.len() != 0 && s[0] != c {
        lemma_find_char(s.drop_first(), c);
        assert forall|j: int| 0 <= j < find_char(s, c) implies s[j] != c by {
            if j > 0 {
                assert(s.drop_first()[j - 1] != c);
            }
        }
    }
}

/// A position before which `c` does not occur, and at which `c` stands (or
/// which is the end), is the position `find_char` returns.
pub proof fn lemma_find_char_at(s: Seq<char>, c: char, n: nat)
    requires
        n <= s.len(),
        forall|j: int| 0 <= j < n ==> s[j] != c,
        n < s.len() ==> s[n as int] == c,
    ensures
        find_char(s, c) == n,
    decreases s.len(),
{
    if s.len() == 0 {
    } else if s[0] == c {
        assert(n == 0);
    } else {
        assert(n >= 1) by {
            assert(n < s.len() ==> s[n as int] == c);
        }
        let t = s.drop_first();
        assert forall|j: int| 0 <= j < n - 1 implies t[j] != c by {
            assert(s[j + 1] != c);
        }
        lemma_find_char_at(t, c, (n - 1) as nat);
    }
}

/// Splits a line at its first `':'` into key and value; a line without a
/// `':'` is no record.
pub open spec fn parse_line(line: Seq<char>) -> Option<SpecRecord> {
    let n = find_char(line, ':');
    if n == line.len() {
        None
    } else {
        Some((line.take(n as int), line.skip(n as int + 1)))
    }
}

/// The records held by a file content: one line each, lines without a `':'`
/// skipped.  The final line counts whether or not a newline ends it.
pub open spec fn parse_records(s: Seq<char>) -> Seq<SpecRecord>
    decreases s.len(),
    via parse_records_decreases
{
    if s.len() == 0 {
        Seq::empty()
    } else {
        let n = find_char(s, '\n');
        let line = s.take(n as int);
        let rest: Seq<char> = if n + 1 < s.len() {
            s.skip(n as int + 1)
        } else {
            Seq::empty()
        };
        match parse_line(line) {
            Some(r) => seq![r] + parse_records(rest),
            None => parse_records(rest),
        }
    }
}

#[via_fn]
proof fn parse_records_decreases(s: Seq<char>) {
    lemma_find_char(s, '\n');
}

/// A line `<key>:<value>` splits back into the record it was made from.
pub proof fn lemma_parse_line_encoded(r: SpecRecord)
    requires
        storable(r),
    ensures
        parse_line(r.0 + seq![':'] + r.1) == Some(r),
{
    let line = r.0 + seq![':'] + r.1;
    assert forall|j: int| 0 <= j < r.0.len() implies line[j] != ':' by {
        assert(line[j] == r.0[j]);
    }
    assert(line[r.0.len() as int] == ':');
    lemma_find_char_at(line, ':', r.0.len());
    assert(line.take(r.0.len() as int) =~= r.0);
    assert(line.skip(r.0.len() as int + 1) =~= r.1);
}

/// Parsing one encoded record off the front of a content.
pub proof fn lemma_parse_encode_step(r: SpecRecord, rest: Seq<char>)
    requires
        storable(r),
    ensures
        parse_records(encode_record(r) + rest) == seq![r] + parse_records(rest),
{
    let s = encode_record(r) + rest;
    let k = r.0;
    let v = r.1;
    let p = k.len() + 1 + v.len();
    assert forall|j: int| 0 <= j < p implies s[j] != '\n' by {
        if j < k.len() {
            assert(s[j] == k[j]);
        } else if j == k.len() {
            assert(s[j] == ':');
        } else {
            assert(s[j] == v[j - k.len() - 1]);
        }
    }
    assert(s[p as int] == '\n');
    lemma_find_char_at(s, '\n', p);
    let line = s.take(p as int);
    assert(line =~= k + seq![':'] + v);
    assert forall|j: int| 0 <= j < k.len() implies line[j] != ':' by {
        assert(line[j] == k[j]);
    }
    assert(line[k.len() as int] == ':');
    lemma_find_char_at(line, ':', k.len());
    assert(line.take(k.len() as int) =~= k);
    assert(line.skip(k.len() as int + 1) =~= v);
    assert(parse_line(line) == Some((k, v)));
    if p + 1 < s.len() {
        assert(s.skip(p as int + 1) =~= rest);
    } else {
        assert(rest =~= Seq::<char>::empty());
        assert(parse_records(rest) == Seq::<SpecRecord>::empty());
    }
}

/// Encoding a sequence of well-formed records and parsing the result gives
/// the records back.
pub proof fn lemma_parse_encode_records(rs: Seq<SpecRecord>)
    requires
        all_storable(rs),
    ensures
        parse_records(encode_records(rs)) == rs,
    decreases rs.len(),
{
    if rs.len() == 0 {
        assert(parse_records(encode_records(rs)) =~= rs);
    } else {
        let t = rs.drop_first();
        lemma_parse_encode_records(t);
        lemma_parse_encode_step(rs[0], encode_records(t));
        assert(seq![rs[0]] + t =~= rs);
    }
}

/// Encoding distributes over concatenation of record sequences.
pub proof fn lemma_encode_records_concat(a: Seq<SpecRecord>, b: Seq<SpecRecord>)
    ensures
        encode_records(a + b) == encode_records(a) + encode_records(b),
    decreases a.len(),
{
    if a.len() == 0 {
        assert(a + b =~= b);
        assert(encode_records(a) + encode_records(b) =~= encode_records(b));
    } else {
        lemma_encode_records_concat(a.drop_first(), b);
        assert((a + b).drop_first() =~= a.drop_first() + b);
        assert(encode_records(a + b) =~= encode_records(a) + encode_records(b));
    }
}

/// Builds the line `"<key>:<value>\n"`.
pub fn encode_line(key: &str, value: &str) -> (line: String)
    ensures
        line@ == encode_record((key@, value@)),
{
    proof {
        reveal_strlit(":");
        reveal_strlit("\n");
    }
    let mut line = String::new();
    line.append(key);
    line.append(":");
    line.append(value);
    line.append("\n");
    proof {
        assert(line@ =~= encode_record((key@, value@)));
    }
    line
}

/// Every record a content parses to is storable: its key can hold neither a
/// `':'` (the split is at the first one) nor a newline, and its value no
/// newline.
pub proof fn lemma_parse_records_storable(s: Seq<char>)
    ensures
        all_storable(parse_records(s)),
    decreases s.len(),
{
    if s.len() != 0 {
        let n = find_char(s, '\n');
        lemma_find_char(s, '\n');
        let line = s.take(n as int);
        let rest: Seq<char> = if n + 1 < s.len() {
            s.skip(n as int + 1)
        } else {
            Seq::empty()
        };
        lemma_parse_records_storable(rest);
        match parse_line(line) {
            Some(r) => {
                lemma_find_char(line, ':');
                let m = find_char(line, ':');
                assert forall|i: int| 0 <= i < r.0.len() implies r.0[i] != ':' && r.0[i] != '\n' by {
                    assert(r.0[i] == s[i]);
                }
                assert forall|i: int| 0 <= i < r.1.len() implies r.1[i] != '\n' by {
                    assert(r.1[i] == line[m + 1 + i]);
                    assert(line[m + 1 + i] == s[m + 1 + i]);
                }
                assert(storable(r));
                assert forall|i: int| 0 <= i < parse_records(s).len() implies #[trigger] storable(
                    parse_records(s)[i],
                ) by {
                    if i > 0 {
                        assert(parse_records(s)[i] == parse_records(rest)[i - 1]);
                    }
                }
            },
            None => {},
        }
    }
}

/// The value held by the last record with key `k`: a later record overwrites
/// an earlier one, which is the replay order of the write-ahead log.
pub open spec fn assoc(rs: Seq<SpecRecord>, k: Seq<char>) -> Option<Seq<char>>
    decreases rs.len(),
{
    if rs.len() == 0 {
        None
    } else if rs.last().0 == k {
        Some(rs.last().1)
    } else {
        assoc(rs.drop_last(), k)
    }
}

/// In a concatenation the later part wins.
pub proof fn lemma_assoc_concat(a: Seq<SpecRecord>, b: Seq<SpecRecord>, k: Seq<char>)
    ensures
        assoc(a + b, k) == match assoc(b, k) {
            Some(v) => Some(v),
            None => assoc(a, k),
        },
    decreases b.len(),
{
    if b.len() == 0 {
        assert(a + b =~= a);
    } else {
        assert((a + b).last() == b.last());
        assert((a + b).drop_last() =~= a + b.drop_last());
        lemma_assoc_concat(a, b.drop_last(), k);
    }
}

/// A single record is found under exactly its key.
pub proof fn lemma_assoc_singleton(r: SpecRecord, k: Seq<char>)
    ensures
        assoc(seq![r], k) == if r.0 == k {
            Some(r.1)
        } else {
            None::<Seq<char>>
        },
{
    reveal_with_fuel(assoc, 2);
    assert(seq![r].last() == r);
    assert(seq![r].drop_last() =~= Seq::<SpecRecord>::empty());
}

/// A key no record holds is found nowhere.
pub proof fn lemma_assoc_absent(rs: Seq<SpecRecord>, k: Seq<char>)
    requires
        forall|i: int| 0 <= i < rs.len() ==> (#[trigger] rs[i]).0 != k,
    ensures
        assoc(rs, k) == None::<Seq<char>>,
    decreases rs.len(),
{
    if rs.len() > 0 {
        lemma_assoc_absent(rs.drop_last(), k);
    }
}

/// Appending one record appends its line.
pub proof fn lemma_encode_records_push(rs: Seq<SpecRecord>, r: SpecRecord)
    ensures
        encode_records(rs.push(r)) == encode_records(rs) + encode_record(r),
{
    reveal_with_fuel(encode_records, 2);
    lemma_encode_records_concat(rs, seq![r]);
    assert(rs.push(r) =~= rs + seq![r]);
    assert(seq![r].drop_first() =~= Seq::<SpecRecord>::empty());
    assert(encode_records(seq![r]) =~= encode_record(r));
}

/// Appending one record leaves earlier lookups alone and serves the new key.
pub proof fn lemma_assoc_push(rs: Seq<SpecRecord>, r: SpecRecord, k: Seq<char>)
    ensures
        assoc(rs.push(r), k) == if r.0 == k {
            Some(r.1)
        } else {
            assoc(rs, k)
        },
{
    assert(rs.push(r).last() == r);
    assert(rs.push(r).drop_last() =~= rs);
}

/// The byte position at which the line of record `i` begins in the encoded
/// content.
pub open spec fn offset_of(rs: Seq<SpecRecord>, i: int) -> nat {
    encode_records(rs.take(i)).len()
}

/// The index file content for a data file holding `rs`: for each record, the
/// line `"<key>:<offset>\n"` with the offset written in decimal.
pub open spec fn encode_index_from(rs: Seq<SpecRecord>, i: int) -> Seq<char>
    decreases rs.len() - i,
{
    if i < 0 || i >= rs.len() {
        Seq::empty()
    } else {
        encode_record((rs[i].0, dec_rep(offset_of(rs, i)))) + encode_index_from(rs, i + 1)
    }
}

pub open spec fn encode_index(rs: Seq<SpecRecord>) -> Seq<char> {
    encode_index_from(rs, 0)
}

/// The encoded content splits at any record boundary.
pub proof fn lemma_encode_records_split(rs: Seq<SpecRecord>, i: int)
    requires
        0 <= i < rs.len(),
    ensures
        encode_records(rs) == encode_records(rs.take(i)) + encode_record(rs[i]) + encode_records(
            rs.skip(i + 1),
        ),
{
    reveal_with_fuel(encode_records, 2);
    assert(rs =~= rs.take(i) + seq![rs[i]] + rs.skip(i + 1));
    lemma_encode_records_concat(rs.take(i) + seq![rs[i]], rs.skip(i + 1));
    lemma_encode_records_concat(rs.take(i), seq![rs[i]]);
    assert(seq![rs[i]].drop_first() =~= Seq::<SpecRecord>::empty());
    assert(encode_records(seq![rs[i]]) =~= encode_record(rs[i]));
}

/// Where a stored record's line stands in the encoded content: at its
/// offset, running to the first newline after it.
pub proof fn lemma_line_at_offset(rs: Seq<SpecRecord>, i: int)
    requires
        all_storable(rs),
        0 <= i < rs.len(),
    ensures
        offset_of(rs, i) + rs[i].0.len() + 2 + rs[i].1.len() <= encode_records(rs).len(),
        find_char(encode_records(rs).skip(offset_of(rs, i) as int), '\n') == rs[i].0.len() + 1
            + rs[i].1.len(),
        encode_records(rs).subrange(
            offset_of(rs, i) as int,
            offset_of(rs, i) + rs[i].0.len() + 1 + rs[i].1.len() as int,
        ) == rs[i].0 + seq![':'] + rs[i].1,
{
    lemma_encode_records_split(rs, i);
    let s = encode_records(rs);
    let off = offset_of(rs, i) as int;
    let k = rs[i].0;
    let v = rs[i].1;
    let p = (k.len() + 1 + v.len()) as int;
    assert(storable(rs[i]));
    let suffix = s.skip(off);
    assert(suffix =~= encode_record(rs[i]) + encode_records(rs.skip(i + 1)));
    assert forall|j: int| 0 <= j < p implies suffix[j] != '\n' by {
        assert(suffix[j] == encode_record(rs[i])[j]);
        if j < k.len() {
            assert(encode_record(rs[i])[j] == k[j]);
        } else if j == k.len() {
            assert(encode_record(rs[i])[j] == ':');
        } else {
            assert(encode_record(rs[i])[j] == v[j - k.len() - 1]);
        }
    }
    assert(suffix[p] == encode_record(rs[i])[p] && encode_record(rs[i])[p] == '\n');
    lemma_find_char_at(suffix, '\n', (p as nat));
    assert(s.subrange(off, off + p) =~= k + seq![':'] + v);
}

/// The decimal digit characters.
pub open spec fn dec_digit(d: nat) -> char {
    if d == 0 {
        '0'
    } else if d == 1 {
        '1'
    } else if d == 2 {
        '2'
    } else if d == 3 {
        '3'
    } else if d == 4 {
        '4'
    } else if d == 5 {
        '5'
    } else if d == 6 {
        '6'
    } else if d == 7 {
        '7'
    } else if d == 8 {
        '8'
    } else {
        '9'
    }
}

/// The decimal representation of `n`, without leading zeroes (except for 0
/// itself).
pub open spec fn dec_rep(n: nat) -> Seq<char>
    decreases n,
{
    if n < 10 {
        seq![dec_digit(n)]
    } else {
        dec_rep(n / 10).push(dec_digit(n % 10))
    }
}

/// One decimal digit as text.
fn digit_str(d: u64) -> (s: &'static str)
    requires
        d < 10,
    ensures
        s@ == seq![dec_digit(d as nat)],
{
    proof {
        reveal_strlit("0");
        reveal_strlit("1");
        reveal_strlit("2");
        reveal_strlit("3");
        reveal_strlit("4");
        reveal_strlit("5");
        reveal_strlit("6");
        reveal_strlit("7");
        reveal_strlit("8");
        reveal_strlit("9");
    }
    let s = if d == 0 {
        "0"
    } else if d == 1 {
        "1"
    } else if d == 2 {
        "2"
    } else if d == 3 {
        "3"
    } else if d == 4 {
        "4"
    } else if d == 5 {
        "5"
    } else if d == 6 {
        "6"
    } else if d == 7 {
        "7"
    } else if d == 8 {
        "8"
    } else {
        "9"
    };
    proof {
        assert(s@ =~= seq![dec_digit(d as nat)]);
    }
    s
}

/// Writes `n` in decimal.
pub fn u64_to_dec(n: u64) -> (s: String)
    ensures
        s@ == dec_rep(n as nat),
    decreases n,
{
    if n < 10 {
        String::from_str(digit_str(n))
    } else {
        let mut s = u64_to_dec(n / 10);
        s.append(digit_str(n % 10));
        proof {
            assert(s@ =~= dec_rep((n / 10) as nat).push(dec_digit((n % 10) as nat)));
        }
        s
    }
}

/// One stored record.  An empty value is the tombstone left by a deletion.
pub struct Record {
    pub key: String,
    pub value: String,
}

impl View for Record {
    type V = SpecRecord;

    open spec fn view(&self) -> SpecRecord {
        (self.key@, self.value@)
    }
}

impl Clone for Record {
    fn clone(&self) -> (r: Self)
        ensures
            r@ == self@,
    {
        Record { key: self.key.clone(), value: self.value.clone() }
    }
}

/// The views of a vector of records.
pub open spec fn views(rs: Seq<Record>) -> Seq<SpecRecord> {
    rs.map_values(|r: Record| r@)
}

/// The position of the first `c` at or after `from`, or the string's length.
pub(crate) fn find_char_from(s: &str, c: char, from: usize) -> (n: usize)
    requires
        from <= s@.len(),
    ensures
        from <= n <= s@.len(),
        n - from == find_char(s@.skip(from as int), c),
{
    let len = s.unicode_len();
    let mut i: usize = from;
    while i < len
        invariant
            from <= i <= len,
            len == s@.len(),
            forall|j: int| from <= j < i ==> s@[j] != c,
        decreases len - i,
    {
        if s.get_char(i) == c {
            proof {
                let t = s@.skip(from as int);
                assert forall|j: int| 0 <= j < i - from implies t[j] != c by {
                    assert(s@[from + j] != c);
                }
                lemma_find_char_at(t, c, (i - from) as nat);
            }
            return i;
        }
        i += 1;
    }
    proof {
        let t = s@.skip(from as int);
        assert forall|j: int| 0 <= j < len - from implies t[j] != c by {
            assert(s@[from + j] != c);
        }
        lemma_find_char_at(t, c, (len - from) as nat);
    }
    len
}

/// Splits a line (without its newline) at the first `':'`.
pub fn split_record(line: &str) -> (r: Option<Record>)
    ensures
        match r {
            Some(rec) => parse_line(line@) == Some(rec@),
            None => parse_line(line@) == None::<SpecRecord>,
        },
{
    let len = line.unicode_len();
    let n = find_char_from(line, ':', 0);
    proof {
        assert(line@.skip(0) =~= line@);
    }
    if n == len {
        None
    } else {
        let key = String::from_str(line.substring_char(0, n));
        let value = String::from_str(line.substring_char(n + 1, len));
        proof {
            assert(key@ =~= line@.take(n as int));
            assert(value@ =~= line@.skip(n as int + 1));
        }
        Some(Record { key, value })
    }
}

/// Reads every record out of a file content, skipping lines without a `':'`.
pub fn parse_content(content: &str) -> (rs: Vec<Record>)
    ensures
        views(rs@) == parse_records(content@),
{
    let len = content.unicode_len();
    let mut rs: Vec<Record> = Vec::new();
    let mut p: usize = 0;
    proof {
        assert(content@.skip(0) =~= content@);
        assert(views(rs@) + parse_records(content@) =~= parse_records(content@));
    }
    while p < len
        invariant
            p <= len,
            len == content@.len(),
            parse_records(content@) == views(rs@) + parse_records(content@.skip(p as int)),
        decreases len - p,
    {
        let ghost prefix = views(rs@);
        let ghost suffix = content@.skip(p as int);
        let n = find_char_from(content, '\n', p);
        let line = content.substring_char(p, n);
        proof {
            assert(line@ =~= suffix.take((n - p) as int));
        }
        let rec = split_record(line);
        let next = if n < len {
            n + 1
        } else {
            len
        };
        proof {
            let rest: Seq<char> = if n - p + 1 < suffix.len() {
                suffix.skip((n - p) as int + 1)
            } else {
                Seq::empty()
            };
            assert(content@.skip(next as int) =~= rest);
            assert(parse_records(suffix) == match parse_line(line@) {
                Some(r) => seq![r] + parse_records(rest),
                None => parse_records(rest),
            });
        }
        match rec {
            Some(rec) => {
                let ghost rv = rec@;
                rs.push(rec);
                proof {
                    assert(views(rs@) =~= prefix + seq![rv]);
                    assert(prefix + seq![rv] + parse_records(content@.skip(next as int))
                        =~= prefix + (seq![rv] + parse_records(content@.skip(next as int))));
                }
            },
            None => {},
        }
        p = next;
    }
    proof {
        assert(content@.skip(len as int) =~= Seq::<char>::empty());
        assert(views(rs@) + parse_records(content@.skip(len as int)) =~= views(rs@));
    }
    rs
}

} // verus!
