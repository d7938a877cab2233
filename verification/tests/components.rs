//! Tests of the engine's components: the line format, the key order, the
//! Bloom filter, the MemTable, the write-ahead log, and the SSTable.

use rache::bloom_filter::BloomFilter;
use rache::codec::{encode_line, is_valid_key, is_valid_value, parse_content, split_record, u64_to_dec};
use rache::mem_table::MemTable;
use rache::order::{str_eq, str_lt};
use rache::ss_table::SSTable;
use rache::wal::Wal;

#[test]
fn encode_line_exact() {
    assert_eq!(encode_line("a", "1"), "a:1\n");
    assert_eq!(encode_line("key", ""), "key:\n");
    assert_eq!(encode_line("k", "v:w"), "k:v:w\n");
}

#[test]
fn split_record_first_colon() {
    let r = split_record("k:v").unwrap();
    assert_eq!(r.key, "k");
    assert_eq!(r.value, "v");
    let r = split_record("k:v:w").unwrap();
    assert_eq!(r.key, "k");
    assert_eq!(r.value, "v:w");
    assert!(split_record("noseparator").is_none());
}

#[test]
fn parse_content_skips_bad_lines() {
    let rs = parse_content("a:1\njunk\nb:2\n");
    assert_eq!(rs.len(), 2);
    assert_eq!(rs[0].key, "a");
    assert_eq!(rs[0].value, "1");
    assert_eq!(rs[1].key, "b");
    assert_eq!(rs[1].value, "2");
    // A truncated tail (no final newline) still parses.
    let rs = parse_content("a:1\nb:2");
    assert_eq!(rs.len(), 2);
    assert_eq!(rs[1].value, "2");
}

#[test]
fn u64_decimal_rendering() {
    assert_eq!(u64_to_dec(0), "0");
    assert_eq!(u64_to_dec(7), "7");
    assert_eq!(u64_to_dec(10), "10");
    assert_eq!(u64_to_dec(907), "907");
    assert_eq!(u64_to_dec(u64::MAX), "18446744073709551615");
}

#[test]
fn key_and_value_validity() {
    assert!(!is_valid_key(""));
    assert!(!is_valid_key("a:b"));
    assert!(!is_valid_key("a\nb"));
    assert!(is_valid_key("plain key with spaces"));
    assert!(is_valid_value(""));
    assert!(is_valid_value("  \t  "));
    assert!(is_valid_value("with:colon"));
    assert!(!is_valid_value("line\nbreak"));
}

#[test]
fn string_order() {
    assert!(str_lt("a", "b"));
    assert!(!str_lt("b", "a"));
    assert!(!str_lt("a", "a"));
    assert!(str_lt("a", "ab"));
    assert!(!str_lt("ab", "a"));
    assert!(str_eq("same", "same"));
    assert!(!str_eq("same", "sane"));
}

#[test]
fn bloom_no_false_negatives() {
    let mut f = BloomFilter::new(1000);
    let keys = ["a", "b", "longer key", "another", "x"];
    for k in keys {
        f.insert(k);
    }
    for k in keys {
        assert!(f.might_contain(k));
    }
}

#[test]
fn bloom_fresh_filter_is_empty() {
    let f = BloomFilter::new(1000);
    assert!(!f.might_contain("anything"));
}

#[test]
fn bloom_hash_deterministic_and_bounded() {
    let f = BloomFilter::new(97);
    for seed in 0..3 {
        let h = f.hash("some key", seed);
        assert!(h < 97);
        assert_eq!(h, f.hash("some key", seed));
    }
}

#[test]
fn memtable_insert_get_overwrite() {
    let mut m = MemTable::new(10);
    m.insert("k".to_string(), "v1".to_string());
    m.insert("k".to_string(), "v2".to_string());
    assert_eq!(m.get("k"), Some("v2".to_string()));
    assert_eq!(m.get("absent"), None);
    assert_eq!(m.len(), 1);
}

#[test]
fn memtable_stores_tombstones() {
    let mut m = MemTable::new(10);
    m.insert("k".to_string(), "v".to_string());
    m.insert("k".to_string(), String::new());
    // The tombstone stays in the table: it must be flushed.
    assert_eq!(m.get("k"), Some(String::new()));
    assert_eq!(m.len(), 1);
}

#[test]
fn memtable_is_full_at_max() {
    let mut m = MemTable::new(2);
    assert!(!m.is_full());
    m.insert("a".to_string(), "1".to_string());
    assert!(!m.is_full());
    m.insert("b".to_string(), "2".to_string());
    assert!(m.is_full());
    assert_eq!(m.max_size(), 2);
}

#[test]
fn memtable_flush_is_sorted_with_offsets() {
    let mut m = MemTable::new(10);
    m.insert("b".to_string(), "2".to_string());
    m.insert("a".to_string(), "1".to_string());
    let (data, index) = m.flush_to_sstable();
    assert_eq!(data, "a:1\nb:2\n");
    // "a:1\n" is four bytes, so "b" starts at offset 4.
    assert_eq!(index, "a:0\nb:4\n");
}

#[test]
fn memtable_replay_last_write_wins() {
    let mut m = MemTable::new(10);
    m.load_from_wal("k:v1\nother:x\nk:v2\n");
    assert_eq!(m.get("k"), Some("v2".to_string()));
    assert_eq!(m.get("other"), Some("x".to_string()));
}

#[test]
fn wal_append_and_reset() {
    let mut w = Wal::new();
    let line = w.append("k", "v");
    assert_eq!(line, "k:v\n");
    let line = w.append("k2", "");
    assert_eq!(line, "k2:\n");
    w.reset();
}

#[test]
fn sstable_read_hit_miss_and_tombstone() {
    let t = SSTable::load("a:1\nb:\nc:3\n").unwrap();
    assert_eq!(t.read("a"), Some("1".to_string()));
    // An empty value is handed back as the empty string; the LSM layer
    // treats it as "deleted".
    assert_eq!(t.read("b"), Some(String::new()));
    assert_eq!(t.read("c"), Some("3".to_string()));
    assert_eq!(t.read("d"), None);
    assert!(t.might_contain("a"));
    assert!(t.might_contain("b"));
    assert!(t.might_contain("c"));
}

#[test]
fn sstable_new_renders_index() {
    let (t, index) = SSTable::new("a:1\nb:2\n").unwrap();
    assert_eq!(index, "a:0\nb:4\n");
    assert_eq!(t.content(), "a:1\nb:2\n");
}

#[test]
fn sstable_rejects_unsorted_or_duplicate() {
    assert!(SSTable::load("b:2\na:1\n").is_none());
    assert!(SSTable::load("a:1\na:2\n").is_none());
    assert!(SSTable::load("").is_some());
}

#[test]
fn sstable_merge_newest_wins() {
    let older = "k:old\n".to_string();
    let newer = "k:new\n".to_string();
    let (data, index) = SSTable::merge(&vec![older, newer]);
    assert_eq!(data, "k:new\n");
    assert_eq!(index, "k:0\n");
    let t = SSTable::load(&data).unwrap();
    assert_eq!(t.read("k"), Some("new".to_string()));
}

#[test]
fn sstable_merge_unions_and_sorts() {
    let older = "a:1\nk:old\n".to_string();
    let newer = "b:2\nk:new\n".to_string();
    let (data, _) = SSTable::merge(&vec![older, newer]);
    assert_eq!(data, "a:1\nb:2\nk:new\n");
}

#[test]
fn sstable_merge_keeps_tombstones() {
    let older = "a:1\n".to_string();
    let newer = "a:\n".to_string();
    let (data, _) = SSTable::merge(&vec![older, newer]);
    assert_eq!(data, "a:\n");
}

#[test]
fn memtable_capacity_zero() {
    let mut m = MemTable::new(0);
    // A capacity of zero means the table is always due for a flush.
    assert!(m.is_full());
    assert_eq!(m.get("k"), None);
    m.insert("k".to_string(), "v".to_string());
    assert_eq!(m.get("k"), Some("v".to_string()));
    assert!(m.is_full());
}
