//! End-to-end tests of the engine: writes, reads, deletes, flushes,
//! compaction, restart, and request dispatch.

use rache::common_enums::{CompactionStrategy, Request, Response};
use rache::lsm_tree::{LSMTree, WriteOutcome};
use rache::server::{dispatch, wal_line_for};

fn fresh(max: usize, threshold: usize) -> LSMTree {
    LSMTree::new("", &Vec::new(), max, threshold, CompactionStrategy::LevelBased).unwrap()
}

/// Mirrors what the process around the library does with a write's outcome:
/// append the line to the log file, write the new data files, truncate the
/// log after a flush, and delete the superseded files.
fn apply_outcome(wal: &mut String, levels: &mut Vec<Vec<String>>, out: &WriteOutcome) {
    wal.push_str(&out.wal_line);
    if out.flushed {
        for f in &out.new_files {
            while levels.len() <= f.level {
                levels.push(Vec::new());
            }
            assert_eq!(f.slot, levels[f.level].len());
            levels[f.level].push(f.data.clone());
        }
        *wal = String::new();
        for (l, _s) in &out.deleted_files {
            levels[*l].clear();
        }
    }
}

#[test]
fn write_then_read() {
    let mut t = fresh(2, 2);
    let out = t.write("a".to_string(), "1".to_string());
    assert_eq!(out.wal_line, "a:1\n");
    assert!(!out.flushed);
    assert_eq!(t.read("a"), Some("1".to_string()));
    assert_eq!(t.read("b"), None);
}

#[test]
fn flush_writes_sorted_level0_file() {
    let mut t = fresh(2, 2);
    let o1 = t.write("a".to_string(), "1".to_string());
    assert!(!o1.flushed);
    let o2 = t.write("b".to_string(), "2".to_string());
    // The MemTable reached its capacity of 2: this write flushed it.
    assert!(o2.flushed);
    assert_eq!(o2.new_files.len(), 1);
    assert_eq!(o2.new_files[0].level, 0);
    assert_eq!(o2.new_files[0].slot, 0);
    assert_eq!(o2.new_files[0].data, "a:1\nb:2\n");
    assert_eq!(o2.new_files[0].index, "a:0\nb:4\n");
    let o3 = t.write("c".to_string(), "3".to_string());
    assert!(!o3.flushed);
    assert_eq!(t.read("a"), Some("1".to_string()));
    assert_eq!(t.read("b"), Some("2".to_string()));
    assert_eq!(t.read("c"), Some("3".to_string()));
}

#[test]
fn delete_reads_not_found() {
    let mut t = fresh(2, 2);
    t.write("a".to_string(), "1".to_string());
    t.write("a".to_string(), String::new());
    assert_eq!(t.read("a"), None);
}

#[test]
fn overwrite_reads_latest() {
    let mut t = fresh(2, 2);
    t.write("k".to_string(), "v1".to_string());
    t.write("k".to_string(), "v2".to_string());
    assert_eq!(t.read("k"), Some("v2".to_string()));
}

#[test]
fn write_delete_write_reads_latest() {
    let mut t = fresh(4, 2);
    t.write("k".to_string(), "v1".to_string());
    t.write("k".to_string(), String::new());
    assert_eq!(t.read("k"), None);
    t.write("k".to_string(), "v2".to_string());
    assert_eq!(t.read("k"), Some("v2".to_string()));
}

#[test]
fn whitespace_values_are_verbatim() {
    let mut t = fresh(4, 2);
    t.write("k".to_string(), "  \t ".to_string());
    assert_eq!(t.read("k"), Some("  \t ".to_string()));
}

#[test]
fn capacity_one_flushes_every_write() {
    let mut t = fresh(1, 3);
    let keys = ["a", "b", "c", "d"];
    for (i, k) in keys.iter().enumerate() {
        let out = t.write(k.to_string(), format!("v{}", i));
        assert!(out.flushed);
    }
    for (i, k) in keys.iter().enumerate() {
        assert_eq!(t.read(k), Some(format!("v{}", i)));
    }
    // Deletions flush too, and still read as "not found".
    let out = t.write("b".to_string(), String::new());
    assert!(out.flushed);
    assert_eq!(t.read("b"), None);
    assert_eq!(t.read("a"), Some("v0".to_string()));
}

#[test]
fn two_flushes_compact_into_level_one() {
    let mut t = fresh(1, 2);
    let o1 = t.write("a".to_string(), "1".to_string());
    assert!(o1.flushed);
    assert_eq!(o1.new_files.len(), 1);
    assert_eq!(o1.deleted_files.len(), 0);
    let o2 = t.write("b".to_string(), "2".to_string());
    assert!(o2.flushed);
    // The flush filled level 0 to the threshold: its two tables were merged
    // into the first slot of level 1 and their files superseded.
    assert_eq!(o2.new_files.len(), 2);
    assert_eq!((o2.new_files[0].level, o2.new_files[0].slot), (0, 1));
    assert_eq!((o2.new_files[1].level, o2.new_files[1].slot), (1, 0));
    assert_eq!(o2.new_files[1].data, "a:1\nb:2\n");
    assert_eq!(o2.deleted_files, vec![(0, 0), (0, 1)]);
    assert_eq!(t.level_len(0), 0);
    assert_eq!(t.level_len(1), 1);
    assert_eq!(t.read("a"), Some("1".to_string()));
    assert_eq!(t.read("b"), Some("2".to_string()));
}

#[test]
fn four_flushes_cascade() {
    let mut t = fresh(1, 2);
    t.write("a".to_string(), "1".to_string());
    t.write("b".to_string(), "2".to_string());
    t.write("c".to_string(), "3".to_string());
    let o4 = t.write("b".to_string(), "9".to_string());
    // The fourth flush fills level 0 again; the merge fills level 1 to its
    // threshold, so the cascade continues into level 2.
    assert!(o4.flushed);
    assert_eq!(t.level_count(), 3);
    assert_eq!(t.level_len(0), 0);
    assert_eq!(t.level_len(1), 0);
    assert_eq!(t.level_len(2), 1);
    let merged = &o4.new_files[o4.new_files.len() - 1];
    assert_eq!((merged.level, merged.slot), (2, 0));
    assert_eq!(merged.data, "a:1\nb:9\nc:3\n");
    // Reads still return the latest value written for each key.
    assert_eq!(t.read("a"), Some("1".to_string()));
    assert_eq!(t.read("b"), Some("9".to_string()));
    assert_eq!(t.read("c"), Some("3".to_string()));
}

#[test]
fn restart_after_clean_run_preserves_reads() {
    let mut t = fresh(2, 2);
    let mut wal = String::new();
    let mut levels: Vec<Vec<String>> = Vec::new();
    let script = [
        ("a", "1"),
        ("b", "2"),
        ("c", "3"),
        ("a", "10"),
        ("d", ""),
        ("e", "5"),
        ("b", ""),
    ];
    for (k, v) in script {
        let out = t.write(k.to_string(), v.to_string());
        apply_outcome(&mut wal, &mut levels, &out);
    }
    let t2 = LSMTree::new(&wal, &levels, 2, 2, CompactionStrategy::LevelBased).unwrap();
    for k in ["a", "b", "c", "d", "e", "zz"] {
        assert_eq!(t2.read(k), t.read(k));
    }
    assert_eq!(t2.read("a"), Some("10".to_string()));
    assert_eq!(t2.read("b"), None);
}

#[test]
fn restart_replays_wal_before_any_flush() {
    let mut t = fresh(3, 2);
    let mut wal = String::new();
    let mut levels: Vec<Vec<String>> = Vec::new();
    let out = t.write("x".to_string(), "9".to_string());
    apply_outcome(&mut wal, &mut levels, &out);
    assert!(!out.flushed);
    assert_eq!(wal, "x:9\n");
    // The process dies here; the log alone carries the write.
    let t2 = LSMTree::new(&wal, &levels, 3, 2, CompactionStrategy::LevelBased).unwrap();
    assert_eq!(t2.read("x"), Some("9".to_string()));
}

#[test]
fn restart_replays_latest_appended_value() {
    let mut t = fresh(10, 2);
    let mut wal = String::new();
    let mut levels: Vec<Vec<String>> = Vec::new();
    for (k, v) in [("k", "v1"), ("k", "v2"), ("j", "1")] {
        let out = t.write(k.to_string(), v.to_string());
        apply_outcome(&mut wal, &mut levels, &out);
    }
    assert_eq!(wal, "k:v1\nk:v2\nj:1\n");
    let t2 = LSMTree::new(&wal, &levels, 10, 2, CompactionStrategy::LevelBased).unwrap();
    assert_eq!(t2.read("k"), Some("v2".to_string()));
    assert_eq!(t2.read("j"), Some("1".to_string()));
}

#[test]
fn size_tiered_construction_fails() {
    assert!(LSMTree::new("", &Vec::new(), 2, 2, CompactionStrategy::SizeTiered).is_none());
}

#[test]
fn construction_rejects_corrupt_table() {
    let levels = vec![vec!["b:2\na:1\n".to_string()]];
    assert!(LSMTree::new("", &levels, 2, 2, CompactionStrategy::LevelBased).is_none());
}

#[test]
fn dispatch_scenario() {
    let mut t = fresh(2, 2);
    let (r, out) = dispatch(&mut t, Request::Write { key: "a".to_string(), value: "1".to_string() });
    assert_eq!(r, Response::Success(None));
    assert!(out.is_some());
    let (r, out) = dispatch(&mut t, Request::Read { key: "a".to_string() });
    assert_eq!(r, Response::Success(Some("1".to_string())));
    assert!(out.is_none());
    let (r, _) = dispatch(&mut t, Request::Delete { key: "a".to_string() });
    assert_eq!(r, Response::Success(None));
    let (r, _) = dispatch(&mut t, Request::Read { key: "a".to_string() });
    assert_eq!(r, Response::Success(None));
}

#[test]
fn dispatch_rejects_invalid_requests() {
    let mut t = fresh(2, 2);
    // A key may hold neither ':' nor a newline, and may not be empty.
    let (r, out) = dispatch(&mut t, Request::Write { key: "a:b".to_string(), value: "1".to_string() });
    assert!(matches!(r, Response::Error(_)));
    assert!(out.is_none());
    let (r, _) = dispatch(&mut t, Request::Write { key: String::new(), value: "1".to_string() });
    assert!(matches!(r, Response::Error(_)));
    // The empty value is the tombstone: only `Delete` may produce it.
    let (r, _) = dispatch(&mut t, Request::Write { key: "a".to_string(), value: String::new() });
    assert!(matches!(r, Response::Error(_)));
    let (r, _) = dispatch(&mut t, Request::Delete { key: "a\nb".to_string() });
    assert!(matches!(r, Response::Error(_)));
    // The engine is untouched.
    assert_eq!(t.read("a"), None);
}

#[test]
fn command_parsing() {
    assert_eq!(
        Request::from_input("read a"),
        Some(Request::Read { key: "a".to_string() })
    );
    assert_eq!(
        Request::from_input("  write  k   v "),
        Some(Request::Write { key: "k".to_string(), value: "v".to_string() })
    );
    assert_eq!(
        Request::from_input("delete k\n"),
        Some(Request::Delete { key: "k".to_string() })
    );
    assert_eq!(Request::from_input(""), None);
    assert_eq!(Request::from_input("read"), None);
    assert_eq!(Request::from_input("read a b"), None);
    assert_eq!(Request::from_input("write k"), None);
    assert_eq!(Request::from_input("erase k"), None);
}

#[test]
fn capacity_zero_engine_flushes_every_write() {
    let mut t = fresh(0, 3);
    let o1 = t.write("a".to_string(), "1".to_string());
    assert!(o1.flushed);
    let o2 = t.write("b".to_string(), "2".to_string());
    assert!(o2.flushed);
    assert_eq!(t.read("a"), Some("1".to_string()));
    assert_eq!(t.read("b"), Some("2".to_string()));
}

#[test]
fn wal_line_precomputed() {
    let w = Request::Write { key: "a".to_string(), value: "1".to_string() };
    assert_eq!(wal_line_for(&w), Some("a:1\n".to_string()));
    let d = Request::Delete { key: "a".to_string() };
    assert_eq!(wal_line_for(&d), Some("a:\n".to_string()));
    let r = Request::Read { key: "a".to_string() };
    assert_eq!(wal_line_for(&r), None);
    let bad = Request::Write { key: "a".to_string(), value: String::new() };
    assert_eq!(wal_line_for(&bad), None);
    let bad = Request::Write { key: "a:b".to_string(), value: "1".to_string() };
    assert_eq!(wal_line_for(&bad), None);
    // The line agrees with what the engine's own outcome appends.
    let mut t = fresh(2, 2);
    let (_, out) = dispatch(&mut t, w.clone());
    assert_eq!(wal_line_for(&w), Some(out.unwrap().wal_line));
}
