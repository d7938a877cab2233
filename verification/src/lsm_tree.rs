//! The LSM tree: the engine that coordinates the write-ahead log, the
//! MemTable and the leveled SSTables.
//!
//! A write is appended to the log and placed in the MemTable; a full
//! MemTable is flushed as a new level-0 SSTable, after which the log is
//! truncated; a level holding `compaction_threshold` tables is merged into a
//! single table at the next level.  A read consults the MemTable first and
//! then the levels from newest to oldest; within level 0, higher slots are
//! newer and are probed first.
//!
//! Every operation also reports what must change on disk (lines appended,
//! files written, files deleted), and the engine can be rebuilt from the
//! current log and data file contents with the same read results: that is
//! the crash-recovery guarantee.

use crate::codec::{
    assoc, encode_index, encode_record, encode_records, parse_records, wf_key, wf_value,
    SpecRecord,
};
use crate::codec::{lemma_parse_encode_records, lemma_parse_records_storable};
use crate::common_enums::CompactionStrategy;
use crate::mem_table::MemTable;
use crate::order::sorted_keys;
use crate::ss_table::{all_records, SSTable};
use crate::wal::Wal;
use vstd::prelude::*;

verus! {

/// The value the newest table of `ts` that knows `k` holds for it: the last
/// table (the highest slot) is the newest and is consulted first.
pub open spec fn tables_find(ts: Seq<SSTable>, k: Seq<char>) -> Option<Seq<char>>
    decreases ts.len(),
{
    if ts.len() == 0 {
        None
    } else {
        match assoc(ts.last()@, k) {
            Some(v) => Some(v),
            None => tables_find(ts.drop_last(), k),
        }
    }
}

/// The value the newest level of `ls` that knows `k` holds for it: level 0
/// stands first and holds the newest data.
pub open spec fn levels_find(ls: Seq<Seq<SSTable>>, k: Seq<char>) -> Option<Seq<char>>
    decreases ls.len(),
{
    if ls.len() == 0 {
        None
    } else {
        match tables_find(ls[0], k) {
            Some(v) => Some(v),
            None => levels_find(ls.drop_first(), k),
        }
    }
}

/// `tables_find` over data file contents instead of loaded tables, newest
/// (last) first.
pub open spec fn contents_find(cs: Seq<Seq<char>>, k: Seq<char>) -> Option<Seq<char>>
    decreases cs.len(),
{
    if cs.len() == 0 {
        None
    } else {
        match assoc(parse_records(cs.last()), k) {
            Some(v) => Some(v),
            None => contents_find(cs.drop_last(), k),
        }
    }
}

/// `levels_find` over per-level data file contents.
pub open spec fn files_find(files: Seq<Seq<Seq<char>>>, k: Seq<char>) -> Option<Seq<char>>
    decreases files.len(),
{
    if files.len() == 0 {
        None
    } else {
        match contents_find(files[0], k) {
            Some(v) => Some(v),
            None => files_find(files.drop_first(), k),
        }
    }
}

/// What a restart reads for `k`, given the persistent state: the replayed
/// write-ahead log first, then the levels.
pub open spec fn recovered_lookup(
    wal: Seq<char>,
    files: Seq<Seq<Seq<char>>>,
    k: Seq<char>,
) -> Option<Seq<char>> {
    match assoc(parse_records(wal), k) {
        Some(v) => Some(v),
        None => files_find(files, k),
    }
}

/// A data file content an engine may have written: its records parse back
/// sorted and unique.
pub open spec fn loadable(c: Seq<char>) -> bool {
    crate::order::sorted_keys(parse_records(c))
}

pub open spec fn all_loadable(files: Seq<Seq<Seq<char>>>) -> bool {
    forall|l: int, s: int|
        0 <= l < files.len() && 0 <= s < files[l].len() ==> loadable(#[trigger] files[l][s])
}

/// One file the caller must write to durable storage, at
/// `sstable_<level>_<slot>.txt` with its `.index` sibling.
pub struct NewFile {
    pub level: usize,
    pub slot: usize,
    pub data: String,
    pub index: String,
}

/// What a `write` asks of durable storage, in order: append `wal_line` to
/// the log file first; then, on a flush, write every new file, truncate the
/// log, and delete the named `(level, slot)` files.
pub struct WriteOutcome {
    pub wal_line: String,
    pub flushed: bool,
    pub new_files: Vec<NewFile>,
    pub deleted_files: Vec<(usize, usize)>,
}

/// A written file's contents are coherent: the data is the canonical
/// encoding of sorted, unique records, and the index file lists exactly
/// their offsets.
pub open spec fn file_well_formed(f: NewFile) -> bool {
    &&& sorted_keys(parse_records(f.data@))
    &&& f.data@ == encode_records(parse_records(f.data@))
    &&& f.index@ == encode_index(parse_records(f.data@))
}

/// One written file lands at the end of its level; a file one past the last
/// level opens a new level.
pub open spec fn push_file(files: Seq<Seq<Seq<char>>>, f: NewFile) -> Seq<Seq<Seq<char>>> {
    if (f.level as int) < files.len() {
        files.update(f.level as int, files[f.level as int].push(f.data@))
    } else {
        files.push(seq![f.data@])
    }
}

/// All written files, in the order the outcome lists them.
pub open spec fn push_files(files: Seq<Seq<Seq<char>>>, nf: Seq<NewFile>) -> Seq<Seq<Seq<char>>>
    decreases nf.len(),
{
    if nf.len() == 0 {
        files
    } else {
        push_file(push_files(files, nf.drop_last()), nf.last())
    }
}

/// The file's named slot is the level's next free one (slot 0 of a brand-new
/// level), so writing `sstable_<level>_<slot>.txt` is exactly the push.
pub open spec fn slot_named(files: Seq<Seq<Seq<char>>>, f: NewFile) -> bool {
    if (f.level as int) < files.len() {
        f.slot == files[f.level as int].len()
    } else {
        f.level == files.len() && f.slot == 0
    }
}

/// Every written file is named after the state its predecessors left.
pub open spec fn slots_named(files: Seq<Seq<Seq<char>>>, nf: Seq<NewFile>) -> bool
    decreases nf.len(),
{
    if nf.len() == 0 {
        true
    } else {
        slots_named(files, nf.drop_last()) && slot_named(
            push_files(files, nf.drop_last()),
            nf.last(),
        )
    }
}

/// A superseded level's files are deleted; compaction always supersedes a
/// level whole, so one deletion at a level empties it in the image.
pub open spec fn clear_level(files: Seq<Seq<Seq<char>>>, l: int) -> Seq<Seq<Seq<char>>> {
    if 0 <= l < files.len() {
        files.update(l, Seq::empty())
    } else {
        files
    }
}

pub open spec fn clear_levels(
    files: Seq<Seq<Seq<char>>>,
    del: Seq<(usize, usize)>,
) -> Seq<Seq<Seq<char>>>
    decreases del.len(),
{
    if del.len() == 0 {
        files
    } else {
        clear_level(clear_levels(files, del.drop_last()), del.last().0 as int)
    }
}

/// What the data files look like after a write outcome is applied: the new
/// files written in order, then the superseded levels' files deleted.
pub open spec fn updated_files(
    files: Seq<Seq<Seq<char>>>,
    nf: Seq<NewFile>,
    del: Seq<(usize, usize)>,
) -> Seq<Seq<Seq<char>>> {
    clear_levels(push_files(files, nf), del)
}

/// Every deleted name is a real file the outcome's writes leave behind
/// (slot below the level's length after the pushes), and names a level the
/// compaction superseded whole: the level ends empty.
pub open spec fn deletions_named(
    pushed: Seq<Seq<Seq<char>>>,
    tables_after: Seq<Seq<SSTable>>,
    del: Seq<(usize, usize)>,
) -> bool {
    forall|j: int|
        0 <= j < del.len() ==> {
            &&& ((#[trigger] del[j]).0 as int) < tables_after.len()
            &&& tables_after[del[j].0 as int].len() == 0
            &&& (del[j].0 as int) < pushed.len()
            &&& del[j].1 < pushed[del[j].0 as int].len()
        }
}

/// Deletions keep the number of levels.
proof fn lemma_clear_levels_len(files: Seq<Seq<Seq<char>>>, del: Seq<(usize, usize)>)
    ensures
        clear_levels(files, del).len() == files.len(),
    decreases del.len(),
{
    if del.len() > 0 {
        lemma_clear_levels_len(files, del.drop_last());
    }
}

/// A level no deletion names keeps its files.
proof fn lemma_clear_levels_untouched(
    files: Seq<Seq<Seq<char>>>,
    del: Seq<(usize, usize)>,
    i: int,
)
    requires
        0 <= i < files.len(),
        forall|j: int| 0 <= j < del.len() ==> (#[trigger] del[j]).0 != i,
    ensures
        clear_levels(files, del)[i] == files[i],
    decreases del.len(),
{
    if del.len() > 0 {
        lemma_clear_levels_untouched(files, del.drop_last(), i);
        lemma_clear_levels_len(files, del.drop_last());
    }
}

/// Deletion lists compose.
proof fn lemma_clear_levels_concat(
    files: Seq<Seq<Seq<char>>>,
    d1: Seq<(usize, usize)>,
    d2: Seq<(usize, usize)>,
)
    ensures
        clear_levels(files, d1 + d2) == clear_levels(clear_levels(files, d1), d2),
    decreases d2.len(),
{
    if d2.len() == 0 {
        assert(d1 + d2 =~= d1);
    } else {
        assert((d1 + d2).drop_last() =~= d1 + d2.drop_last());
        lemma_clear_levels_concat(files, d1, d2.drop_last());
    }
}

/// Deletions all naming one level clear exactly that level.
proof fn lemma_clear_same_level(files: Seq<Seq<Seq<char>>>, del: Seq<(usize, usize)>, l: int)
    requires
        del.len() >= 1,
        forall|j: int| 0 <= j < del.len() ==> (#[trigger] del[j]).0 == l,
    ensures
        clear_levels(files, del) == clear_level(files, l),
    decreases del.len(),
{
    reveal_with_fuel(clear_levels, 2);
    assert(del.last() == del[del.len() - 1]);
    if del.len() == 1 {
        assert(del.drop_last().len() == 0);
    } else {
        assert forall|j: int| 0 <= j < del.len() - 1 implies (#[trigger] del.drop_last()[j]).0
            == l by {
            assert(del.drop_last()[j] == del[j]);
        }
        lemma_clear_same_level(files, del.drop_last(), l);
        assert(clear_level(clear_level(files, l), l) =~= clear_level(files, l));
    }
}

/// Writing a file above every deleted level commutes with the deletions.
proof fn lemma_clear_push_commute(
    files: Seq<Seq<Seq<char>>>,
    del: Seq<(usize, usize)>,
    f: NewFile,
)
    requires
        (f.level as int) <= files.len(),
        forall|j: int| 0 <= j < del.len() ==> (#[trigger] del[j]).0 < f.level,
    ensures
        clear_levels(push_file(files, f), del) == push_file(clear_levels(files, del), f),
    decreases del.len(),
{
    if del.len() > 0 {
        lemma_clear_push_commute(files, del.drop_last(), f);
        lemma_clear_levels_len(files, del.drop_last());
        lemma_clear_levels_len(push_file(files, f), del.drop_last());
        let y = clear_levels(files, del.drop_last());
        let l0 = del.last().0 as int;
        assert(clear_level(push_file(y, f), l0) =~= push_file(clear_level(y, l0), f));
    }
}

/// Written-file lists compose.
proof fn lemma_push_files_concat(
    files: Seq<Seq<Seq<char>>>,
    a: Seq<NewFile>,
    b: Seq<NewFile>,
)
    ensures
        push_files(files, a + b) == push_files(push_files(files, a), b),
    decreases b.len(),
{
    if b.len() == 0 {
        assert(a + b =~= a);
    } else {
        assert((a + b).drop_last() =~= a + b.drop_last());
        lemma_push_files_concat(files, a, b.drop_last());
    }
}

/// Slot naming composes the same way.
proof fn lemma_slots_named_concat(
    files: Seq<Seq<Seq<char>>>,
    a: Seq<NewFile>,
    b: Seq<NewFile>,
)
    requires
        slots_named(files, a),
        slots_named(push_files(files, a), b),
    ensures
        slots_named(files, a + b),
    decreases b.len(),
{
    if b.len() == 0 {
        assert(a + b =~= a);
    } else {
        assert((a + b).drop_last() =~= a + b.drop_last());
        lemma_slots_named_concat(files, a, b.drop_last());
        lemma_push_files_concat(files, a, b.drop_last());
        assert((a + b).last() == b.last());
    }
}

/// A push leaves every other level's files alone.
proof fn lemma_push_file_untouched(files: Seq<Seq<Seq<char>>>, f: NewFile, i: int)
    requires
        0 <= i < files.len(),
        i != f.level as int,
    ensures
        push_file(files, f)[i] == files[i],
        push_file(files, f).len() >= files.len(),
{
}

/// The engine.
pub struct LSMTree {
    wal: Wal,
    memtable: MemTable,
    levels: Vec<Vec<SSTable>>,
    compaction_threshold: usize,
    compaction_strategy: CompactionStrategy,
}

impl LSMTree {
    /// The MemTable's records.
    pub closed spec fn mem(&self) -> Seq<SpecRecord> {
        self.memtable@
    }

    /// The write-ahead log's records.
    pub closed spec fn wal_records(&self) -> Seq<SpecRecord> {
        self.wal@
    }

    /// The loaded tables, by level and slot.
    pub closed spec fn tables(&self) -> Seq<Seq<SSTable>> {
        self.levels@.map_values(|l: Vec<SSTable>| l@)
    }

    /// The flush capacity.
    pub closed spec fn spec_max(&self) -> usize {
        self.memtable.spec_max()
    }

    /// The number of tables that triggers compaction of a level.
    pub closed spec fn spec_threshold(&self) -> usize {
        self.compaction_threshold
    }

    /// The current write-ahead log file content.
    pub closed spec fn wal_image(&self) -> Seq<char> {
        self.wal.file_content()
    }

    /// The current data file contents, by level and slot.
    pub closed spec fn files_image(&self) -> Seq<Seq<Seq<char>>> {
        self.tables().map_values(|lvl: Seq<SSTable>| lvl.map_values(|t: SSTable| t.file_content()))
    }

    /// The engine invariant: the MemTable is exactly the replayed log, and
    /// every loaded table is well formed.
    pub closed spec fn wf(&self) -> bool {
        &&& self.memtable.wf()
        &&& self.wal.wf()
        &&& forall|k: Seq<char>| assoc(#[trigger] self.wal@, k) == assoc(self.memtable@, k)
        &&& self.levels@.len() >= 1
        &&& forall|l: int, s: int|
            0 <= l < self.tables().len() && 0 <= s < self.tables()[l].len()
                ==> (#[trigger] self.tables()[l][s]).wf()
        &&& self.compaction_threshold >= 2
        &&& self.compaction_strategy == CompactionStrategy::LevelBased
    }

    /// The newest value the engine holds for `k`, tombstones included: the
    /// MemTable first, then the levels from newest to oldest.
    pub open spec fn current(&self, k: Seq<char>) -> Option<Seq<char>> {
        match assoc(self.mem(), k) {
            Some(v) => Some(v),
            None => levels_find(self.tables(), k),
        }
    }

    /// What a read returns for `k`: the newest value, unless it is a
    /// tombstone, which reads as "not found".
    pub open spec fn visible(&self, k: Seq<char>) -> Option<Seq<char>> {
        match self.current(k) {
            Some(v) => if v.len() == 0 {
                None
            } else {
                Some(v)
            },
            None => None,
        }
    }

    /// Builds an engine from the persistent state: the write-ahead log
    /// content and the data file contents, by level and slot (each level's
    /// slots in ascending order, as the startup scan finds them).  The log
    /// is replayed into a fresh MemTable; each data file is loaded.  Returns
    /// nothing for the unimplemented size-tiered policy or for a data file
    /// no run of this engine can have written.
    pub fn new(
        wal_content: &str,
        levels_data: &Vec<Vec<String>>,
        memtable_max_size: usize,
        compaction_threshold: usize,
        compaction_strategy: CompactionStrategy,
    ) -> (r: Option<LSMTree>)
        requires
            compaction_threshold >= 2,
        ensures
            r is Some <==> (compaction_strategy == CompactionStrategy::LevelBased && all_loadable(
                levels_data@.map_values(
                    |lvl: Vec<String>| lvl@.map_values(|c: String| c@),
                ),
            )),
            match r {
                Some(t) => {
                    &&& t.wf()
                    &&& t.spec_max() == memtable_max_size
                    &&& t.spec_threshold() == compaction_threshold
                    &&& t.wal_records() == parse_records(wal_content@)
                    &&& forall|k: Seq<char>|
                        #[trigger] t.current(k) == recovered_lookup(
                            wal_content@,
                            levels_data@.map_values(
                                |lvl: Vec<String>| lvl@.map_values(|c: String| c@),
                            ),
                            k,
                        )
                },
                None => true,
            },
    {
        let ghost files = levels_data@.map_values(
            |lvl: Vec<String>| lvl@.map_values(|c: String| c@),
        );
        match compaction_strategy {
            CompactionStrategy::SizeTiered => {
                return None;
            },
            CompactionStrategy::LevelBased => {},
        }
        let wal = Wal::load(wal_content);
        let mut memtable = MemTable::new(memtable_max_size);
        memtable.load_from_wal(wal_content);
        let mut levels: Vec<Vec<SSTable>> = Vec::new();
        let n = levels_data.len();
        let mut l: usize = 0;
        while l < n
            invariant
                l <= n,
                n == levels_data@.len(),
                files == levels_data@.map_values(
                    |lvl: Vec<String>| lvl@.map_values(|c: String| c@),
                ),
                levels@.len() == l,
                forall|i: int, s: int|
                    0 <= i < l && 0 <= s < levels@[i]@.len() ==> {
                        &&& (#[trigger] levels@[i]@[s]).wf()
                        &&& levels@[i]@[s]@ == parse_records(files[i][s])
                        &&& levels@[i]@[s].file_content() == encode_records(
                            parse_records(files[i][s]),
                        )
                    },
                forall|i: int| 0 <= i < l ==> levels@[i]@.len() == files[i].len(),
                forall|i: int, s: int|
                    0 <= i < l && 0 <= s < files[i].len() ==> loadable(#[trigger] files[i][s]),
            decreases n - l,
        {
            proof {
                assert(files[l as int] == levels_data@[l as int]@.map_values(|c: String| c@));
            }
            let level_data = &levels_data[l];
            let m = level_data.len();
            let mut level: Vec<SSTable> = Vec::new();
            let mut s: usize = 0;
            while s < m
                invariant
                    s <= m,
                    m == level_data@.len(),
                    files == levels_data@.map_values(
                        |lvl: Vec<String>| lvl@.map_values(|c: String| c@),
                    ),
                    level_data@.map_values(|c: String| c@) == files[l as int],
                    0 <= l < files.len(),
                    level@.len() == s,
                    forall|j: int|
                        0 <= j < s ==> {
                            &&& (#[trigger] level@[j]).wf()
                            &&& level@[j]@ == parse_records(files[l as int][j])
                            &&& level@[j].file_content() == encode_records(
                                parse_records(files[l as int][j]),
                            )
                        },
                    forall|j: int| 0 <= j < s ==> loadable(#[trigger] files[l as int][j]),
                decreases m - s,
            {
                proof {
                    assert(files[l as int][s as int] == level_data@[s as int]@);
                }
                match SSTable::load(level_data[s].as_str()) {
                    Some(table) => {
                        level.push(table);
                    },
                    None => {
                        proof {
                            assert(!loadable(files[l as int][s as int]));
                            if all_loadable(files) {
                                assert(loadable(files[l as int][s as int]));
                            }
                        }
                        return None;
                    },
                }
                s += 1;
            }
            levels.push(level);
            l += 1;
        }
        if levels.len() == 0 {
            levels.push(Vec::new());
        }
        let t = LSMTree {
            wal,
            memtable,
            levels,
            compaction_threshold,
            compaction_strategy: CompactionStrategy::LevelBased,
        };
        proof {
            lemma_parse_records_storable(wal_content@);
            assert(all_loadable(files));
            assert forall|k: Seq<char>|
                #[trigger] t.current(k) == recovered_lookup(wal_content@, files, k) by {
                assert(assoc(t.mem(), k) == assoc(parse_records(wal_content@), k));
                lemma_levels_as_files(t.tables(), files, k);
            }
            assert(t.wf()) by {
                assert forall|k: Seq<char>|
                    assoc(#[trigger] t.wal@, k) == assoc(t.memtable@, k) by {}
            }
        }
        Some(t)
    }

    /// Reads the value stored for `key`: the MemTable first (a tombstone
    /// there reads as "not found" at once), then every level from newest to
    /// oldest, and within a level every table from the newest slot down.  A
    /// table whose Bloom filter denies the key is skipped without touching
    /// its data.
    pub fn read(&self, key: &str) -> (r: Option<String>)
        requires
            self.wf(),
        ensures
            match r {
                Some(v) => self.visible(key@) == Some(v@),
                None => self.visible(key@) is None,
            },
    {
        let ghost kv = key@;
        match self.memtable.get(key) {
            Some(v) => {
                if v.as_str().is_empty() {
                    return None;
                }
                return Some(v);
            },
            None => {},
        }
        let n = self.levels.len();
        let mut l: usize = 0;
        proof {
            assert(self.tables().skip(0) =~= self.tables());
        }
        while l < n
            invariant
                l <= n,
                n == self.tables().len(),
                kv == key@,
                self.wf(),
                assoc(self.mem(), kv) is None,
                levels_find(self.tables(), kv) == levels_find(self.tables().skip(l as int), kv),
            decreases n - l,
        {
            let ghost lvl_tables = self.tables()[l as int];
            let m = self.levels[l].len();
            let mut j: usize = m;
            proof {
                assert(lvl_tables.take(m as int) =~= lvl_tables);
            }
            while j > 0
                invariant
                    j <= m,
                    m == lvl_tables.len(),
                    kv == key@,
                    self.wf(),
                    0 <= l < self.tables().len(),
                    lvl_tables == self.tables()[l as int],
                    m == self.levels@[l as int]@.len(),
                    assoc(self.mem(), kv) is None,
                    levels_find(self.tables(), kv) == levels_find(
                        self.tables().skip(l as int),
                        kv,
                    ),
                    tables_find(lvl_tables, kv) == tables_find(lvl_tables.take(j as int), kv),
                decreases j,
            {
                proof {
                    assert(self.tables()[l as int][j - 1].wf());
                    assert(lvl_tables.take(j as int).last() == lvl_tables[j - 1]);
                    assert(lvl_tables.take(j as int).drop_last() =~= lvl_tables.take(j - 1));
                }
                let table = &self.levels[l][j - 1];
                proof {
                    assert(table == lvl_tables[j - 1]);
                }
                if table.might_contain(key) {
                    match table.read(key) {
                        Some(v) => {
                            proof {
                                assert(tables_find(lvl_tables, kv) == Some(v@));
                                assert(levels_find(self.tables().skip(l as int), kv) == Some(v@))
                                    by {
                                    assert(self.tables().skip(l as int)[0] == lvl_tables);
                                }
                                assert(self.current(kv) == Some(v@));
                            }
                            if v.as_str().is_empty() {
                                return None;
                            }
                            return Some(v);
                        },
                        None => {},
                    }
                }
                j -= 1;
            }
            proof {
                assert(lvl_tables.take(0) =~= Seq::<SSTable>::empty());
                assert(tables_find(lvl_tables, kv) is None);
                assert(self.tables().skip(l as int)[0] == lvl_tables);
                assert(self.tables().skip(l as int).drop_first() =~= self.tables().skip(
                    l + 1,
                ));
            }
            l += 1;
        }
        proof {
            assert(self.tables().skip(n as int) =~= Seq::<Seq<SSTable>>::empty());
        }
        None
    }

    /// Whether inserting `k` leaves the MemTable at or over its capacity.
    pub open spec fn fills(mem: Seq<SpecRecord>, k: Seq<char>, max: usize) -> bool {
        (if assoc(mem, k) is Some {
            mem.len() as int
        } else {
            mem.len() as int + 1
        }) >= max
    }

    /// Everything a write's outcome says about durable storage, relative to
    /// the engine before (`pre`) and after (`post`) the write: the appended
    /// log line; whether the write flushed; on no flush, that nothing else
    /// moved; on a flush, the flushed level-0 file pinned exactly (next free
    /// slot, contents the updated MemTable's map), every written file
    /// coherent and named for the slot it fills, every deleted name a real
    /// superseded file, and the file image after equal to the image before
    /// with the writes applied in order and the superseded levels deleted.
    /// When the flush fills level 0 to the threshold, compaction runs and
    /// leaves every level below the threshold.
    pub open spec fn outcome_describes(
        pre: LSMTree,
        post: LSMTree,
        k: Seq<char>,
        v: Seq<char>,
        out: WriteOutcome,
    ) -> bool {
        &&& out.wal_line@ == encode_record((k, v))
        &&& out.flushed == Self::fills(pre.mem(), k, pre.spec_max())
        &&& !out.flushed ==> {
            &&& post.wal_records() == pre.wal_records().push((k, v))
            &&& post.wal_image() == pre.wal_image() + out.wal_line@
            &&& post.tables() == pre.tables()
            &&& out.new_files@.len() == 0
            &&& out.deleted_files@.len() == 0
        }
        &&& out.flushed ==> {
            &&& post.wal_records().len() == 0
            &&& post.wal_image() == Seq::<char>::empty()
            &&& post.mem().len() == 0
            &&& out.new_files@.len() >= 1
            &&& out.new_files@[0].level == 0
            &&& out.new_files@[0].slot == pre.tables()[0].len()
            &&& forall|q: Seq<char>|
                #[trigger] assoc(parse_records(out.new_files@[0].data@), q) == if q == k {
                    Some(v)
                } else {
                    assoc(pre.mem(), q)
                }
            &&& post.files_image() == updated_files(
                pre.files_image(),
                out.new_files@,
                out.deleted_files@,
            )
            &&& slots_named(pre.files_image(), out.new_files@)
            &&& forall|i: int|
                0 <= i < out.new_files@.len() ==> file_well_formed(#[trigger] out.new_files@[i])
            &&& deletions_named(
                push_files(pre.files_image(), out.new_files@),
                post.tables(),
                out.deleted_files@,
            )
        }
        &&& (out.flushed && pre.tables()[0].len() + 1 >= pre.spec_threshold())
            ==> forall|lv: int|
            0 <= lv < post.tables().len() ==> (#[trigger] post.tables()[lv]).len()
                < pre.spec_threshold()
    }

    /// Accepts a write (a delete is a write of the empty value): the record
    /// goes to the write-ahead log and the MemTable; a full MemTable is
    /// flushed as the next level-0 table, the log is truncated, and any
    /// level holding `compaction_threshold` tables is compacted into the
    /// next one.  The outcome names everything durable storage must do, in
    /// order: append the line, write the new files, truncate the log,
    /// delete the superseded files.
    pub fn write(&mut self, key: String, value: String) -> (out: WriteOutcome)
        requires
            old(self).wf(),
            wf_key(key@),
            wf_value(value@),
        ensures
            final(self).wf(),
            final(self).spec_max() == old(self).spec_max(),
            final(self).spec_threshold() == old(self).spec_threshold(),
            forall|k: Seq<char>|
                #[trigger] final(self).current(k) == if k == key@ {
                    Some(value@)
                } else {
                    old(self).current(k)
                },
            Self::outcome_describes(*old(self), *final(self), key@, value@, out),
    {
        let line = self.wal.append(key.as_str(), value.as_str());
        let ghost kv = key@;
        let ghost vv = value@;
        self.memtable.insert(key, value);
        proof {
            assert forall|k: Seq<char>|
                assoc(#[trigger] self.wal@, k) == assoc(self.memtable@, k) by {
                crate::codec::lemma_assoc_push(old(self).wal@, (kv, vv), k);
            }
        }
        let mut out = WriteOutcome {
            wal_line: line,
            flushed: false,
            new_files: Vec::new(),
            deleted_files: Vec::new(),
        };
        if self.memtable.is_full() {
            out.flushed = true;
            let ghost mem_full = self.memtable@;
            let ghost pre_tables = self.tables();
            let (data, index) = self.memtable.flush_to_sstable();
            proof {
                lemma_parse_encode_records(mem_full);
            }
            let table = match SSTable::new(data.as_str()) {
                Some(p) => p.0,
                None => {
                    proof {
                        assert(false);
                    }
                    vstd::pervasive::unreached()
                },
            };
            let slot = self.levels[0].len();
            out.new_files.push(NewFile { level: 0, slot, data, index });
            let ghost flush_file = out.new_files@[0];
            let mut l0 = self.levels.remove(0);
            l0.push(table);
            self.levels.insert(0, l0);
            let max = self.memtable.max_size();
            self.memtable = MemTable::new(max);
            self.wal.reset();
            proof {
                let nls = self.tables();
                assert(nls[0] =~= pre_tables[0].push(table));
                assert(nls.drop_first() =~= pre_tables.drop_first());
                assert forall|k: Seq<char>|
                    #[trigger] levels_find(nls, k) == (match assoc(mem_full, k) {
                        Some(v) => Some(v),
                        None => levels_find(pre_tables, k),
                    }) by {
                    lemma_tables_find_push(pre_tables[0], table, k);
                }
                assert forall|i: int, s: int|
                    0 <= i < nls.len() && 0 <= s < nls[i].len() implies (
                #[trigger] nls[i][s]).wf() by {
                    if i == 0 && s < nls[0].len() - 1 {
                        assert(nls[0][s] == pre_tables[0][s]);
                        assert(pre_tables[0][s].wf());
                    } else if i > 0 {
                        assert(nls[i] == pre_tables[i]);
                        assert(pre_tables[i][s].wf());
                    }
                }
                assert forall|k: Seq<char>| #[trigger]
                    assoc(self.memtable@, k) is None by {}
                assert forall|k: Seq<char>| #[trigger]
                    assoc(self.wal@, k) is None by {}
            }
            let ghost img1 = self.files_image();
            proof {
                // The image after the flush is the old image with the flush
                // file pushed at the next free level-0 slot.
                let old_img = old(self).files_image();
                let nls = self.tables();
                assert(pre_tables == old(self).tables());
                assert(old_img.len() == pre_tables.len());
                assert forall|i: int|
                    0 <= i < pre_tables.len() implies #[trigger] old_img[i].len()
                    == pre_tables[i].len() by {}
                assert forall|i: int, j: int|
                    0 <= i < pre_tables.len() && 0 <= j < pre_tables[i].len() implies #[trigger]
                    old_img[i][j] == pre_tables[i][j].file_content() by {}
                assert(img1.len() == nls.len());
                assert forall|i: int| 0 <= i < nls.len() implies #[trigger] img1[i].len()
                    == nls[i].len() by {}
                assert forall|i: int, j: int|
                    0 <= i < nls.len() && 0 <= j < nls[i].len() implies #[trigger] img1[i][j]
                    == nls[i][j].file_content() by {}
                assert(flush_file.level == 0 && flush_file.slot == slot);
                assert(flush_file.data@ == encode_records(mem_full));
                assert(flush_file.index@ == encode_index(mem_full));
                assert(0 < old_img.len());
                assert(slot_named(old_img, flush_file));
                reveal_with_fuel(slots_named, 2);
                reveal_with_fuel(push_files, 2);
                assert(seq![flush_file].drop_last() =~= Seq::<NewFile>::empty());
                assert(push_files(old_img, Seq::<NewFile>::empty()) == old_img);
                assert(slots_named(old_img, seq![flush_file]));
                assert(push_files(old_img, seq![flush_file]) == push_file(old_img, flush_file));
                assert(img1 =~= push_file(old_img, flush_file)) by {
                    assert forall|i: int|
                        0 <= i < img1.len() implies img1[i] == push_file(old_img, flush_file)[
                    i] by {
                        if i == 0 {
                            assert(nls[0] =~= pre_tables[0].push(table));
                            assert(img1[0].len() == old_img[0].len() + 1);
                            assert forall|j: int|
                                0 <= j < img1[0].len() implies img1[0][j] == old_img[0].push(
                            flush_file.data@)[j] by {
                                if j < img1[0].len() - 1 {
                                    assert(nls[0][j] == pre_tables[0][j]);
                                } else {
                                    assert(nls[0][j] == table);
                                }
                            }
                            assert(img1[0] =~= old_img[0].push(flush_file.data@));
                        } else {
                            assert(nls[i] == pre_tables[i]);
                            assert(img1[i] =~= old_img[i]);
                        }
                    }
                }
                assert(parse_records(flush_file.data@) == mem_full);
                assert(file_well_formed(flush_file));
            }
            if self.levels[0].len() >= self.compaction_threshold {
                self.compact(&mut out.new_files, &mut out.deleted_files);
                proof {
                    assert(out.new_files@.take(1)[0] == flush_file);
                    assert(out.new_files@[0] == flush_file);
                    // Compose the flush push with the compaction's work.
                    let old_img = old(self).files_image();
                    let cnf = out.new_files@.skip(1);
                    let cdel = out.deleted_files@;
                    assert(out.deleted_files@.skip(0) =~= cdel);
                    assert(out.new_files@ =~= seq![flush_file] + cnf);
                    reveal_with_fuel(push_files, 2);
                    assert(seq![flush_file].drop_last() =~= Seq::<NewFile>::empty());
                    assert(push_files(old_img, seq![flush_file]) == push_file(
                        old_img,
                        flush_file,
                    ));
                    lemma_push_files_concat(old_img, seq![flush_file], cnf);
                    assert(push_files(old_img, out.new_files@) == push_files(img1, cnf));
                    assert(self.files_image() == updated_files(
                        old_img,
                        out.new_files@,
                        out.deleted_files@,
                    ));
                    lemma_slots_named_concat(old_img, seq![flush_file], cnf);
                    assert(slots_named(old_img, out.new_files@));
                }
            } else {
                proof {
                    let old_img = old(self).files_image();
                    assert(out.new_files@ =~= seq![flush_file]);
                    assert(out.deleted_files@ =~= Seq::<(usize, usize)>::empty());
                    assert(clear_levels(push_files(old_img, out.new_files@), out.deleted_files@)
                        == push_files(old_img, out.new_files@));
                    reveal_with_fuel(push_files, 2);
                    assert(seq![flush_file].drop_last() =~= Seq::<NewFile>::empty());
                    assert(self.files_image() == updated_files(
                        old_img,
                        out.new_files@,
                        out.deleted_files@,
                    ));
                }
            }
            proof {
                assert(out.new_files@[0].level == 0);
                assert(out.new_files@[0].slot == old(self).tables()[0].len()) by {
                    assert(pre_tables == old(self).tables());
                }
                assert(out.new_files@[0].data@ == encode_records(mem_full));
                assert(out.new_files@[0].index@ == encode_index(mem_full));
                assert(parse_records(out.new_files@[0].data@) == mem_full);
                assert forall|k: Seq<char>|
                    #[trigger] assoc(parse_records(out.new_files@[0].data@), k) == (if k == kv {
                        Some(vv)
                    } else {
                        assoc(old(self).mem(), k)
                    }) by {
                    assert(assoc(mem_full, k) == if k == kv {
                        Some(vv)
                    } else {
                        assoc(old(self).mem(), k)
                    });
                }
            }
        }
        out
    }

    /// Runs the configured compaction policy.  Only the leveled policy can
    /// be constructed.
    fn compact(&mut self, new_files: &mut Vec<NewFile>, deleted_files: &mut Vec<(usize, usize)>)
        requires
            old(self).wf(),
        ensures
            final(self).wf(),
            final(self).mem() == old(self).mem(),
            final(self).wal_records() == old(self).wal_records(),
            final(self).spec_max() == old(self).spec_max(),
            final(self).spec_threshold() == old(self).spec_threshold(),
            forall|k: Seq<char>| #[trigger] final(self).current(k) == old(self).current(k),
            final(new_files)@.len() >= old(new_files)@.len(),
            final(new_files)@.take(old(new_files)@.len() as int) == old(new_files)@,
            final(deleted_files)@.len() >= old(deleted_files)@.len(),
            final(deleted_files)@.take(old(deleted_files)@.len() as int) == old(deleted_files)@,
            final(self).files_image() == updated_files(
                old(self).files_image(),
                final(new_files)@.skip(old(new_files)@.len() as int),
                final(deleted_files)@.skip(old(deleted_files)@.len() as int),
            ),
            slots_named(
                old(self).files_image(),
                final(new_files)@.skip(old(new_files)@.len() as int),
            ),
            forall|i: int|
                old(new_files)@.len() <= i < final(new_files)@.len() ==> file_well_formed(
                    #[trigger] final(new_files)@[i],
                ),
            deletions_named(
                push_files(
                    old(self).files_image(),
                    final(new_files)@.skip(old(new_files)@.len() as int),
                ),
                final(self).tables(),
                final(deleted_files)@.skip(old(deleted_files)@.len() as int),
            ),
            forall|lv: int|
                0 <= lv < final(self).tables().len() ==> (#[trigger] final(self).tables()[
                lv]).len() < old(self).spec_threshold(),
    {
        match self.compaction_strategy {
            CompactionStrategy::SizeTiered => {
                proof {
                    assert(false);
                }
                vstd::pervasive::unreached()
            },
            CompactionStrategy::LevelBased => self.compact_level_based(new_files, deleted_files),
        }
    }

    /// The leveled cascade: every level holding at least
    /// `compaction_threshold` tables is merged, oldest slot first, into a
    /// single table at the next free slot of the next level; the level is
    /// cleared and its files are superseded.  A merge can fill the next
    /// level to its own threshold, so the walk continues upward.
    #[verifier::rlimit(100)]
    fn compact_level_based(
        &mut self,
        new_files: &mut Vec<NewFile>,
        deleted_files: &mut Vec<(usize, usize)>,
    )
        requires
            old(self).wf(),
        ensures
            final(self).wf(),
            final(self).mem() == old(self).mem(),
            final(self).wal_records() == old(self).wal_records(),
            final(self).spec_max() == old(self).spec_max(),
            final(self).spec_threshold() == old(self).spec_threshold(),
            forall|k: Seq<char>| #[trigger] final(self).current(k) == old(self).current(k),
            final(new_files)@.len() >= old(new_files)@.len(),
            final(new_files)@.take(old(new_files)@.len() as int) == old(new_files)@,
            final(deleted_files)@.len() >= old(deleted_files)@.len(),
            final(deleted_files)@.take(old(deleted_files)@.len() as int) == old(deleted_files)@,
            final(self).files_image() == updated_files(
                old(self).files_image(),
                final(new_files)@.skip(old(new_files)@.len() as int),
                final(deleted_files)@.skip(old(deleted_files)@.len() as int),
            ),
            slots_named(
                old(self).files_image(),
                final(new_files)@.skip(old(new_files)@.len() as int),
            ),
            forall|i: int|
                old(new_files)@.len() <= i < final(new_files)@.len() ==> file_well_formed(
                    #[trigger] final(new_files)@[i],
                ),
            deletions_named(
                push_files(
                    old(self).files_image(),
                    final(new_files)@.skip(old(new_files)@.len() as int),
                ),
                final(self).tables(),
                final(deleted_files)@.skip(old(deleted_files)@.len() as int),
            ),
            forall|lv: int|
                0 <= lv < final(self).tables().len() ==> (#[trigger] final(self).tables()[
                lv]).len() < old(self).spec_threshold(),
    {
        let ghost orig = self.tables();
        let ghost n0 = self.levels@.len();
        let ghost start_files = self.files_image();
        let ghost nf0 = new_files@.len() as int;
        let ghost del0 = deleted_files@.len() as int;
        let mut l: usize = 0;
        proof {
            assert(new_files@.skip(nf0) =~= Seq::<NewFile>::empty());
            assert(deleted_files@.skip(del0) =~= Seq::<(usize, usize)>::empty());
            assert(updated_files(start_files, new_files@.skip(nf0), deleted_files@.skip(del0))
                == start_files);
        }
        while l < self.levels.len()
            invariant
                self.memtable == old(self).memtable,
                self.wal == old(self).wal,
                self.compaction_threshold == old(self).compaction_threshold,
                self.compaction_strategy == old(self).compaction_strategy,
                self.memtable.wf(),
                self.wal.wf(),
                forall|k: Seq<char>| assoc(#[trigger] self.wal@, k) == assoc(self.memtable@, k),
                self.compaction_threshold >= 2,
                self.compaction_strategy == CompactionStrategy::LevelBased,
                self.levels@.len() >= 1,
                n0 >= 1,
                orig == old(self).tables(),
                l <= self.levels@.len(),
                self.levels@.len() <= n0 + 1,
                self.levels@.len() == n0 + 1 ==> l >= n0 && self.tables()[n0 as int].len() == 1,
                forall|i: int, s: int|
                    0 <= i < self.tables().len() && 0 <= s < self.tables()[i].len()
                        ==> (#[trigger] self.tables()[i][s]).wf(),
                forall|k: Seq<char>|
                    #[trigger] levels_find(self.tables(), k) == levels_find(orig, k),
                nf0 == old(new_files)@.len(),
                del0 == old(deleted_files)@.len(),
                start_files == old(self).files_image(),
                new_files@.len() >= nf0,
                new_files@.take(nf0) == old(new_files)@,
                deleted_files@.len() >= del0,
                deleted_files@.take(del0) == old(deleted_files)@,
                self.files_image() == updated_files(
                    start_files,
                    new_files@.skip(nf0),
                    deleted_files@.skip(del0),
                ),
                slots_named(start_files, new_files@.skip(nf0)),
                forall|i: int|
                    nf0 <= i < new_files@.len() ==> file_well_formed(#[trigger] new_files@[i]),
                forall|j: int|
                    del0 <= j < deleted_files@.len() ==> {
                        &&& ((#[trigger] deleted_files@[j]).0 as int) < l
                        &&& (deleted_files@[j].0 as int) < self.tables().len()
                        &&& self.tables()[deleted_files@[j].0 as int].len() == 0
                        &&& deleted_files@[j].1 < push_files(start_files, new_files@.skip(nf0))[
                            deleted_files@[j].0 as int
                        ].len()
                    },
                forall|i: int|
                    0 <= i < l ==> (#[trigger] self.tables()[i]).len()
                        < self.compaction_threshold,
            decreases n0 + 1 - l,
        {
            if self.levels[l].len() >= self.compaction_threshold {
                let ghost lvl = self.tables()[l as int];
                let ghost tables0 = self.tables();
                let ghost img0 = self.files_image();
                let ghost nf_app0 = new_files@.skip(nf0);
                let ghost del_app0 = deleted_files@.skip(del0);
                let ghost pf0 = push_files(start_files, nf_app0);
                proof {
                    assert(img0.len() == tables0.len());
                    assert forall|i: int| 0 <= i < tables0.len() implies #[trigger] img0[i].len()
                        == tables0[i].len() by {}
                    assert forall|i: int, j: int|
                        0 <= i < tables0.len() && 0 <= j < tables0[i].len() implies #[trigger] img0[
                        i][j] == tables0[i][j].file_content() by {}
                    assert forall|j: int|
                        0 <= j < del_app0.len() implies ((#[trigger] del_app0[j]).0 as int) < l
                        && del_app0[j].1 < pf0[del_app0[j].0 as int].len() by {
                        assert(del_app0[j] == deleted_files@[del0 + j]);
                    }
                    assert(img0 == clear_levels(pf0, del_app0));
                    lemma_clear_levels_len(pf0, del_app0);
                }
                let count = self.levels[l].len();
                let mut inputs: Vec<String> = Vec::new();
                let mut s: usize = 0;
                proof {
                    assert(inputs@.map_values(|c: String| c@) =~= Seq::<Seq<char>>::empty());
                    assert(lvl.take(0) =~= Seq::<SSTable>::empty());
                }
                while s < count
                    invariant
                        s <= count,
                        count == lvl.len(),
                        0 <= l < self.tables().len(),
                        lvl == self.tables()[l as int],
                        forall|i: int, t: int|
                            0 <= i < self.tables().len() && 0 <= t < self.tables()[i].len()
                                ==> (#[trigger] self.tables()[i][t]).wf(),
                        inputs@.len() == s,
                        all_records(inputs@.map_values(|c: String| c@)) == flatten_tables(
                            lvl.take(s as int),
                        ),
                    decreases count - s,
                {
                    let ghost cs0 = inputs@.map_values(|c: String| c@);
                    let content = self.levels[l][s].content().clone();
                    inputs.push(content);
                    proof {
                        let t = lvl[s as int];
                        assert(t == self.tables()[l as int][s as int]);
                        assert(t.wf());
                        lemma_parse_encode_records(t@);
                        let cs = inputs@.map_values(|c: String| c@);
                        assert(cs.drop_last() =~= cs0);
                        assert(cs.last() == t.file_content());
                        assert(lvl.take(s + 1).drop_last() =~= lvl.take(s as int));
                        assert(lvl.take(s + 1).last() == t);
                    }
                    s += 1;
                }
                proof {
                    assert(lvl.take(count as int) =~= lvl);
                }
                let (mdata, mindex) = SSTable::merge(&inputs);
                let merged = match SSTable::load(mdata.as_str()) {
                    Some(t) => t,
                    None => {
                        proof {
                            assert(false);
                        }
                        vstd::pervasive::unreached()
                    },
                };
                proof {
                    assert forall|k: Seq<char>|
                        #[trigger] assoc(merged@, k) == tables_find(lvl, k) by {
                        lemma_tables_find_flatten(lvl, k);
                    }
                }
                let ghost pre_del = deleted_files@;
                let mut ds: usize = 0;
                while ds < count
                    invariant
                        ds <= count,
                        deleted_files@.len() == pre_del.len() + ds,
                        deleted_files@.take(pre_del.len() as int) == pre_del,
                        forall|t: int|
                            0 <= t < ds ==> (#[trigger] deleted_files@[pre_del.len() + t]).0
                                == l && deleted_files@[pre_del.len() + t].1 == t,
                    decreases count - ds,
                {
                    deleted_files.push((l, ds));
                    proof {
                        assert(deleted_files@.take(pre_del.len() as int) =~= pre_del);
                    }
                    ds += 1;
                }
                let ghost pre_push = self.tables();
                let ghost extended = l + 1 == pre_push.len();
                proof {
                    assert(pre_push == tables0);
                }
                if l + 1 == self.levels.len() {
                    proof {
                        if self.levels@.len() == n0 + 1 {
                            assert(self.tables()[l as int].len() == 1);
                            assert(false);
                        }
                    }
                    self.levels.push(Vec::new());
                    proof {
                        let now = self.tables();
                        assert(now =~= pre_push.push(Seq::<SSTable>::empty()));
                        assert forall|k: Seq<char>|
                            #[trigger] levels_find(now, k) == levels_find(pre_push, k) by {
                            lemma_levels_find_push_empty(pre_push, Seq::<SSTable>::empty(), k);
                        }
                        assert forall|i: int, t: int|
                            0 <= i < now.len() && 0 <= t < now[i].len() implies (
                        #[trigger] now[i][t]).wf() by {
                            assert(now[i] == pre_push[i]);
                        }
                    }
                }
                let ghost base = self.tables();
                let slot = self.levels[l + 1].len();
                new_files.push(NewFile { level: l + 1, slot, data: mdata, index: mindex });
                proof {
                    assert(new_files@.take(old(new_files)@.len() as int) =~= old(new_files)@);
                }
                let mut upper = self.levels.remove(l + 1);
                upper.push(merged);
                self.levels.insert(l + 1, upper);
                let _superseded = self.levels.remove(l);
                self.levels.insert(l, Vec::new());
                proof {
                    let nls = self.tables();
                    assert(nls.len() == base.len());
                    assert forall|i: int|
                        0 <= i < base.len() && i != l && i != l + 1 implies nls[i] == base[i] by {
                        assert(nls[i] == self.levels@[i]@);
                    }
                    assert(nls[l as int].len() == 0);
                    assert(nls[l + 1] =~= base[l + 1].push(merged));
                    assert forall|k: Seq<char>|
                        #[trigger] levels_find(nls, k) == levels_find(base, k) by {
                        lemma_levels_find_compact(base, nls, l as int, merged, k);
                    }
                    assert forall|i: int, t: int|
                        0 <= i < nls.len() && 0 <= t < nls[i].len() implies (
                    #[trigger] nls[i][t]).wf() by {
                        if i == l + 1 {
                            if t < nls[i].len() - 1 {
                                assert(nls[i][t] == base[i][t]);
                            } else {
                                assert(nls[i][t] == merged);
                            }
                        } else if i != l {
                            assert(nls[i] == base[i]);
                        }
                    }
                }
                proof {
                    // Disk bookkeeping: the image after this step is the
                    // previous image with this step's push and deletion
                    // applied, and the named files line up with it.
                    let nls = self.tables();
                    let img1 = self.files_image();
                    let newf = new_files@.last();
                    let nf_app1 = new_files@.skip(nf0);
                    let del_app1 = deleted_files@.skip(del0);
                    let block = deleted_files@.skip(pre_del.len() as int);
                    assert(newf.level == l + 1 && newf.slot == slot);
                    assert(newf.data@ == mdata@ && newf.index@ == mindex@);
                    assert(merged.file_content() == mdata@);
                    assert(nf_app1.drop_last() =~= nf_app0);
                    assert(nf_app1.last() == newf);
                    assert(push_files(start_files, nf_app1) == push_file(pf0, newf));
                    assert(del_app1 =~= del_app0 + block);
                    assert(block.len() == count);
                    assert forall|t: int|
                        0 <= t < block.len() implies (#[trigger] block[t]).0 == l && block[t].1
                        == t by {
                        assert(block[t] == deleted_files@[pre_del.len() + t]);
                    }
                    // Relate the ghost push target to the engine.
                    assert((newf.level as int) <= pf0.len());
                    if !extended {
                        lemma_clear_levels_untouched(pf0, del_app0, l + 1);
                        assert(pf0[l + 1] == img0[l + 1]);
                    }
                    lemma_clear_levels_untouched(pf0, del_app0, l as int);
                    assert(pf0[l as int] == img0[l as int]);
                    assert(img0[l as int].len() == count);
                    // slot naming for this push
                    assert(slot_named(pf0, newf)) by {
                        if extended {
                            assert(base[l + 1].len() == 0);
                            assert(slot == 0);
                        } else {
                            assert(base[l + 1] == tables0[l + 1]);
                            assert(slot == tables0[l + 1].len());
                            assert(img0[l + 1].len() == tables0[l + 1].len());
                        }
                    }
                    assert(slots_named(start_files, nf_app1));
                    // this push's file contents are coherent
                    assert(file_well_formed(newf));
                    // the transition equation
                    lemma_clear_levels_concat(push_file(pf0, newf), del_app0, block);
                    lemma_clear_push_commute(pf0, del_app0, newf);
                    lemma_clear_same_level(push_file(img0, newf), block, l as int);
                    assert(updated_files(start_files, nf_app1, del_app1) == clear_level(
                        push_file(img0, newf),
                        l as int,
                    ));
                    let target = clear_level(push_file(img0, newf), l as int);
                    assert(img1.len() == nls.len());
                    assert forall|i: int| 0 <= i < nls.len() implies #[trigger] img1[i].len()
                        == nls[i].len() by {}
                    assert forall|i: int, j: int|
                        0 <= i < nls.len() && 0 <= j < nls[i].len() implies #[trigger] img1[i][j]
                        == nls[i][j].file_content() by {}
                    assert(img1.len() == target.len());
                    assert forall|i: int| 0 <= i < target.len() implies img1[i] == target[i] by {
                        if i == l {
                            assert(nls[i].len() == 0);
                            assert(img1[i] =~= target[i]);
                        } else if i == l + 1 {
                            assert(nls[i] =~= base[i].push(merged));
                            if extended {
                                assert(base[i].len() == 0);
                                assert(target[i] == seq![newf.data@]);
                                assert(img1[i] =~= target[i]);
                            } else {
                                assert(base[i] == tables0[i]);
                                assert(target[i] == img0[i].push(newf.data@));
                                assert(img1[i].len() == target[i].len());
                                assert forall|j: int|
                                    0 <= j < img1[i].len() implies img1[i][j] == target[i][j] by {
                                    if j < img1[i].len() - 1 {
                                        assert(nls[i][j] == tables0[i][j]);
                                        assert(img0[i][j] == tables0[i][j].file_content());
                                    } else {
                                        assert(nls[i][j] == merged);
                                    }
                                }
                                assert(img1[i] =~= target[i]);
                            }
                        } else {
                            assert(nls[i] == base[i]);
                            if extended && i < pre_push.len() || !extended {
                                assert(base[i] == tables0[i]);
                            }
                            assert(target[i] == img0[i]);
                            assert(img1[i].len() == nls[i].len());
                            assert(img1[i] =~= img0[i]);
                        }
                    }
                    assert(img1 =~= target);
                    assert(self.files_image() == updated_files(
                        start_files,
                        new_files@.skip(nf0),
                        deleted_files@.skip(del0),
                    ));
                    // deletion naming: old pairs keep their facts, the new
                    // block names this level's files
                    let pf1 = push_files(start_files, nf_app1);
                    assert forall|j: int|
                        del0 <= j < deleted_files@.len() implies {
                            &&& ((#[trigger] deleted_files@[j]).0 as int) < l + 1
                            &&& (deleted_files@[j].0 as int) < self.tables().len()
                            &&& self.tables()[deleted_files@[j].0 as int].len() == 0
                            &&& deleted_files@[j].1 < pf1[deleted_files@[j].0 as int].len()
                        } by {
                        if j < pre_del.len() {
                            assert(deleted_files@[j] == pre_del[j]);
                            assert(pre_del[j] == del_app0[j - del0]);
                            let dl = deleted_files@[j].0 as int;
                            assert(dl < l);
                            lemma_push_file_untouched(pf0, newf, dl);
                            assert(pf1[dl] == pf0[dl]);
                            assert(nls[dl] == base[dl]);
                            assert(base[dl] == tables0[dl]);
                        } else {
                            let t = j - pre_del.len();
                            assert(deleted_files@[pre_del.len() + t].0 == l && deleted_files@[
                            pre_del.len() + t].1 == t);
                            assert(t < count);
                            lemma_push_file_untouched(pf0, newf, l as int);
                            assert(pf1[l as int] == pf0[l as int]);
                        }
                    }
                    // prefix of the caller's deletions is untouched
                    assert(deleted_files@.take(del0) =~= old(deleted_files)@) by {
                        assert forall|j: int|
                            0 <= j < del0 implies deleted_files@.take(del0)[j] == old(
                        deleted_files)@[j] by {
                            assert(deleted_files@[j] == pre_del[j]);
                            assert(pre_del[j] == pre_del.take(del0)[j]);
                        }
                    }
                    // levels processed so far stay below the threshold
                    assert forall|i: int|
                        0 <= i < l + 1 implies (#[trigger] self.tables()[i]).len()
                        < self.compaction_threshold by {
                        if i < l {
                            assert(nls[i] == base[i]);
                            assert(base[i] == tables0[i]);
                        } else {
                            assert(nls[l as int].len() == 0);
                        }
                    }
                }
            } else {
                proof {
                    assert forall|i: int|
                        0 <= i < l + 1 implies (#[trigger] self.tables()[i]).len()
                        < self.compaction_threshold by {}
                }
            }
            l += 1;
        }
        proof {
            let del_app = deleted_files@.skip(del0);
            let pf = push_files(start_files, new_files@.skip(nf0));
            assert forall|j: int|
                0 <= j < del_app.len() implies {
                    &&& ((#[trigger] del_app[j]).0 as int) < self.tables().len()
                    &&& self.tables()[del_app[j].0 as int].len() == 0
                    &&& (del_app[j].0 as int) < pf.len()
                    &&& del_app[j].1 < pf[del_app[j].0 as int].len()
                } by {
                assert(del_app[j] == deleted_files@[del0 + j]);
                lemma_clear_levels_len(pf, del_app);
                assert(self.files_image().len() == pf.len());
                assert(self.files_image().len() == self.tables().len());
            }
            assert(deletions_named(pf, self.tables(), del_app));
        }
    }

    /// The number of levels.
    pub fn level_count(&self) -> (n: usize)
        ensures
            n == self.tables().len(),
    {
        self.levels.len()
    }

    /// The number of tables at level `l`.
    pub fn level_len(&self, l: usize) -> (n: usize)
        requires
            l < self.tables().len(),
        ensures
            n == self.tables()[l as int].len(),
    {
        self.levels[l].len()
    }

    /// Replaying the current log content rebuilds the MemTable's map.
    proof fn lemma_wal_replay(&self, k: Seq<char>)
        requires
            self.wf(),
        ensures
            assoc(parse_records(self.wal_image()), k) == assoc(self.mem(), k),
    {
        lemma_parse_encode_records(self.wal@);
    }

    /// Reloading the current data file contents rebuilds the levels' maps.
    proof fn lemma_files_reload(&self, k: Seq<char>)
        requires
            self.wf(),
        ensures
            files_find(self.files_image(), k) == levels_find(self.tables(), k),
    {
        let ls = self.tables();
        let files = self.files_image();
        assert forall|i: int, j: int|
            0 <= i < files.len() && 0 <= j < files[i].len() implies (#[trigger] ls[i][j])@
            == parse_records(files[i][j]) by {
            assert(ls[i][j].wf());
            assert(files[i][j] == ls[i][j].file_content());
            lemma_parse_encode_records(ls[i][j]@);
        }
        lemma_levels_as_files(ls, files, k);
    }

    /// Every data file content the engine holds loads back.
    proof fn lemma_files_loadable(&self)
        requires
            self.wf(),
        ensures
            all_loadable(self.files_image()),
    {
        let ls = self.tables();
        let files = self.files_image();
        assert forall|l: int, s: int|
            0 <= l < files.len() && 0 <= s < files[l].len() implies loadable(
            #[trigger] files[l][s],
        ) by {
            assert(ls[l][s].wf());
            assert(files[l][s] == ls[l][s].file_content());
            lemma_parse_encode_records(ls[l][s]@);
        }
    }
}

/// Levels whose tables hold exactly the parsed contents answer lookups as
/// the contents do.
proof fn lemma_tables_as_contents(ts: Seq<SSTable>, cs: Seq<Seq<char>>, k: Seq<char>)
    requires
        ts.len() == cs.len(),
        forall|j: int| 0 <= j < ts.len() ==> (#[trigger] ts[j])@ == parse_records(cs[j]),
    ensures
        tables_find(ts, k) == contents_find(cs, k),
    decreases ts.len(),
{
    if ts.len() > 0 {
        assert(ts.last()@ == parse_records(cs.last()));
        assert forall|j: int| 0 <= j < ts.len() - 1 implies (#[trigger] ts.drop_last()[j])@
            == parse_records(cs.drop_last()[j]) by {
            assert(ts.drop_last()[j] == ts[j]);
        }
        lemma_tables_as_contents(ts.drop_last(), cs.drop_last(), k);
    }
}

/// The records of a level's tables, oldest table first, in table order.
pub open spec fn flatten_tables(ts: Seq<SSTable>) -> Seq<SpecRecord>
    decreases ts.len(),
{
    if ts.len() == 0 {
        Seq::empty()
    } else {
        flatten_tables(ts.drop_last()) + ts.last()@
    }
}

/// A newly appended table is the newest and is consulted first.
proof fn lemma_tables_find_push(ts: Seq<SSTable>, t: SSTable, k: Seq<char>)
    ensures
        tables_find(ts.push(t), k) == match assoc(t@, k) {
            Some(v) => Some(v),
            None => tables_find(ts, k),
        },
{
    assert(ts.push(t).last() == t);
    assert(ts.push(t).drop_last() =~= ts);
}

/// Probing tables newest-first returns what the concatenation of their
/// records, oldest first with later records winning, associates.
proof fn lemma_tables_find_flatten(ts: Seq<SSTable>, k: Seq<char>)
    ensures
        tables_find(ts, k) == assoc(flatten_tables(ts), k),
    decreases ts.len(),
{
    if ts.len() == 0 {
    } else {
        lemma_tables_find_flatten(ts.drop_last(), k);
        crate::codec::lemma_assoc_concat(flatten_tables(ts.drop_last()), ts.last()@, k);
    }
}

/// An empty level at the bottom of the tree answers nothing.
proof fn lemma_levels_find_push_empty(ls: Seq<Seq<SSTable>>, e: Seq<SSTable>, k: Seq<char>)
    requires
        e.len() == 0,
    ensures
        levels_find(ls.push(e), k) == levels_find(ls, k),
    decreases ls.len(),
{
    if ls.len() == 0 {
        assert(ls.push(e)[0] == e);
        assert(tables_find(e, k) is None);
        assert(ls.push(e).drop_first() =~= Seq::<Seq<SSTable>>::empty());
    } else {
        assert(ls.push(e)[0] == ls[0]);
        assert(ls.push(e).drop_first() =~= ls.drop_first().push(e));
        lemma_levels_find_push_empty(ls.drop_first(), e, k);
    }
}

/// Compacting level `l` into level `l + 1` changes no lookup: the merged
/// table answers exactly as level `l` did, and it stands newest in level
/// `l + 1`, right where level `l` stood in the probe order.
proof fn lemma_levels_find_compact(
    ls: Seq<Seq<SSTable>>,
    nls: Seq<Seq<SSTable>>,
    l: int,
    m: SSTable,
    k: Seq<char>,
)
    requires
        0 <= l,
        l + 1 < ls.len(),
        nls.len() == ls.len(),
        forall|i: int| 0 <= i < ls.len() && i != l && i != l + 1 ==> nls[i] == ls[i],
        nls[l].len() == 0,
        nls[l + 1] == ls[l + 1].push(m),
        assoc(m@, k) == tables_find(ls[l], k),
    ensures
        levels_find(nls, k) == levels_find(ls, k),
    decreases l,
{
    if l == 0 {
        assert(tables_find(nls[0], k) is None);
        lemma_tables_find_push(ls[1], m, k);
        let nd = nls.drop_first();
        let d = ls.drop_first();
        assert(nd[0] == nls[1]);
        assert(d[0] == ls[1]);
        assert(nd.drop_first() =~= d.drop_first()) by {
            assert forall|i: int| 0 <= i < nd.drop_first().len() implies nd.drop_first()[i]
                == d.drop_first()[i] by {
                assert(nd.drop_first()[i] == nls[i + 2]);
                assert(d.drop_first()[i] == ls[i + 2]);
            }
        }
    } else {
        assert(nls[0] == ls[0]);
        let nd = nls.drop_first();
        let d = ls.drop_first();
        assert forall|i: int| 0 <= i < d.len() && i != l - 1 && i != l implies nd[i] == d[i] by {
            assert(nd[i] == nls[i + 1]);
            assert(d[i] == ls[i + 1]);
        }
        assert(nd[l - 1] == nls[l]);
        assert(nd[l] == nls[l + 1]);
        assert(d[l - 1] == ls[l]);
        assert(d[l] == ls[l + 1]);
        lemma_levels_find_compact(d, nd, l - 1, m, k);
    }
}

/// Restarting from the persistent state loses nothing: for any well-formed
/// engine, an engine rebuilt from its current write-ahead log content and
/// data file contents answers every lookup as the running engine does.  This
/// covers both a clean shutdown and a crash after a log append: either way
/// the log and the data files carry the whole state.
pub proof fn lemma_recovery(t: LSMTree, k: Seq<char>)
    requires
        t.wf(),
    ensures
        recovered_lookup(t.wal_image(), t.files_image(), k) == t.current(k),
        all_loadable(t.files_image()),
{
    t.lemma_wal_replay(k);
    t.lemma_files_reload(k);
    t.lemma_files_loadable();
}

/// A tree of loaded tables answers lookups as its files do.
proof fn lemma_levels_as_files(ls: Seq<Seq<SSTable>>, files: Seq<Seq<Seq<char>>>, k: Seq<char>)
    requires
        ls.len() == files.len() || (ls.len() == files.len() + 1 && ls.last().len() == 0
            && files.len() == 0),
        forall|i: int| 0 <= i < files.len() ==> (#[trigger] ls[i]).len() == files[i].len(),
        forall|i: int, j: int|
            0 <= i < files.len() && 0 <= j < files[i].len() ==> (#[trigger] ls[i][j])@
                == parse_records(files[i][j]),
    ensures
        levels_find(ls, k) == files_find(files, k),
    decreases ls.len(),
{
    if files.len() == 0 {
        if ls.len() == 1 {
            assert(tables_find(ls[0], k) is None);
        }
    } else {
        lemma_tables_as_contents(ls[0], files[0], k);
        assert forall|i: int| 0 <= i < files.len() - 1 implies (#[trigger] ls.drop_first()[
            i]).len() == files.drop_first()[i].len() by {
            assert(ls.drop_first()[i] == ls[i + 1]);
        }
        assert forall|i: int, j: int|
            0 <= i < files.drop_first().len() && 0 <= j < files.drop_first()[i].len() implies (
        #[trigger] ls.drop_first()[i][j])@ == parse_records(files.drop_first()[i][j]) by {
            assert(ls.drop_first()[i] == ls[i + 1]);
            assert(files.drop_first()[i] == files[i + 1]);
        }
        lemma_levels_as_files(ls.drop_first(), files.drop_first(), k);
    }
}

} // verus!
