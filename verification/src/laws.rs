//! The engine's laws, stated over its specification model.
//!
//! `LSMTree::write` promises a pointwise update of `current`, and
//! `LSMTree::read` returns exactly `visible`.  These lemmas state what
//! follows for whole histories: what one write, a delete, or a chain of
//! writes makes every later read return — whether or not a flush or a
//! compaction ran in between, since `write`'s promise does not depend on
//! that — and what merging preserves.

use crate::codec::{assoc, parse_records, SpecRecord};
use crate::lsm_tree::{lemma_recovery, recovered_lookup, LSMTree};
use crate::order::{
    lemma_lex_lt_irrefl, lemma_lex_lt_ne, lemma_lex_lt_trans, lex_lt, sorted_keys,
};
use crate::ss_table::all_records;
use vstd::prelude::*;

verus! {

/// A key that is found is the key of some record.
proof fn lemma_assoc_present(rs: Seq<SpecRecord>, k: Seq<char>)
    requires
        assoc(rs, k) is Some,
    ensures
        exists|i: int| 0 <= i < rs.len() && (#[trigger] rs[i]).0 == k,
    decreases rs.len(),
{
    if rs.last().0 == k {
        assert(rs[rs.len() - 1].0 == k);
    } else {
        lemma_assoc_present(rs.drop_last(), k);
        let i = choose|i: int| 0 <= i < rs.drop_last().len() && (#[trigger] rs.drop_last()[i]).0
            == k;
        assert(rs[i].0 == k);
    }
}

/// In a sorted sequence the records before the last do not hold its key.
proof fn lemma_sorted_drop_last_absent(rs: Seq<SpecRecord>)
    requires
        sorted_keys(rs),
        rs.len() > 0,
    ensures
        assoc(rs.drop_last(), rs.last().0) is None,
{
    assert forall|i: int| 0 <= i < rs.drop_last().len() implies (#[trigger] rs.drop_last()[i]).0
        != rs.last().0 by {
        assert(rs.drop_last()[i] == rs[i]);
        assert(rs.last() == rs[rs.len() - 1]);
        assert(lex_lt(rs[i].0, rs[rs.len() - 1].0));
        lemma_lex_lt_ne(rs[i].0, rs.last().0);
    }
    crate::codec::lemma_assoc_absent(rs.drop_last(), rs.last().0);
}

/// In a sorted sequence, a key that is found is at most the last key.
proof fn lemma_sorted_found_below_last(rs: Seq<SpecRecord>, k: Seq<char>)
    requires
        sorted_keys(rs),
        rs.len() > 0,
        assoc(rs, k) is Some,
        k != rs.last().0,
    ensures
        lex_lt(k, rs.last().0),
{
    lemma_assoc_present(rs, k);
    let i = choose|i: int| 0 <= i < rs.len() && (#[trigger] rs[i]).0 == k;
    assert(rs.last() == rs[rs.len() - 1]);
    assert(i < rs.len() - 1);
    assert(lex_lt(rs[i].0, rs[rs.len() - 1].0));
}

/// A sorted sequence of records is determined by its association: the
/// contracts that pin a file's records as sorted with a given map therefore
/// pin the records, and with canonical encoding the file content, exactly.
pub proof fn lemma_sorted_assoc_unique(a: Seq<SpecRecord>, b: Seq<SpecRecord>)
    requires
        sorted_keys(a),
        sorted_keys(b),
        forall|k: Seq<char>| #[trigger] assoc(a, k) == assoc(b, k),
    ensures
        a == b,
    decreases a.len(),
{
    if a.len() == 0 && b.len() == 0 {
        assert(a =~= b);
    } else if a.len() == 0 {
        assert(assoc(b, b.last().0) is Some);
        assert(assoc(a, b.last().0) is None);
    } else if b.len() == 0 {
        assert(assoc(a, a.last().0) is Some);
        assert(assoc(b, a.last().0) is None);
    } else {
        let ka = a.last().0;
        let kb = b.last().0;
        assert(assoc(a, ka) is Some);
        assert(assoc(b, kb) is Some);
        if ka != kb {
            lemma_sorted_found_below_last(b, ka);
            lemma_sorted_found_below_last(a, kb);
            lemma_lex_lt_trans(ka, kb, ka);
            lemma_lex_lt_irrefl(ka);
        }
        assert(a.last().1 == b.last().1) by {
            assert(assoc(a, ka) == Some(a.last().1));
            assert(assoc(b, ka) == Some(b.last().1));
        }
        lemma_sorted_drop_last_absent(a);
        lemma_sorted_drop_last_absent(b);
        let a1 = a.drop_last();
        let b1 = b.drop_last();
        assert forall|i: int, j: int| 0 <= i < j < a1.len() implies lex_lt(
            a1[i].0,
            a1[j].0,
        ) by {
            assert(a1[i] == a[i] && a1[j] == a[j]);
        }
        assert forall|i: int, j: int| 0 <= i < j < b1.len() implies lex_lt(
            b1[i].0,
            b1[j].0,
        ) by {
            assert(b1[i] == b[i] && b1[j] == b[j]);
        }
        assert forall|k: Seq<char>| #[trigger] assoc(a1, k) == assoc(b1, k) by {
            if k == ka {
            } else {
                assert(assoc(a, k) == assoc(a1, k));
                assert(assoc(b, k) == assoc(b1, k));
            }
        }
        lemma_sorted_assoc_unique(a1, b1);
        assert(a.len() == b.len());
        assert(a.last() == b.last());
        assert forall|i: int| 0 <= i < a.len() implies a[i] == b[i] by {
            if i < a.len() - 1 {
                assert(a1[i] == a[i]);
                assert(b1[i] == b[i]);
            } else {
                assert(a[i] == a.last());
                assert(b[i] == b.last());
            }
        }
        assert(a =~= b);
    }
}

/// After a successful write of a non-empty value, an immediate read of the
/// key returns that value.  The hypothesis is exactly what `write` ensures
/// of the engine before (`t1`) and after (`t2`); the conclusion is what
/// `read` then returns.
pub proof fn lemma_write_then_read(t1: LSMTree, t2: LSMTree, key: Seq<char>, v: Seq<char>)
    requires
        forall|k: Seq<char>|
            #[trigger] t2.current(k) == if k == key {
                Some(v)
            } else {
                t1.current(k)
            },
        v.len() > 0,
    ensures
        t2.visible(key) == Some(v),
{
}

/// After a successful delete (a write of the empty value), an immediate
/// read of the key returns "not found".
pub proof fn lemma_delete_then_read(t1: LSMTree, t2: LSMTree, key: Seq<char>)
    requires
        forall|k: Seq<char>|
            #[trigger] t2.current(k) == if k == key {
                Some(Seq::<char>::empty())
            } else {
                t1.current(k)
            },
    ensures
        t2.visible(key) is None,
{
}

/// Writing `v1` and then `v2` under one key leaves `v2` visible, and every
/// other key untouched — whatever flushes or compactions the two writes
/// performed, since `write`'s promise already accounts for them.
pub proof fn lemma_latest_write_wins(
    t1: LSMTree,
    t2: LSMTree,
    t3: LSMTree,
    key: Seq<char>,
    v1: Seq<char>,
    v2: Seq<char>,
)
    requires
        forall|k: Seq<char>|
            #[trigger] t2.current(k) == if k == key {
                Some(v1)
            } else {
                t1.current(k)
            },
        forall|k: Seq<char>|
            #[trigger] t3.current(k) == if k == key {
                Some(v2)
            } else {
                t2.current(k)
            },
        v2.len() > 0,
    ensures
        t3.visible(key) == Some(v2),
        forall|k: Seq<char>| k != key ==> #[trigger] t3.visible(k) == t1.visible(k),
{
}

/// A key written, deleted, and written again returns the latest value.
pub proof fn lemma_rewrite_after_delete(
    t1: LSMTree,
    t2: LSMTree,
    t3: LSMTree,
    t4: LSMTree,
    key: Seq<char>,
    v1: Seq<char>,
    v2: Seq<char>,
)
    requires
        forall|k: Seq<char>|
            #[trigger] t2.current(k) == if k == key {
                Some(v1)
            } else {
                t1.current(k)
            },
        forall|k: Seq<char>|
            #[trigger] t3.current(k) == if k == key {
                Some(Seq::<char>::empty())
            } else {
                t2.current(k)
            },
        forall|k: Seq<char>|
            #[trigger] t4.current(k) == if k == key {
                Some(v2)
            } else {
                t3.current(k)
            },
        v2.len() > 0,
    ensures
        t4.visible(key) == Some(v2),
{
}

/// In a batch of records with pairwise distinct keys, every key is
/// associated with its own value: writing distinct keys and reading them
/// back returns each original value, since the engine's `current` follows
/// `assoc` of the written records.
pub proof fn lemma_distinct_keys_all_found(rs: Seq<SpecRecord>, i: int)
    requires
        forall|a: int, b: int|
            0 <= a < b < rs.len() ==> (#[trigger] rs[a]).0 != (#[trigger] rs[b]).0,
        0 <= i < rs.len(),
    ensures
        assoc(rs, rs[i].0) == Some(rs[i].1),
    decreases rs.len(),
{
    if i == rs.len() - 1 {
        assert(rs.last() == rs[i]);
    } else {
        assert(rs.last() == rs[rs.len() - 1]);
        assert(rs[i].0 != rs.last().0);
        assert(rs.drop_last()[i] == rs[i]);
        assert forall|a: int, b: int|
            0 <= a < b < rs.drop_last().len() implies (#[trigger] rs.drop_last()[a]).0 != (
        #[trigger] rs.drop_last()[b]).0 by {
            assert(rs.drop_last()[a] == rs[a]);
            assert(rs.drop_last()[b] == rs[b]);
        }
        lemma_distinct_keys_all_found(rs.drop_last(), i);
    }
}

/// Restarting yields the same read results for every key: an engine built
/// back from a running engine's write-ahead log content and data file
/// contents — which is what `LSMTree::new` promises of its result — answers
/// every read as the running engine did.  The log carries every accepted
/// write until a flush makes its records durable in a table, so this holds
/// after a clean shutdown and equally after a crash between a log append and
/// the next flush.
pub proof fn lemma_restart_preserves_reads(t: LSMTree, t2: LSMTree, k: Seq<char>)
    requires
        t.wf(),
        forall|q: Seq<char>|
            #[trigger] t2.current(q) == recovered_lookup(t.wal_image(), t.files_image(), q),
    ensures
        t2.visible(k) == t.visible(k),
{
    lemma_recovery(t, k);
}

/// Merging two data files oldest-first keeps the newer version: where the
/// newer file holds `(k, v_new)`, the merged records associate `k` with
/// `v_new`, whatever the older file held.  Together with `SSTable::merge`'s
/// contract this says the merged table reads back `v_new`.
pub proof fn lemma_merge_newest_wins(older: Seq<char>, newer: Seq<char>, k: Seq<char>, v_new: Seq<char>)
    requires
        assoc(parse_records(newer), k) == Some(v_new),
    ensures
        assoc(all_records(seq![older, newer]), k) == Some(v_new),
{
    let cs = seq![older, newer];
    assert(cs.drop_last() =~= seq![older]);
    assert(cs.last() == newer);
    crate::codec::lemma_assoc_concat(all_records(cs.drop_last()), parse_records(newer), k);
}

} // verus!
