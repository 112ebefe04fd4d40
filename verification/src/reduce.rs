//! The reducer's merge step: fold one worker-local table into another by an
//! associative, commutative per-bucket merge.

use vstd::prelude::*;

use crate::measurement::{stats_merge, Measurement, StatsModel};
use crate::model::{table_merge, TableModel};
use crate::table::{table_contents, AggTable};

verus! {

/// Merge one bucket into a table model under its key.
pub open spec fn merge_one(m: TableModel, k: Seq<u8>, t: StatsModel) -> TableModel {
    if m.dom().contains(k) {
        m.insert(k, stats_merge(m[k], t))
    } else {
        m.insert(k, t)
    }
}

/// Fold a sequence of entries into a table model, one bucket at a time.
pub open spec fn merge_entries(m: TableModel, es: Seq<(Vec<u8>, Measurement)>) -> TableModel
    decreases es.len(),
{
    if es.len() == 0 {
        m
    } else {
        merge_one(merge_entries(m, es.drop_last()), es.last().0@, es.last().1@)
    }
}

/// Folding entries that never mention a key leaves that key alone.
pub proof fn lemma_merge_entries_frame(m: TableModel, es: Seq<(Vec<u8>, Measurement)>, k: Seq<u8>)
    requires
        forall|i: int| 0 <= i < es.len() ==> (#[trigger] es[i].0)@ != k,
    ensures
        merge_entries(m, es).dom().contains(k) == m.dom().contains(k),
        m.dom().contains(k) ==> merge_entries(m, es)[k] == m[k],
    decreases es.len(),
{
    if es.len() > 0 {
        lemma_merge_entries_frame(m, es.drop_last(), k);
    }
}

/// Folding in the entries of a table, each key exactly once, merges the
/// tables.
pub proof fn lemma_merge_entries_correct(
    m: TableModel,
    es: Seq<(Vec<u8>, Measurement)>,
    c: TableModel,
)
    requires
        forall|i: int, j: int|
            #![trigger es[i], es[j]]
            0 <= i < j < es.len() ==> es[i].0@ != es[j].0@,
        forall|i: int| 0 <= i < es.len() ==> #[trigger] c.contains_pair(es[i].0@, es[i].1@),
        forall|k: Seq<u8>| #[trigger] c.dom().contains(k) ==> exists|i: int|
            0 <= i < es.len() && es[i].0@ == k,
    ensures
        merge_entries(m, es) == table_merge(m, c),
    decreases es.len(),
{
    if es.len() == 0 {
        assert forall|k: Seq<u8>| !(#[trigger] c.dom().contains(k)) by {
            if c.dom().contains(k) {
                let i = choose|i: int| 0 <= i < es.len() && es[i].0@ == k;
                assert(false);
            }
        }
        assert(table_merge(m, c) =~= m);
    } else {
        let e = es.last();
        let k = e.0@;
        let es2 = es.drop_last();
        let c2 = c.remove(k);
        assert(c.contains_pair(k, e.1@));
        assert forall|i: int| 0 <= i < es2.len() implies #[trigger] c2.contains_pair(
            es2[i].0@,
            es2[i].1@,
        ) by {
            assert(es[i] == es2[i]);
            assert(es[i].0@ != k);
            assert(c.contains_pair(es[i].0@, es[i].1@));
        }
        assert forall|kk: Seq<u8>| #[trigger] c2.dom().contains(kk) implies exists|i: int|
            0 <= i < es2.len() && es2[i].0@ == kk by {
            let i = choose|i: int| 0 <= i < es.len() && es[i].0@ == kk;
            assert(i < es.len() - 1);
            assert(es2[i] == es[i]);
        }
        lemma_merge_entries_correct(m, es2, c2);
        assert(merge_one(table_merge(m, c2), k, e.1@) =~= table_merge(m, c));
    }
}

/// Merge the second table's buckets into the first: afterwards the first
/// holds the bucketwise merge of both tables.
#[verifier::loop_isolation(false)]
pub fn merge(map_one: &mut AggTable, map_two: &AggTable)
    requires
        forall|k: Seq<u8>|
            table_contents(*old(map_one)).dom().contains(k) && #[trigger] table_contents(
                *map_two,
            ).dom().contains(k) ==> i64::MIN <= table_contents(*old(map_one))[k].2
                + table_contents(*map_two)[k].2 <= i64::MAX && i64::MIN <= table_contents(
                *old(map_one),
            )[k].3 + table_contents(*map_two)[k].3 <= i64::MAX,
    ensures
        table_contents(*final(map_one)) == table_merge(
            table_contents(*old(map_one)),
            table_contents(*map_two),
        ),
{
    let ghost c1 = table_contents(*map_one);
    let ghost c2 = table_contents(*map_two);
    let entries = map_two.entries();
    let ghost es = entries@;
    let mut idx: usize = 0;
    while idx < entries.len()
        invariant
            0 <= idx <= es.len(),
            entries@ == es,
            table_contents(*map_one) == merge_entries(c1, es.take(idx as int)),
        decreases es.len() - idx,
    {
        let ghost k = es[idx as int].0@;
        proof {
            assert(forall|i: int| 0 <= i < idx ==> (#[trigger] es.take(idx as int)[i].0)@ != k);
            lemma_merge_entries_frame(c1, es.take(idx as int), k);
            assert(c2.contains_pair(k, es[idx as int].1@));
        }
        match map_one.get_copy(entries[idx].0.as_slice()) {
            Some(m) => {
                let mut bucket = m;
                bucket.merge(&entries[idx].1);
                map_one.set(entries[idx].0.as_slice(), bucket);
            },
            None => {
                map_one.set(entries[idx].0.as_slice(), entries[idx].1);
            },
        }
        proof {
            assert(es.take(idx + 1).drop_last() =~= es.take(idx as int));
            assert(es.take(idx + 1).last() == es[idx as int]);
        }
        idx = idx + 1;
    }
    proof {
        assert(es.take(es.len() as int) =~= es);
        lemma_merge_entries_correct(c1, es, c2);
    }
}

} // verus!
