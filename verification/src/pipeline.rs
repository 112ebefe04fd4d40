//! The one-shot pipeline: plan line-aligned chunks, scan each chunk into a
//! worker-local table, merge the local tables, order the keys by raw bytes,
//! and render the report. The result is a function of the input bytes alone:
//! any worker count from one upward produces the same report.

use vstd::prelude::*;
use vstd::utf8::valid_utf8;

use crate::model::{
    chunk_agg, empty_table, file_agg, lemma_chunk_agg_dom, lemma_chunk_agg_merge,
    lemma_chunk_split, lemma_num_records_nonneg, lemma_table_merge_bounded,
    lemma_total_abs_nonneg, num_records, table_bounded, total_abs, wf_input, TableModel,
};
use crate::order::{
    entry_views, lemma_sorted_represents_unique, represents, sort_entries, sorted_entry_keys,
    sorted_view,
};
use crate::planner::find_chunk_boundaries;
use crate::reduce::merge;
use crate::render::{format_report, keys_utf8, report_chars, BrcError};
use crate::scan::scan_ascii_chunk;
use crate::table::{table_contents, AggTable};

verus! {

/// Every station key of the table decodes as UTF-8.
pub open spec fn table_keys_utf8(m: TableModel) -> bool {
    forall|k: Seq<u8>| #[trigger] m.dom().contains(k) ==> valid_utf8(k)
}

/// The canonical report of an input: its aggregate, ordered by raw station
/// bytes, rendered with one fractional digit per field.
pub open spec fn report_of(s: Seq<u8>) -> Seq<char> {
    report_chars(sorted_view(file_agg(s)))
}

/// Run the whole pipeline over an in-memory input with the given worker
/// count. Succeeds with the canonical report exactly when every station key
/// is valid UTF-8; the report depends only on the input bytes, never on the
/// worker count.
#[verifier::loop_isolation(false)]
#[verifier::rlimit(80)]
pub fn brc(buffer: &[u8], worker_count: usize) -> (r: Result<String, BrcError>)
    requires
        worker_count >= 1,
        wf_input(buffer@),
        num_records(buffer@, 0, buffer@.len() as int) >= 1,
    ensures
        (r is Ok) <==> table_keys_utf8(file_agg(buffer@)),
        r matches Ok(out) ==> out@ == report_of(buffer@),
{
    let ghost s = buffer@;
    let ghost len = s.len() as int;
    let ghost t_all = total_abs(s, 0, len);
    let ghost n_all = num_records(s, 0, len);
    let ghost bnd = i32::MAX as int;

    let bounds = find_chunk_boundaries(buffer, worker_count);
    let mut global = AggTable::new();
    let ghost mut done: int = 0;
    let mut w: usize = 0;
    while w < worker_count
        invariant
            0 <= w <= worker_count,
            0 <= done <= len,
            w == 0 ==> done == 0,
            w >= 1 ==> done == bounds@[w - 1].1,
            table_contents(global) == chunk_agg(empty_table(), s, 0, done),
            table_bounded(table_contents(global), total_abs(s, 0, done), num_records(s, 0, done)),
            crate::model::wf_records(s, done, len),
            crate::model::vals_bounded(s, done, len, bnd),
            total_abs(s, 0, len) == total_abs(s, 0, done) + total_abs(s, done, len),
            num_records(s, 0, len) == num_records(s, 0, done) + num_records(s, done, len),
        decreases worker_count - w,
    {
        let pair = bounds[w];
        let cs = pair.0;
        let ce = pair.1;
        proof {
            assert(cs as int == done);
            // The chunk's end is a record boundary of the remaining range.
            lemma_chunk_split(empty_table(), s, done, ce as int, len, bnd);
            lemma_total_abs_nonneg(s, 0, done);
            lemma_total_abs_nonneg(s, done, ce as int);
            lemma_total_abs_nonneg(s, ce as int, len);
            lemma_num_records_nonneg(s, 0, done);
            lemma_num_records_nonneg(s, done, ce as int);
            lemma_num_records_nonneg(s, ce as int, len);
        }
        let local = scan_ascii_chunk(cs, ce, buffer);
        let ghost g0 = table_contents(global);
        let ghost l0 = table_contents(local);
        let ghost a0 = total_abs(s, 0, done);
        let ghost n0 = num_records(s, 0, done);
        let ghost a1 = total_abs(s, done, ce as int);
        let ghost n1 = num_records(s, done, ce as int);
        proof {
            assert(a0 + a1 + total_abs(s, ce as int, len) == t_all);
            assert(n0 + n1 + num_records(s, ce as int, len) == n_all);
            assert forall|k: Seq<u8>|
                g0.dom().contains(k) && #[trigger] l0.dom().contains(k) implies i64::MIN <= g0[k].2
                + l0[k].2 <= i64::MAX && i64::MIN <= g0[k].3 + l0[k].3 <= i64::MAX by {
                assert(-a0 <= g0[k].2 <= a0);
                assert(-a1 <= l0[k].2 <= a1);
            }
        }
        merge(&mut global, &local);
        proof {
            lemma_table_merge_bounded(g0, a0, n0, l0, a1, n1);
            // The merged table is the aggregate of everything up to `ce`.
            lemma_chunk_agg_merge(g0, s, done, ce as int);
            lemma_chunk_split(empty_table(), s, 0, ce as int, len, bnd);
            lemma_chunk_split(empty_table(), s, 0, done, ce as int, bnd);
            assert(table_contents(global) == chunk_agg(empty_table(), s, 0, ce as int));
            // Remaining-range facts for the next round.
            lemma_chunk_split(empty_table(), s, ce as int, len, len, bnd);
            done = ce as int;
        }
        w = w + 1;
    }
    proof {
        assert(done == bounds@[worker_count - 1].1);
        assert(done == len);
    }
    let entries = global.entries();
    let ghost m = table_contents(global);
    proof {
        let vs = entry_views(entries@);
        assert forall|i: int, j: int|
            #![trigger vs[i], vs[j]]
            0 <= i < vs.len() && 0 <= j < vs.len() && i != j implies vs[i].0 != vs[j].0 by {
            if i < j {
                assert(entries@[i].0@ != entries@[j].0@);
            } else {
                assert(entries@[j].0@ != entries@[i].0@);
            }
        }
        assert forall|i: int| 0 <= i < vs.len() implies #[trigger] m.contains_pair(
            vs[i].0,
            vs[i].1,
        ) by {
            assert(m.contains_pair(entries@[i].0@, entries@[i].1@));
        }
        assert forall|k: Seq<u8>| #[trigger] m.dom().contains(k) implies exists|i: int|
            0 <= i < vs.len() && vs[i].0 == k by {
            let i = choose|i: int| 0 <= i < entries@.len() && entries@[i].0@ == k;
            assert(vs[i].0 == k);
        }
        assert(represents(vs, m));
        // The table is not empty: the first record's key is in it.
        lemma_chunk_agg_dom(empty_table(), s, 0, len);
        assert(0 < len);
        assert(m.dom().contains(crate::model::rec_key(s, 0, len)));
        assert(entries@.len() >= 1);
    }
    let sorted = sort_entries(entries);
    proof {
        let vs0 = entry_views(entries@);
        let vs = entry_views(sorted@);
        assert forall|i: int| 0 <= i < vs.len() implies #[trigger] m.contains_pair(
            vs[i].0,
            vs[i].1,
        ) by {
            assert(vs0.contains(vs[i]));
            let j = choose|j: int| 0 <= j < vs0.len() && vs0[j] == vs[i];
            assert(m.contains_pair(vs0[j].0, vs0[j].1));
        }
        assert forall|k: Seq<u8>| #[trigger] m.dom().contains(k) implies exists|i: int|
            0 <= i < vs.len() && vs[i].0 == k by {
            let j = choose|j: int| 0 <= j < vs0.len() && vs0[j].0 == k;
            assert(vs.contains(vs0[j]));
            let i = choose|i: int| 0 <= i < vs.len() && vs[i] == vs0[j];
            assert(vs[i].0 == k);
        }
        assert(represents(vs, m));
        // It is the one sorted representation of the table.
        assert(sorted_entry_keys(sorted_view(m)) && represents(sorted_view(m), m)) by {
            assert(sorted_entry_keys(vs) && represents(vs, m));
        }
        lemma_sorted_represents_unique(vs, sorted_view(m), m);
        assert(vs == sorted_view(m));
        // Bounds feed the renderer's preconditions.
        assert forall|i: int| 0 <= i < sorted@.len() implies (#[trigger] sorted@[i]).1@.3 >= 1
            && sorted@[i].1@.0 > i64::MIN && sorted@[i].1@.1 > i64::MIN && sorted@[i].1@.2
            > i64::MIN by {
            assert(m.contains_pair(vs[i].0, vs[i].1));
            assert(m.dom().contains(vs[i].0));
            assert(-t_all <= m[vs[i].0].0 <= t_all);
            assert(t_all <= i64::MAX);
        }
        assert(sorted@.len() >= 1);
    }
    let result = format_report(&sorted);
    proof {
        let vs = entry_views(sorted@);
        // Key validity of the entry list is key validity of the table.
        assert(keys_utf8(vs) <==> table_keys_utf8(m)) by {
            if keys_utf8(vs) {
                assert forall|k: Seq<u8>| #[trigger] m.dom().contains(k) implies valid_utf8(k) by {
                    let i = choose|i: int| 0 <= i < vs.len() && vs[i].0 == k;
                    assert(valid_utf8(vs[i].0));
                }
            }
            if table_keys_utf8(m) {
                assert forall|i: int| 0 <= i < vs.len() implies valid_utf8(
                    (#[trigger] vs[i]).0,
                ) by {
                    assert(m.contains_pair(vs[i].0, vs[i].1));
                    assert(m.dom().contains(vs[i].0));
                }
            }
        }
        assert(m == file_agg(s));
    }
    result
}

} // verus!
