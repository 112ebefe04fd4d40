//! The chunk scanner: a single forward pass over a line-aligned byte range,
//! maintaining the current record start, the current delimiter position and
//! the current position, folding each record's value into its key's bucket.
//! The final record of a range may lack its terminating newline and is still
//! folded in.

use vstd::prelude::*;
use vstd::slice::slice_subrange;

use crate::measurement::Measurement;
use crate::model::{
    abs_val, chunk_agg, find_from, is_value_lit, lemma_find_from, lemma_find_from_is,
    lemma_num_records_nonneg, lemma_total_abs_nonneg, lemma_value_lit_bytes, lit_value,
    num_records, rec_key, rec_next, rec_nl, rec_semi, rec_val, rec_val_lit, table_bounded,
    total_abs, upd_table, vals_bounded, wf_records, NEWLINE, SEMICOLON,
};
use crate::parse::parse_ascii_to_int;
use crate::table::{table_contents, AggTable};

verus! {

/// Relies on bstr's ByteSlice::find_byte: the index of the first occurrence
/// of a byte in a slice, or None when the byte does not occur in it.
#[verifier::external_body]
fn find_byte(buffer: &[u8], b: u8) -> (r: Option<usize>)
    ensures
        match r {
            Some(p) => p < buffer@.len() && buffer@[p as int] == b && (forall|k: int|
                0 <= k < p ==> buffer@[k] != b),
            None => forall|k: int| 0 <= k < buffer@.len() ==> buffer@[k] != b,
        },
{
    bstr::ByteSlice::find_byte(buffer, b)
}

/// First index in `buffer[start..end)` holding `b`, or `end` if there is
/// none: the executable form of the model's `find_from`.
pub fn find_in_range(buffer: &[u8], start: usize, end: usize, b: u8) -> (r: usize)
    requires
        start <= end <= buffer@.len(),
    ensures
        r as int == find_from(buffer@, start as int, end as int, b),
        start <= r <= end,
{
    let suffix = slice_subrange(buffer, start, end);
    let r = match find_byte(suffix, b) {
        Some(p) => start + p,
        None => end,
    };
    proof {
        assert forall|k: int| start <= k < r implies buffer@[k] != b by {
            assert(suffix@[k - start] == buffer@[k]);
        }
        if r < end {
            assert(suffix@[r - start] == buffer@[r as int]);
        }
        lemma_find_from_is(buffer@, start as int, end as int, b, r as int);
    }
    r
}

/// Position immediately after the first newline at or after `start`. A
/// newline must exist at or after `start`; probing past the last record is
/// excluded by precondition.
pub fn find_next_newline(start: usize, buffer: &[u8]) -> (r: usize)
    requires
        start <= buffer@.len(),
        find_from(buffer@, start as int, buffer@.len() as int, NEWLINE) < buffer@.len(),
    ensures
        r as int == find_from(buffer@, start as int, buffer@.len() as int, NEWLINE) + 1,
        start < r <= buffer@.len(),
        buffer@[r - 1] == NEWLINE,
        forall|k: int| start <= k < r - 1 ==> buffer@[k] != NEWLINE,
{
    let p = find_in_range(buffer, start, buffer.len(), NEWLINE);
    proof {
        lemma_find_from(buffer@, start as int, buffer@.len() as int, NEWLINE);
    }
    p + 1
}

/// Fold one record into the table: key bytes `buffer[line_start..name_end]`,
/// value literal `buffer[name_end + 1..pos]`. The budgets bound the table's
/// accumulated sums and counts so the fold cannot overflow.
fn fold_record(
    table: &mut AggTable,
    buffer: &[u8],
    line_start: usize,
    name_end: usize,
    pos: usize,
    budget_a: Ghost<int>,
    budget_n: Ghost<int>,
)
    requires
        line_start <= name_end,
        name_end < pos <= buffer@.len(),
        is_value_lit(buffer@.subrange(name_end + 1, pos as int)),
        abs_val(lit_value(buffer@.subrange(name_end + 1, pos as int))) <= i32::MAX as int,
        table_bounded(table_contents(*old(table)), budget_a@, budget_n@),
        budget_a@ >= 0,
        budget_n@ >= 0,
        budget_a@ + abs_val(lit_value(buffer@.subrange(name_end + 1, pos as int))) <= i64::MAX,
        budget_n@ + 1 <= i64::MAX,
    ensures
        table_contents(*final(table)) == upd_table(
            table_contents(*old(table)),
            buffer@.subrange(line_start as int, name_end as int),
            lit_value(buffer@.subrange(name_end + 1, pos as int)),
        ),
        table_bounded(
            table_contents(*final(table)),
            budget_a@ + abs_val(lit_value(buffer@.subrange(name_end + 1, pos as int))),
            budget_n@ + 1,
        ),
{
    let ghost v = lit_value(buffer@.subrange(name_end + 1, pos as int));
    let key = slice_subrange(buffer, line_start, name_end);
    let lit = slice_subrange(buffer, name_end + 1, pos);
    let value = parse_ascii_to_int(lit);
    match table.get_copy(key) {
        Some(m) => {
            let mut bucket = m;
            bucket.update(value);
            table.set(key, bucket);
        },
        None => {
            table.set(key, Measurement::new(value));
        },
    }
    proof {
        let c0 = table_contents(*old(table));
        let c1 = table_contents(*table);
        let kk = buffer@.subrange(line_start as int, name_end as int);
        let a1 = budget_a@ + abs_val(v);
        let n1 = budget_n@ + 1;
        assert forall|k: Seq<u8>| #[trigger] c1.dom().contains(k) implies -a1 <= c1[k].0 <= a1
            && -a1 <= c1[k].1 <= a1 && -a1 <= c1[k].2 <= a1 && 1 <= c1[k].3 <= n1 && c1[k].0
            <= c1[k].1 by {
            if k != kk {
                assert(c0.dom().contains(k));
                assert(c1[k] == c0[k]);
            } else {
                assert(-abs_val(v) <= v <= abs_val(v));
                if c0.dom().contains(kk) {
                    assert(-budget_a@ <= c0[kk].0 <= budget_a@);
                    assert(1 <= c0[kk].3 <= budget_n@);
                    assert(c1[kk] == crate::measurement::stats_upd(c0[kk], v));
                } else {
                    assert(c1[kk] == crate::measurement::stats_one(v));
                }
            }
        }
        assert(table_bounded(c1, a1, n1));
    }
}

/// Scan the byte range `[start, end)` of `buffer` into a fresh aggregation
/// table, one record at a time, never crossing the range.
#[verifier::loop_isolation(false)]
pub fn scan_ascii_chunk(start: usize, end: usize, buffer: &[u8]) -> (t: AggTable)
    requires
        start <= end <= buffer@.len(),
        wf_records(buffer@, start as int, end as int),
        vals_bounded(buffer@, start as int, end as int, i32::MAX as int),
        total_abs(buffer@, start as int, end as int) <= i64::MAX,
        num_records(buffer@, start as int, end as int) <= i64::MAX,
    ensures
        table_contents(t) == chunk_agg(
            Map::<Seq<u8>, crate::measurement::StatsModel>::empty(),
            buffer@,
            start as int,
            end as int,
        ),
        table_bounded(
            table_contents(t),
            total_abs(buffer@, start as int, end as int),
            num_records(buffer@, start as int, end as int),
        ),
{
    let ghost s = buffer@;
    let ghost t_all = total_abs(s, start as int, end as int);
    let ghost n_all = num_records(s, start as int, end as int);
    let ghost empty = Map::<Seq<u8>, crate::measurement::StatsModel>::empty();

    let mut measurements = AggTable::new();
    let mut line_start: usize = start;
    let mut name_end: usize = start;
    let mut position: usize = start;

    proof {
        lemma_total_abs_nonneg(s, start as int, end as int);
        lemma_num_records_nonneg(s, start as int, end as int);
        if start < end {
            lemma_find_from(s, start as int, end as int, NEWLINE);
            lemma_find_from(s, start as int, rec_nl(s, start as int, end as int), SEMICOLON);
        }
    }

    while position < end
        invariant
            start <= line_start <= position <= end,
            wf_records(s, line_start as int, end as int),
            vals_bounded(s, line_start as int, end as int, i32::MAX as int),
            total_abs(s, line_start as int, end as int) <= t_all,
            num_records(s, line_start as int, end as int) <= n_all,
            chunk_agg(table_contents(measurements), s, line_start as int, end as int)
                == chunk_agg(empty, s, start as int, end as int),
            table_bounded(
                table_contents(measurements),
                t_all - total_abs(s, line_start as int, end as int),
                n_all - num_records(s, line_start as int, end as int),
            ),
            forall|k: int| line_start <= k < position ==> s[k] != NEWLINE,
            rec_semi(s, line_start as int, end as int) < position ==> line_start <= name_end
                && name_end as int == rec_semi(s, line_start as int, end as int),
        decreases end - position,
    {
        let ghost ls = line_start as int;
        let ghost nl = rec_nl(s, ls, end as int);
        let ghost sm = rec_semi(s, ls, end as int);
        proof {
            lemma_find_from(s, ls, end as int, NEWLINE);
            lemma_find_from(s, ls, nl, SEMICOLON);
            lemma_value_lit_bytes(rec_val_lit(s, ls, end as int));
        }
        let character = buffer[position];
        if character == SEMICOLON {
            proof {
                // the delimiter seen here is this record's delimiter
                assert(position < nl);
                if sm < position {
                    let j = position - (sm + 1);
                    assert(rec_val_lit(s, ls, end as int)[j] == s[position as int]);
                    assert(false);
                }
                assert(sm == position as int);
            }
            name_end = position;
        } else if character == NEWLINE {
            proof {
                lemma_find_from_is(s, ls, end as int, NEWLINE, position as int);
                assert(nl == position as int);
                assert(sm < nl);
                assert(name_end as int == sm);
                assert(buffer@.subrange(name_end + 1, position as int) == rec_val_lit(
                    s,
                    ls,
                    end as int,
                ));
                lemma_total_abs_nonneg(s, rec_next(s, ls, end as int), end as int);
                lemma_num_records_nonneg(s, rec_next(s, ls, end as int), end as int);
            }
            fold_record(
                &mut measurements,
                buffer,
                line_start,
                name_end,
                position,
                Ghost(t_all - total_abs(s, ls, end as int)),
                Ghost(n_all - num_records(s, ls, end as int)),
            );
            proof {
                let next = rec_next(s, ls, end as int);
                assert(next == position + 1);
                assert(buffer@.subrange(ls, name_end as int) == rec_key(s, ls, end as int));
                assert(chunk_agg(table_contents(measurements), s, next, end as int) == chunk_agg(
                    empty,
                    s,
                    start as int,
                    end as int,
                ));
                assert(t_all - total_abs(s, ls, end as int) + abs_val(rec_val(s, ls, end as int))
                    == t_all - total_abs(s, next, end as int));
                lemma_find_from(s, position + 1, end as int, NEWLINE);
                lemma_find_from(s, position + 1, rec_nl(s, position + 1, end as int), SEMICOLON);
            }
            line_start = position + 1;
        } else {
            proof {
                if sm == position as int {
                    assert(s[sm] == SEMICOLON);
                    assert(false);
                }
            }
        }
        position = position + 1;
    }
    if line_start < end {
        let ghost ls = line_start as int;
        proof {
            lemma_find_from_is(s, ls, end as int, NEWLINE, end as int);
            let nl = rec_nl(s, ls, end as int);
            assert(nl == end as int);
            lemma_find_from(s, ls, nl, SEMICOLON);
            assert(rec_semi(s, ls, end as int) < end as int);
            assert(name_end as int == rec_semi(s, ls, end as int));
            assert(buffer@.subrange(name_end + 1, end as int) == rec_val_lit(s, ls, end as int));
            lemma_total_abs_nonneg(s, rec_next(s, ls, end as int), end as int);
            lemma_num_records_nonneg(s, rec_next(s, ls, end as int), end as int);
        }
        fold_record(
            &mut measurements,
            buffer,
            line_start,
            name_end,
            end,
            Ghost(t_all - total_abs(s, ls, end as int)),
            Ghost(n_all - num_records(s, ls, end as int)),
        );
        proof {
            assert(rec_next(s, ls, end as int) == end as int);
            assert(buffer@.subrange(ls, name_end as int) == rec_key(s, ls, end as int));
            assert(t_all - total_abs(s, ls, end as int) + abs_val(rec_val(s, ls, end as int))
                == t_all);
            assert(chunk_agg(table_contents(measurements), s, end as int, end as int)
                == table_contents(measurements));
        }
    } else {
        proof {
            assert(chunk_agg(table_contents(measurements), s, line_start as int, end as int)
                == table_contents(measurements));
            assert(total_abs(s, line_start as int, end as int) == 0);
            assert(num_records(s, line_start as int, end as int) == 0);
        }
    }
    measurements
}

} // verus!
