//! Mathematical model of the input format and of the aggregation.
//!
//! A chunk is a byte range `[i, end)` of the input holding newline-terminated
//! records `<key>;<value>`, the final record possibly unterminated. The model
//! walks the range record by record: `rec_nl` is the index of the record's
//! terminator (or `end`), `rec_semi` the index of its field delimiter, and
//! `rec_next` the start of the following record. `chunk_agg` is the table that
//! a single-pass scan of the range produces.

use vstd::prelude::*;

use crate::measurement::{stats_one, stats_upd, stats_merge, StatsModel};

verus! {

pub const NEWLINE: u8 = 10;

pub const SEMICOLON: u8 = 59;

pub const MINUS: u8 = 45;

pub const PERIOD: u8 = 46;

/// First index in `[i, end)` holding byte `b`, or `end` if there is none.
pub open spec fn find_from(s: Seq<u8>, i: int, end: int, b: u8) -> int
    decreases end - i,
{
    if i >= end {
        end
    } else if s[i] == b {
        i
    } else {
        find_from(s, i + 1, end, b)
    }
}

/// `find_from` returns the first occurrence, within bounds.
pub proof fn lemma_find_from(s: Seq<u8>, i: int, end: int, b: u8)
    requires
        i <= end,
    ensures
        i <= find_from(s, i, end, b) <= end,
        find_from(s, i, end, b) < end ==> s[find_from(s, i, end, b)] == b,
        forall|k: int| i <= k < find_from(s, i, end, b) ==> s[k] != b,
    decreases end - i,
{
    if i < end && s[i] != b {
        lemma_find_from(s, i + 1, end, b);
    }
}

/// A position satisfying the first-occurrence description is `find_from`.
pub proof fn lemma_find_from_is(s: Seq<u8>, i: int, end: int, b: u8, r: int)
    requires
        i <= r <= end,
        r < end ==> s[r] == b,
        forall|k: int| i <= k < r ==> s[k] != b,
    ensures
        find_from(s, i, end, b) == r,
    decreases r - i,
{
    if i < r {
        lemma_find_from_is(s, i + 1, end, b, r);
    }
}

pub open spec fn abs_val(v: int) -> int {
    if v < 0 {
        -v
    } else {
        v
    }
}

/// Index of the terminator of the record starting at `i`: the first newline
/// at or after `i`, or `end` for an unterminated final record.
pub open spec fn rec_nl(s: Seq<u8>, i: int, end: int) -> int {
    find_from(s, i, end, NEWLINE)
}

/// Index of the field delimiter of the record starting at `i`: the first
/// semicolon before the record's terminator.
pub open spec fn rec_semi(s: Seq<u8>, i: int, end: int) -> int {
    find_from(s, i, rec_nl(s, i, end), SEMICOLON)
}

/// Start of the record after the one starting at `i` (or `end`).
pub open spec fn rec_next(s: Seq<u8>, i: int, end: int) -> int {
    let nl = rec_nl(s, i, end);
    if nl < i {
        i + 1
    } else if nl >= end {
        end
    } else {
        nl + 1
    }
}

/// Key bytes of the record starting at `i`.
pub open spec fn rec_key(s: Seq<u8>, i: int, end: int) -> Seq<u8> {
    s.subrange(i, rec_semi(s, i, end))
}

/// Value literal bytes of the record starting at `i`.
pub open spec fn rec_val_lit(s: Seq<u8>, i: int, end: int) -> Seq<u8> {
    s.subrange(rec_semi(s, i, end) + 1, rec_nl(s, i, end))
}

/// Fixed-point value of the record starting at `i`.
pub open spec fn rec_val(s: Seq<u8>, i: int, end: int) -> int {
    lit_value(rec_val_lit(s, i, end))
}

pub open spec fn is_digit(b: u8) -> bool {
    48 <= b <= 57
}

pub open spec fn all_digits(s: Seq<u8>) -> bool {
    forall|k: int| 0 <= k < s.len() ==> is_digit(#[trigger] s[k])
}

/// Grammar of an unsigned value literal: one or more integer digits, a single
/// period, and exactly one fractional digit.
pub open spec fn is_unsigned_lit(s: Seq<u8>) -> bool {
    &&& s.len() >= 3
    &&& all_digits(s.subrange(0, s.len() - 2))
    &&& s[s.len() - 2] == PERIOD
    &&& is_digit(s[s.len() - 1])
}

/// Grammar of a value literal: an optional leading minus sign before an
/// unsigned literal.
pub open spec fn is_value_lit(s: Seq<u8>) -> bool {
    if s.len() > 0 && s[0] == MINUS {
        is_unsigned_lit(s.subrange(1, s.len() as int))
    } else {
        is_unsigned_lit(s)
    }
}

/// Value of a digit string read positionally.
pub open spec fn digits_value(s: Seq<u8>) -> int
    decreases s.len(),
{
    if s.len() == 0 {
        0
    } else {
        digits_value(s.drop_last()) * 10 + (s.last() - 48)
    }
}

/// A digit string has a non-negative value.
pub proof fn lemma_digits_value_nonneg(s: Seq<u8>)
    requires
        all_digits(s),
    ensures
        digits_value(s) >= 0,
    decreases s.len(),
{
    if s.len() > 0 {
        assert(all_digits(s.drop_last()));
        lemma_digits_value_nonneg(s.drop_last());
    }
}

/// Reading a prefix of a digit string gives at most the whole string's value.
pub proof fn lemma_digits_value_prefix_le(s: Seq<u8>, j: int)
    requires
        all_digits(s),
        0 <= j <= s.len(),
    ensures
        digits_value(s.take(j)) <= digits_value(s),
    decreases s.len(),
{
    if j == s.len() {
        assert(s.take(j) =~= s);
    } else {
        let sp = s.drop_last();
        assert(all_digits(sp));
        lemma_digits_value_nonneg(sp);
        lemma_digits_value_prefix_le(sp, j);
        assert(sp.take(j) =~= s.take(j));
    }
}

/// Value in tenths of an unsigned literal: the digits with the period
/// ignored, read positionally.
pub open spec fn unsigned_lit_value(s: Seq<u8>) -> int {
    digits_value(s.subrange(0, s.len() - 2)) * 10 + (s[s.len() - 1] - 48)
}

/// Value in tenths of a value literal.
pub open spec fn lit_value(s: Seq<u8>) -> int {
    if s.len() > 0 && s[0] == MINUS {
        -unsigned_lit_value(s.subrange(1, s.len() as int))
    } else {
        unsigned_lit_value(s)
    }
}

/// Well-formed chunk contents: every record in `[i, end)` has a field
/// delimiter before its terminator and a value in the literal grammar.
pub open spec fn wf_records(s: Seq<u8>, i: int, end: int) -> bool
    decreases end - i,
{
    if i >= end {
        true
    } else {
        &&& rec_semi(s, i, end) < rec_nl(s, i, end)
        &&& is_value_lit(rec_val_lit(s, i, end))
        &&& wf_records(s, rec_next(s, i, end), end)
    }
}

/// Every record value in `[i, end)` has absolute value at most `bound`.
pub open spec fn vals_bounded(s: Seq<u8>, i: int, end: int, bound: int) -> bool
    decreases end - i,
{
    if i >= end {
        true
    } else {
        &&& -bound <= rec_val(s, i, end) <= bound
        &&& vals_bounded(s, rec_next(s, i, end), end, bound)
    }
}

/// Sum of the absolute values of all record values in `[i, end)`.
pub open spec fn total_abs(s: Seq<u8>, i: int, end: int) -> int
    decreases end - i,
{
    if i >= end {
        0
    } else {
        abs_val(rec_val(s, i, end)) + total_abs(s, rec_next(s, i, end), end)
    }
}

pub proof fn lemma_total_abs_nonneg(s: Seq<u8>, i: int, end: int)
    ensures
        total_abs(s, i, end) >= 0,
    decreases end - i,
{
    if i < end {
        lemma_total_abs_nonneg(s, rec_next(s, i, end), end);
    }
}

/// Number of records in `[i, end)`.
pub open spec fn num_records(s: Seq<u8>, i: int, end: int) -> int
    decreases end - i,
{
    if i >= end {
        0
    } else {
        1 + num_records(s, rec_next(s, i, end), end)
    }
}

pub proof fn lemma_num_records_nonneg(s: Seq<u8>, i: int, end: int)
    ensures
        num_records(s, i, end) >= 0,
    decreases end - i,
{
    if i < end {
        lemma_num_records_nonneg(s, rec_next(s, i, end), end);
    }
}

/// No byte of a value literal is a semicolon or a newline.
pub proof fn lemma_value_lit_bytes(l: Seq<u8>)
    requires
        is_value_lit(l),
    ensures
        forall|j: int| 0 <= j < l.len() ==> l[j] != SEMICOLON && l[j] != NEWLINE,
{
    let u = if l[0] == MINUS {
        l.subrange(1, l.len() as int)
    } else {
        l
    };
    let off: int = if l[0] == MINUS {
        1int
    } else {
        0int
    };
    assert forall|j: int| 0 <= j < l.len() implies l[j] != SEMICOLON && l[j] != NEWLINE by {
        if j >= off {
            assert(u[j - off] == l[j]);
            if j - off < u.len() - 2 {
                assert(u.subrange(0, u.len() - 2)[j - off] == u[j - off]);
                assert(is_digit(l[j]));
            }
        }
    }
}

/// Per-key bounds on a table model: every materialized bucket holds at least
/// one observation, its bounds are ordered, and all fields are limited by the
/// given absolute-sum and count budgets.
pub open spec fn table_bounded(c: TableModel, a: int, n: int) -> bool {
    forall|k: Seq<u8>| #[trigger] c.dom().contains(k) ==> {
        &&& -a <= c[k].0 <= a
        &&& -a <= c[k].1 <= a
        &&& -a <= c[k].2 <= a
        &&& 1 <= c[k].3 <= n
        &&& c[k].0 <= c[k].1
    }
}

/// Model of an aggregation table: station key bytes to bucket statistics.
pub type TableModel = Map<Seq<u8>, StatsModel>;

/// The empty table model.
pub open spec fn empty_table() -> TableModel {
    Map::empty()
}

/// Fold one observation into the table model.
pub open spec fn upd_table(m: TableModel, k: Seq<u8>, v: int) -> TableModel {
    if m.dom().contains(k) {
        m.insert(k, stats_upd(m[k], v))
    } else {
        m.insert(k, stats_one(v))
    }
}

/// The table that scanning the records of `[i, end)` into accumulator `m`
/// produces.
pub open spec fn chunk_agg(m: TableModel, s: Seq<u8>, i: int, end: int) -> TableModel
    decreases end - i,
{
    if i >= end {
        m
    } else {
        chunk_agg(upd_table(m, rec_key(s, i, end), rec_val(s, i, end)), s, rec_next(s, i, end), end)
    }
}

/// Merge of two table models: bucketwise merge on shared keys, union
/// elsewhere.
pub open spec fn table_merge(a: TableModel, b: TableModel) -> TableModel {
    Map::new(
        |k: Seq<u8>| a.dom().contains(k) || b.dom().contains(k),
        |k: Seq<u8>|
            if a.dom().contains(k) && b.dom().contains(k) {
                stats_merge(a[k], b[k])
            } else if b.dom().contains(k) {
                b[k]
            } else {
                a[k]
            },
    )
}

/// Law: merging table models is commutative.
pub proof fn lemma_table_merge_comm(a: TableModel, b: TableModel)
    ensures
        table_merge(a, b) =~= table_merge(b, a),
{
}

/// Law: merging table models is associative.
pub proof fn lemma_table_merge_assoc(a: TableModel, b: TableModel, c: TableModel)
    ensures
        table_merge(table_merge(a, b), c) =~= table_merge(a, table_merge(b, c)),
{
}

/// Law: the empty table model is the identity of table merging.
pub proof fn lemma_table_merge_empty(c: TableModel)
    ensures
        table_merge(c, empty_table()) =~= c,
        table_merge(empty_table(), c) =~= c,
{
}

/// Merging preserves per-key bounds, with the budgets added.
pub proof fn lemma_table_merge_bounded(
    c1: TableModel,
    a1: int,
    n1: int,
    c2: TableModel,
    a2: int,
    n2: int,
)
    requires
        table_bounded(c1, a1, n1),
        table_bounded(c2, a2, n2),
        a1 >= 0 && a2 >= 0 && n1 >= 0 && n2 >= 0,
    ensures
        table_bounded(table_merge(c1, c2), a1 + a2, n1 + n2),
{
    let c = table_merge(c1, c2);
    assert forall|k: Seq<u8>| #[trigger] c.dom().contains(k) implies -(a1 + a2) <= c[k].0 <= a1
        + a2 && -(a1 + a2) <= c[k].1 <= a1 + a2 && -(a1 + a2) <= c[k].2 <= a1 + a2 && 1 <= c[k].3
        <= n1 + n2 && c[k].0 <= c[k].1 by {
        if c1.dom().contains(k) {
            assert(-a1 <= c1[k].0 <= a1);
        }
        if c2.dom().contains(k) {
            assert(-a2 <= c2[k].0 <= a2);
        }
    }
}

/// Folding one observation commutes with merging in an earlier table.
pub proof fn lemma_upd_table_merge(m1: TableModel, m2: TableModel, k: Seq<u8>, v: int)
    ensures
        table_merge(m1, upd_table(m2, k, v)) =~= upd_table(table_merge(m1, m2), k, v),
{
}

/// Scanning into an accumulator is merging the accumulator with the scan of
/// the same records into an empty table.
pub proof fn lemma_chunk_agg_acc(m1: TableModel, m2: TableModel, s: Seq<u8>, i: int, end: int)
    ensures
        table_merge(m1, chunk_agg(m2, s, i, end)) =~= chunk_agg(table_merge(m1, m2), s, i, end),
    decreases end - i,
{
    if i < end {
        let k = rec_key(s, i, end);
        let v = rec_val(s, i, end);
        lemma_chunk_agg_acc(m1, upd_table(m2, k, v), s, rec_next(s, i, end), end);
        lemma_upd_table_merge(m1, m2, k, v);
        assert(chunk_agg(table_merge(m1, upd_table(m2, k, v)), s, rec_next(s, i, end), end)
            =~= chunk_agg(upd_table(table_merge(m1, m2), k, v), s, rec_next(s, i, end), end));
    }
}

/// Law: the table a scan produces from an accumulator is the merge of the
/// accumulator with the scan's own table.
pub proof fn lemma_chunk_agg_merge(m: TableModel, s: Seq<u8>, i: int, end: int)
    ensures
        chunk_agg(m, s, i, end) =~= table_merge(m, chunk_agg(empty_table(), s, i, end)),
{
    lemma_chunk_agg_acc(m, empty_table(), s, i, end);
    lemma_table_merge_empty(m);
    assert(chunk_agg(table_merge(m, empty_table()), s, i, end) =~= chunk_agg(m, s, i, end));
}

/// Law: splitting a well-formed range at a record boundary splits its walk.
/// The boundary must be the range's start or end, or sit immediately after a
/// newline; then both halves are well-formed ranges, the record count and the
/// absolute-value total add up, and scanning the whole range equals scanning
/// the first half and then the second.
pub proof fn lemma_chunk_split(m: TableModel, s: Seq<u8>, a: int, b: int, e: int, bound: int)
    requires
        wf_records(s, a, e),
        vals_bounded(s, a, e, bound),
        0 <= a <= b <= e <= s.len(),
        b == a || b == e || s[b - 1] == NEWLINE,
    ensures
        wf_records(s, a, b),
        wf_records(s, b, e),
        vals_bounded(s, a, b, bound),
        vals_bounded(s, b, e, bound),
        total_abs(s, a, e) == total_abs(s, a, b) + total_abs(s, b, e),
        num_records(s, a, e) == num_records(s, a, b) + num_records(s, b, e),
        chunk_agg(m, s, a, e) == chunk_agg(chunk_agg(m, s, a, b), s, b, e),
    decreases b - a,
{
    if b == a || b == e {
        assert(chunk_agg(m, s, a, a) == m);
        assert(chunk_agg(chunk_agg(m, s, a, e), s, e, e) == chunk_agg(m, s, a, e));
    } else {
        lemma_find_from(s, a, e, NEWLINE);
        let nl = rec_nl(s, a, e);
        assert(nl <= b - 1) by {
            if nl > b - 1 {
                assert(s[b - 1] != NEWLINE);
            }
        }
        lemma_find_from_is(s, a, b, NEWLINE, nl);
        assert(rec_nl(s, a, b) == nl);
        assert(rec_semi(s, a, b) == rec_semi(s, a, e));
        let nx = rec_next(s, a, e);
        assert(rec_next(s, a, b) == nx);
        assert(rec_key(s, a, b) == rec_key(s, a, e));
        assert(rec_val_lit(s, a, b) == rec_val_lit(s, a, e));
        lemma_chunk_split(
            upd_table(m, rec_key(s, a, e), rec_val(s, a, e)),
            s,
            nx,
            b,
            e,
            bound,
        );
    }
}

/// Scanning only adds keys: every key of the accumulator, and the key of
/// every record scanned, is a key of the result.
pub proof fn lemma_chunk_agg_dom(m: TableModel, s: Seq<u8>, i: int, end: int)
    ensures
        forall|k: Seq<u8>| m.dom().contains(k) ==> chunk_agg(m, s, i, end).dom().contains(k),
        i < end ==> chunk_agg(m, s, i, end).dom().contains(rec_key(s, i, end)),
    decreases end - i,
{
    if i < end {
        let u = upd_table(m, rec_key(s, i, end), rec_val(s, i, end));
        lemma_chunk_agg_dom(u, s, rec_next(s, i, end), end);
        assert(u.dom().contains(rec_key(s, i, end)));
        assert(forall|k: Seq<u8>| m.dom().contains(k) ==> u.dom().contains(k));
    }
}

/// Law: scanning two adjacent line-aligned ranges separately and merging
/// their tables gives the same table as scanning the whole range at once.
/// With commutativity and associativity of the merge, any partition of the
/// rows into chunks reduces to the same table.
pub proof fn lemma_partition_merge(s: Seq<u8>, a: int, b: int, e: int, bound: int)
    requires
        wf_records(s, a, e),
        vals_bounded(s, a, e, bound),
        0 <= a <= b <= e <= s.len(),
        b == a || b == e || s[b - 1] == NEWLINE,
    ensures
        table_merge(chunk_agg(empty_table(), s, a, b), chunk_agg(empty_table(), s, b, e))
            == chunk_agg(empty_table(), s, a, e),
{
    lemma_chunk_split(empty_table(), s, a, b, e, bound);
    lemma_chunk_agg_merge(chunk_agg(empty_table(), s, a, b), s, b, e);
}

/// Aggregate of a whole input.
pub open spec fn file_agg(s: Seq<u8>) -> TableModel {
    chunk_agg(Map::empty(), s, 0, s.len() as int)
}

/// A well-formed input: well-formed records over the whole byte range, with
/// the machine-limit bounds that keep every accumulator within `i64` and
/// every parsed value within `i32`.
pub open spec fn wf_input(s: Seq<u8>) -> bool {
    &&& wf_records(s, 0, s.len() as int)
    &&& vals_bounded(s, 0, s.len() as int, i32::MAX as int)
    &&& total_abs(s, 0, s.len() as int) <= i64::MAX
    &&& num_records(s, 0, s.len() as int) <= i64::MAX
}

} // verus!
