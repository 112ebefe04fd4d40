//! The deterministic ordering of the reduced table: station keys are ordered
//! by raw byte comparison (lexicographic over unsigned bytes, a proper prefix
//! first), which is the one externally visible guarantee on output order. A
//! strictly sorted entry sequence representing a table is unique, so the
//! rendered report is a function of the table alone.

use vstd::prelude::*;

use crate::measurement::{Measurement, StatsModel};
use crate::model::TableModel;

verus! {

/// Strict lexicographic order on byte sequences.
pub open spec fn lex_lt(a: Seq<u8>, b: Seq<u8>) -> bool
    decreases a.len(),
{
    if b.len() == 0 {
        false
    } else if a.len() == 0 {
        true
    } else if a[0] < b[0] {
        true
    } else if a[0] > b[0] {
        false
    } else {
        lex_lt(a.drop_first(), b.drop_first())
    }
}

pub proof fn lemma_lex_irrefl(a: Seq<u8>)
    ensures
        !lex_lt(a, a),
    decreases a.len(),
{
    if a.len() > 0 {
        lemma_lex_irrefl(a.drop_first());
    }
}

/// The order is total: two distinct sequences compare one way or the other.
pub proof fn lemma_lex_total(a: Seq<u8>, b: Seq<u8>)
    ensures
        a == b || lex_lt(a, b) || lex_lt(b, a),
    decreases a.len(),
{
    if a.len() > 0 && b.len() > 0 && a[0] == b[0] {
        lemma_lex_total(a.drop_first(), b.drop_first());
        if a.drop_first() == b.drop_first() {
            assert(a.drop_first().len() == b.drop_first().len());
            assert(a.len() == b.len());
            assert forall|k: int| 0 <= k < a.len() implies a[k] == b[k] by {
                if k > 0 {
                    assert(a.drop_first()[k - 1] == b.drop_first()[k - 1]);
                    assert(a[k] == a.drop_first()[k - 1]);
                    assert(b[k] == b.drop_first()[k - 1]);
                }
            }
            assert(a =~= b);
        }
    }
}

pub proof fn lemma_lex_asym(a: Seq<u8>, b: Seq<u8>)
    ensures
        lex_lt(a, b) ==> !lex_lt(b, a),
    decreases a.len(),
{
    if a.len() > 0 && b.len() > 0 && a[0] == b[0] {
        lemma_lex_asym(a.drop_first(), b.drop_first());
    }
}

pub proof fn lemma_lex_trans(a: Seq<u8>, b: Seq<u8>, c: Seq<u8>)
    requires
        lex_lt(a, b),
        lex_lt(b, c),
    ensures
        lex_lt(a, c),
    decreases a.len(),
{
    if a.len() > 0 && b.len() > 0 && c.len() > 0 && a[0] == b[0] && b[0] == c[0] {
        lemma_lex_trans(a.drop_first(), b.drop_first(), c.drop_first());
    }
}

/// Comparing after a common prefix compares the tails.
pub proof fn lemma_lex_skip(a: Seq<u8>, b: Seq<u8>, i: int)
    requires
        0 <= i <= a.len(),
        i <= b.len(),
        forall|k: int| 0 <= k < i ==> a[k] == b[k],
    ensures
        lex_lt(a, b) == lex_lt(a.skip(i), b.skip(i)),
    decreases i,
{
    if i > 0 {
        lemma_lex_skip(a.drop_first(), b.drop_first(), i - 1);
        assert(a.drop_first().skip(i - 1) =~= a.skip(i));
        assert(b.drop_first().skip(i - 1) =~= b.skip(i));
    } else {
        assert(a.skip(0) =~= a);
        assert(b.skip(0) =~= b);
    }
}

/// Byte-lexicographic strict comparison of two keys.
#[verifier::loop_isolation(false)]
pub fn key_lt(a: &[u8], b: &[u8]) -> (r: bool)
    ensures
        r == lex_lt(a@, b@),
{
    let mut i: usize = 0;
    while i < a.len() && i < b.len()
        invariant
            0 <= i <= a@.len(),
            i <= b@.len(),
            forall|k: int| 0 <= k < i ==> a@[k] == b@[k],
        decreases a@.len() - i,
    {
        let x = a[i];
        let y = b[i];
        if x < y {
            proof {
                lemma_lex_skip(a@, b@, i as int);
                assert(a@.skip(i as int)[0] == a@[i as int]);
                assert(b@.skip(i as int)[0] == b@[i as int]);
            }
            return true;
        }
        if x > y {
            proof {
                lemma_lex_skip(a@, b@, i as int);
                assert(a@.skip(i as int)[0] == a@[i as int]);
                assert(b@.skip(i as int)[0] == b@[i as int]);
            }
            return false;
        }
        i = i + 1;
    }
    proof {
        lemma_lex_skip(a@, b@, i as int);
    }
    a.len() < b.len()
}

/// The view of an entry sequence: key bytes and bucket statistics.
pub open spec fn entry_views(es: Seq<(Vec<u8>, Measurement)>) -> Seq<(Seq<u8>, StatsModel)> {
    es.map_values(|p: (Vec<u8>, Measurement)| (p.0@, p.1@))
}

pub open spec fn sorted_entry_keys(vs: Seq<(Seq<u8>, StatsModel)>) -> bool {
    forall|i: int, j: int|
        #![trigger vs[i], vs[j]]
        0 <= i < j < vs.len() ==> lex_lt(vs[i].0, vs[j].0)
}

pub open spec fn distinct_entry_keys(vs: Seq<(Seq<u8>, StatsModel)>) -> bool {
    forall|i: int, j: int|
        #![trigger vs[i], vs[j]]
        0 <= i < vs.len() && 0 <= j < vs.len() && i != j ==> vs[i].0 != vs[j].0
}

/// The entry sequence lists exactly the pairs of the table model, each key
/// once.
pub open spec fn represents(vs: Seq<(Seq<u8>, StatsModel)>, m: TableModel) -> bool {
    &&& distinct_entry_keys(vs)
    &&& forall|i: int| 0 <= i < vs.len() ==> #[trigger] m.contains_pair(vs[i].0, vs[i].1)
    &&& forall|k: Seq<u8>| #[trigger] m.dom().contains(k) ==> exists|i: int|
        0 <= i < vs.len() && vs[i].0 == k
}

/// The one sorted entry sequence of a table model.
pub open spec fn sorted_view(m: TableModel) -> Seq<(Seq<u8>, StatsModel)> {
    choose|vs: Seq<(Seq<u8>, StatsModel)>| sorted_entry_keys(vs) && represents(vs, m)
}

/// Sort entries into ascending raw-byte key order by repeatedly extracting
/// the least remaining key.
#[verifier::loop_isolation(false)]
pub fn sort_entries(entries: Vec<(Vec<u8>, Measurement)>) -> (out: Vec<(Vec<u8>, Measurement)>)
    requires
        distinct_entry_keys(entry_views(entries@)),
    ensures
        sorted_entry_keys(entry_views(out@)),
        distinct_entry_keys(entry_views(out@)),
        out@.len() == entries@.len(),
        forall|p: (Seq<u8>, StatsModel)|
            entry_views(out@).contains(p) <==> entry_views(entries@).contains(p),
{
    let ghost vs0 = entry_views(entries@);
    let mut cur = entries;
    let mut out: Vec<(Vec<u8>, Measurement)> = Vec::new();
    proof {
        assert(entry_views(out@) + entry_views(cur@) =~= vs0);
    }
    while cur.len() > 0
        invariant
            distinct_entry_keys(entry_views(out@) + entry_views(cur@)),
            sorted_entry_keys(entry_views(out@)),
            forall|i: int, j: int|
                #![trigger entry_views(out@)[i], entry_views(cur@)[j]]
                0 <= i < out@.len() && 0 <= j < cur@.len() ==> lex_lt(
                    entry_views(out@)[i].0,
                    entry_views(cur@)[j].0,
                ),
            out@.len() + cur@.len() == vs0.len(),
            forall|p: (Seq<u8>, StatsModel)|
                (entry_views(out@) + entry_views(cur@)).contains(p) <==> vs0.contains(p),
        decreases cur@.len(),
    {
        let ghost c = entry_views(cur@);
        let mut min_idx: usize = 0;
        let mut t: usize = 1;
        proof {
            lemma_lex_irrefl(c[0].0);
        }
        while t < cur.len()
            invariant
                0 <= min_idx < cur@.len(),
                1 <= t <= cur@.len(),
                c == entry_views(cur@),
                forall|k: int| 0 <= k < t ==> !lex_lt((#[trigger] c[k]).0, c[min_idx as int].0),
            decreases cur@.len() - t,
        {
            if key_lt(cur[t].0.as_slice(), cur[min_idx].0.as_slice()) {
                proof {
                    assert forall|k: int| 0 <= k < t implies !lex_lt(
                        (#[trigger] c[k]).0,
                        c[t as int].0,
                    ) by {
                        if lex_lt(c[k].0, c[t as int].0) {
                            lemma_lex_trans(c[k].0, c[t as int].0, c[min_idx as int].0);
                        }
                    }
                }
                min_idx = t;
            }
            proof {
                lemma_lex_irrefl(c[min_idx as int].0);
            }
            t = t + 1;
        }
        let ghost o = entry_views(out@);
        let ghost n = o.len() as int;
        let ghost idx = min_idx as int;
        let ghost comb = o + c;
        let e = cur.remove(min_idx);
        out.push(e);
        proof {
            let o2 = entry_views(out@);
            let c2 = entry_views(cur@);
            assert(o2 =~= o.push(c[idx]));
            assert(c2 =~= c.remove(idx));
            let comb2 = o2 + c2;
            // Every position of the rearranged whole maps back to a position
            // of the old whole.
            assert forall|x: int| 0 <= x < comb2.len() implies comb2[x] == comb[sort_src(
                x,
                n,
                idx,
            )] && 0 <= sort_src(x, n, idx) < comb.len() by {
                if x <= n {
                } else if x <= n + idx {
                    assert(comb2[x] == c2[x - n - 1]);
                    assert(comb[x - 1] == c[x - 1 - n]);
                } else {
                    assert(comb2[x] == c2[x - n - 1]);
                    assert(comb[x] == c[x - n]);
                }
            }
            assert forall|x: int, y: int|
                #![trigger comb2[x], comb2[y]]
                0 <= x < comb2.len() && 0 <= y < comb2.len() && x != y implies comb2[x].0
                != comb2[y].0 by {
                let gx = sort_src(x, n, idx);
                let gy = sort_src(y, n, idx);
                assert(comb2[x] == comb[gx]);
                assert(comb2[y] == comb[gy]);
                assert(gx != gy);
                assert(comb[gx].0 != comb[gy].0);
            }
            assert(distinct_entry_keys(comb2));
            // Sortedness of the grown prefix.
            assert forall|i: int, j: int|
                #![trigger o2[i], o2[j]]
                0 <= i < j < o2.len() implies lex_lt(o2[i].0, o2[j].0) by {
                if j < n {
                    assert(o2[i] == o[i] && o2[j] == o[j]);
                } else {
                    assert(o2[j] == c[idx]);
                    assert(o2[i] == o[i]);
                    assert(lex_lt(o[i].0, c[idx].0));
                }
            }
            // The new prefix element precedes everything that remains.
            assert forall|i: int, j: int|
                #![trigger o2[i], c2[j]]
                0 <= i < o2.len() && 0 <= j < c2.len() implies lex_lt(o2[i].0, c2[j].0) by {
                let jj = if j < idx {
                    j
                } else {
                    j + 1
                };
                assert(c2[j] == c[jj]);
                if i < n {
                    assert(o2[i] == o[i]);
                    assert(lex_lt(o[i].0, c[jj].0));
                } else {
                    assert(o2[i] == c[idx]);
                    assert(!lex_lt(c[jj].0, c[idx].0));
                    assert(comb[n + jj].0 != comb[n + idx].0);
                    lemma_lex_total(c[idx].0, c[jj].0);
                }
            }
            // Same elements as before the extraction.
            assert forall|p: (Seq<u8>, StatsModel)| comb2.contains(p) implies comb.contains(p) by {
                let x = choose|x: int| 0 <= x < comb2.len() && comb2[x] == p;
                assert(comb2[x] == comb[sort_src(x, n, idx)]);
            }
            assert forall|p: (Seq<u8>, StatsModel)| comb.contains(p) implies comb2.contains(p) by {
                let y = choose|y: int| 0 <= y < comb.len() && comb[y] == p;
                let x = if y < n {
                    y
                } else if y == n + idx {
                    n
                } else if y < n + idx {
                    y + 1
                } else {
                    y
                };
                assert(comb2[x] == comb[sort_src(x, n, idx)]);
                assert(sort_src(x, n, idx) == y);
                assert(comb2[x] == p);
            }
            assert forall|p: (Seq<u8>, StatsModel)| comb2.contains(p) <==> vs0.contains(p) by {
                assert(comb2.contains(p) <==> comb.contains(p));
            }
        }
    }
    proof {
        assert(cur@.len() == 0);
        assert(entry_views(out@) + entry_views(cur@) =~= entry_views(out@));
    }
    out
}

/// The position in `prefix + rest` that position `x` of
/// `prefix.push(rest[idx]) + rest.remove(idx)` came from.
spec fn sort_src(x: int, n: int, idx: int) -> int {
    if x < n {
        x
    } else if x == n {
        n + idx
    } else if x <= n + idx {
        x - 1
    } else {
        x
    }
}

/// Law: a strictly sorted entry sequence of a table is unique; the report
/// order is therefore a function of the table alone.
pub proof fn lemma_sorted_represents_unique(
    x: Seq<(Seq<u8>, StatsModel)>,
    y: Seq<(Seq<u8>, StatsModel)>,
    m: TableModel,
)
    requires
        sorted_entry_keys(x),
        represents(x, m),
        sorted_entry_keys(y),
        represents(y, m),
    ensures
        x == y,
    decreases x.len(),
{
    if x.len() == 0 {
        if y.len() > 0 {
            assert(m.contains_pair(y[0].0, y[0].1));
            assert(m.dom().contains(y[0].0));
            let i = choose|i: int| 0 <= i < x.len() && x[i].0 == y[0].0;
            assert(false);
        }
        assert(x =~= y);
    } else {
        assert(m.contains_pair(x[0].0, x[0].1));
        assert(m.dom().contains(x[0].0));
        let i = choose|i: int| 0 <= i < y.len() && y[i].0 == x[0].0;
        assert(m.contains_pair(y[0].0, y[0].1));
        assert(m.dom().contains(y[0].0));
        let j = choose|j: int| 0 <= j < x.len() && x[j].0 == y[0].0;
        if i > 0 {
            assert(lex_lt(y[0].0, y[i].0));
            if j > 0 {
                assert(lex_lt(x[0].0, x[j].0));
                lemma_lex_asym(y[0].0, x[0].0);
                assert(false);
            } else {
                lemma_lex_irrefl(y[0].0);
                assert(false);
            }
        }
        assert(x[0].0 == y[0].0);
        assert(m[x[0].0] == x[0].1);
        assert(m[y[0].0] == y[0].1);
        assert(x[0] == y[0]);
        let x2 = x.drop_first();
        let y2 = y.drop_first();
        let m2 = m.remove(x[0].0);
        assert forall|t: int| 0 <= t < x2.len() implies #[trigger] m2.contains_pair(
            x2[t].0,
            x2[t].1,
        ) by {
            assert(x2[t] == x[t + 1]);
            assert(m.contains_pair(x[t + 1].0, x[t + 1].1));
            assert(x[t + 1].0 != x[0].0);
        }
        assert forall|t: int| 0 <= t < y2.len() implies #[trigger] m2.contains_pair(
            y2[t].0,
            y2[t].1,
        ) by {
            assert(y2[t] == y[t + 1]);
            assert(m.contains_pair(y[t + 1].0, y[t + 1].1));
            assert(y[t + 1].0 != y[0].0);
        }
        assert forall|k: Seq<u8>| #[trigger] m2.dom().contains(k) implies exists|t: int|
            0 <= t < x2.len() && x2[t].0 == k by {
            let t = choose|t: int| 0 <= t < x.len() && x[t].0 == k;
            assert(t != 0);
            assert(x2[t - 1].0 == k);
        }
        assert forall|k: Seq<u8>| #[trigger] m2.dom().contains(k) implies exists|t: int|
            0 <= t < y2.len() && y2[t].0 == k by {
            let t = choose|t: int| 0 <= t < y.len() && y[t].0 == k;
            assert(t != 0);
            assert(y2[t - 1].0 == k);
        }
        lemma_sorted_represents_unique(x2, y2, m2);
        assert(x2.len() == y2.len());
        assert(x.len() == y.len());
        assert forall|k: int| 0 <= k < x.len() implies x[k] == y[k] by {
            assert(x2 == y2);
            if k > 0 {
                assert(x[k] == x2[k - 1]);
                assert(y[k] == y2[k - 1]);
            }
        }
        assert(x =~= y);
    }
}

} // verus!
