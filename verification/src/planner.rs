//! The chunk planner: divides the input into one line-aligned byte range per
//! worker. Internal boundaries are probed at equal spans and advanced to just
//! after the next newline (never moved back), so the ranges tile the whole
//! input and no worker starts or ends mid-record.

use vstd::prelude::*;

use crate::model::{find_from, lemma_find_from, lemma_find_from_is, NEWLINE};
use crate::scan::find_in_range;

verus! {

/// A chunk boundary: byte 0, end of file, or immediately after a newline.
pub open spec fn is_boundary(s: Seq<u8>, b: int) -> bool {
    b == 0 || b == s.len() || s[b - 1] == NEWLINE
}

/// Where the chunk probed at `from` begins: just after the first newline at
/// or after `from`, or the end of the input if none remains.
pub open spec fn next_boundary_spec(s: Seq<u8>, from: int) -> int {
    if find_from(s, from, s.len() as int, NEWLINE) == s.len() {
        s.len() as int
    } else {
        find_from(s, from, s.len() as int, NEWLINE) + 1
    }
}

/// Advancing the probe never moves the boundary back.
proof fn lemma_next_boundary_monotone(s: Seq<u8>, f1: int, f2: int)
    requires
        0 <= f1 <= f2 <= s.len(),
    ensures
        f1 <= next_boundary_spec(s, f1) <= s.len(),
        next_boundary_spec(s, f1) <= next_boundary_spec(s, f2),
{
    let len = s.len() as int;
    lemma_find_from(s, f1, len, NEWLINE);
    lemma_find_from(s, f2, len, NEWLINE);
    let nl1 = find_from(s, f1, len, NEWLINE);
    if nl1 >= f2 {
        if nl1 < len {
            lemma_find_from_is(s, f2, len, NEWLINE, nl1);
        } else {
            lemma_find_from_is(s, f2, len, NEWLINE, len);
        }
    }
}

fn next_boundary(buffer: &[u8], from: usize) -> (r: usize)
    requires
        from <= buffer@.len(),
    ensures
        r as int == next_boundary_spec(buffer@, from as int),
        from <= r <= buffer@.len(),
        is_boundary(buffer@, r as int),
{
    let p = find_in_range(buffer, from, buffer.len(), NEWLINE);
    proof {
        lemma_find_from(buffer@, from as int, buffer@.len() as int, NEWLINE);
    }
    if p == buffer.len() {
        p
    } else {
        p + 1
    }
}

/// Plan one line-aligned byte range per worker. The ranges tile
/// `[0, buffer.len())`: the first starts at 0, the last ends at the input's
/// end, each range ends where the next begins, and every boundary is byte 0,
/// the end, or the position immediately after a newline.
#[verifier::loop_isolation(false)]
pub fn find_chunk_boundaries(buffer: &[u8], threads: usize) -> (r: Vec<(usize, usize)>)
    requires
        1 <= threads,
    ensures
        r@.len() == threads,
        r@[0].0 == 0,
        r@[threads - 1].1 == buffer@.len(),
        forall|i: int| 0 <= i < threads ==> (#[trigger] r@[i]).0 <= r@[i].1 <= buffer@.len(),
        forall|i: int| 0 <= i < threads - 1 ==> (#[trigger] r@[i]).1 == r@[i + 1].0,
        forall|i: int|
            0 <= i < threads ==> is_boundary(buffer@, (#[trigger] r@[i]).0 as int) && is_boundary(
                buffer@,
                r@[i].1 as int,
            ),
        forall|i: int|
            1 <= i < threads ==> (#[trigger] r@[i]).0 as int == next_boundary_spec(
                buffer@,
                i * (buffer@.len() as int / threads as int),
            ),
{
    let ghost s = buffer@;
    let size = buffer.len();
    let chunk_size = size / threads;
    let mut starts: Vec<usize> = Vec::new();
    starts.push(0);
    let mut i: usize = 1;
    while i < threads
        invariant
            1 <= i <= threads,
            starts@.len() == i,
            starts@[0] == 0,
            forall|j: int|
                1 <= j < i ==> (#[trigger] starts@[j]) as int == next_boundary_spec(
                    s,
                    j * chunk_size as int,
                ),
            forall|j: int| 0 <= j < i ==> (#[trigger] starts@[j]) <= size,
            forall|j: int| 0 <= j < i - 1 ==> (#[trigger] starts@[j]) <= starts@[j + 1],
            forall|j: int| 0 <= j < i ==> is_boundary(s, (#[trigger] starts@[j]) as int),
        decreases threads - i,
    {
        proof {
            assert(i as int * chunk_size as int <= threads as int * chunk_size as int)
                by (nonlinear_arith)
                requires
                    i as int <= threads as int,
                    chunk_size as int >= 0,
            ;
            assert(threads as int * (size as int / threads as int) <= size as int)
                by (nonlinear_arith)
                requires
                    threads as int >= 1,
                    size as int >= 0,
            ;
        }
        let naive = i * chunk_size;
        let b = next_boundary(buffer, naive);
        proof {
            if i > 1 {
                assert((i - 1) as int * chunk_size as int <= i as int * chunk_size as int)
                    by (nonlinear_arith)
                    requires
                        chunk_size as int >= 0,
                        i as int >= 1,
                ;
                lemma_next_boundary_monotone(
                    s,
                    (i - 1) as int * chunk_size as int,
                    i as int * chunk_size as int,
                );
            }
        }
        starts.push(b);
        i = i + 1;
    }
    let mut bounds: Vec<(usize, usize)> = Vec::new();
    let mut j: usize = 0;
    while j + 1 < threads
        invariant
            0 <= j <= threads - 1,
            bounds@.len() == j,
            forall|t: int|
                0 <= t < j ==> (#[trigger] bounds@[t]).0 == starts@[t] && bounds@[t].1
                    == starts@[t + 1],
        decreases threads - 1 - j,
    {
        bounds.push((starts[j], starts[j + 1]));
        j = j + 1;
    }
    bounds.push((starts[threads - 1], size));
    bounds
}

} // verus!
