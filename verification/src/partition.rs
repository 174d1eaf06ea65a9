//! How a run of storage offsets is cut into chunks, and which offsets of a
//! chunk are interior cells.

use vstd::prelude::*;
use vstd::arithmetic::div_mod::lemma_fundamental_div_mod;
use vstd::arithmetic::div_mod::lemma_fundamental_div_mod_converse;

verus! {

/// The number of offsets in a chunk when `cells` offsets are handed to `count`
/// workers: `cells / count`, rounded up. A count of zero asks for one chunk.
pub open spec fn chunk_size(cells: nat, count: nat) -> nat {
    if count == 0 {
        cells
    } else {
        ((cells + count - 1) / (count as int)) as nat
    }
}

/// How many chunks of `size` offsets it takes to cover `[lo, hi)`.
pub open spec fn span_count(lo: int, hi: int, size: int) -> nat {
    if lo >= hi || size <= 0 {
        0
    } else {
        ((hi - lo + size - 1) / size) as nat
    }
}

/// The `k`-th chunk of `[lo, hi)`: `size` offsets from `lo + k * size` on, cut
/// off at `hi`.
pub open spec fn span(lo: int, hi: int, size: int, k: int) -> (int, int) {
    (lo + k * size, if lo + (k + 1) * size < hi { lo + (k + 1) * size } else { hi })
}

/// The chunks of `[lo, hi)`, first to last.
pub open spec fn spans(lo: int, hi: int, size: int) -> Seq<(int, int)> {
    Seq::new(span_count(lo, hi, size), |k: int| span(lo, hi, size, k))
}

/// The offsets of `[lo, hi)` in ascending order.
pub open spec fn offsets(lo: int, hi: int) -> Seq<int> {
    Seq::new(if lo < hi { (hi - lo) as nat } else { 0 }, |j: int| lo + j)
}

/// Whether `offset` lies in a column that is neither the first nor the last of
/// a row of `nx` cells.
pub open spec fn is_inner_column(nx: int, offset: int) -> bool {
    nx >= 3 && 1 <= offset % nx <= nx - 2
}

/// The offsets of `[lo, hi)` that lie in an inner column, in ascending order.
pub open spec fn inner_offsets(nx: int, lo: int, hi: int) -> Seq<int>
    decreases hi - lo,
{
    if lo >= hi {
        Seq::empty()
    } else if is_inner_column(nx, lo) {
        seq![lo] + inner_offsets(nx, lo + 1, hi)
    } else {
        inner_offsets(nx, lo + 1, hi)
    }
}

/// Rounding `a / d` up gives the least `n` with `a <= n * d`.
pub proof fn lemma_round_up(a: int, d: int)
    requires
        0 <= a,
        1 <= d,
    ensures
        0 <= (a + d - 1) / d,
        a <= ((a + d - 1) / d) * d,
        ((a + d - 1) / d) * d < a + d,
        a == 0 <==> (a + d - 1) / d == 0,
{
    let n = (a + d - 1) / d;
    let r = (a + d - 1) % d;
    lemma_fundamental_div_mod(a + d - 1, d);
    assert(n * d == d * n) by (nonlinear_arith);
    assert(n >= 0) by (nonlinear_arith)
        requires
            d * n + r == a + d - 1,
            0 <= r < d,
            0 <= a,
            1 <= d,
    ;
    if n == 0 {
        assert(d * n == 0) by (nonlinear_arith)
            requires
                n == 0,
        ;
    }
    if a == 0 {
        assert(n == 0) by (nonlinear_arith)
            requires
                d * n + r == d - 1,
                0 <= r < d,
                n >= 0,
        ;
    }
}

/// The chunk size computed from quotient and remainder is the rounded-up
/// quotient.
pub proof fn lemma_chunk_size(cells: nat, count: nat)
    requires
        count >= 1,
    ensures
        chunk_size(cells, count) == cells / count + if cells % count == 0 {
            0nat
        } else {
            1nat
        },
        chunk_size(cells, count) <= cells,
        cells >= 1 ==> chunk_size(cells, count) >= 1,
{
    let a = cells as int;
    let d = count as int;
    let q = a / d;
    let r = a % d;
    lemma_fundamental_div_mod(a, d);
    lemma_round_up(a, d);
    assert(0 <= q) by (nonlinear_arith)
        requires
            a == d * q + r,
            0 <= r < d,
            0 <= a,
    ;
    assert(q <= a) by (nonlinear_arith)
        requires
            a == d * q + r,
            0 <= r,
            1 <= d,
            0 <= q,
    ;
    if r == 0 {
        assert(a + d - 1 == q * d + (d - 1)) by (nonlinear_arith)
            requires
                a == d * q,
        ;
        lemma_fundamental_div_mod_converse(a + d - 1, d, q, d - 1);
    } else {
        assert(a + d - 1 == (q + 1) * d + (r - 1)) by (nonlinear_arith)
            requires
                a == d * q + r,
        ;
        lemma_fundamental_div_mod_converse(a + d - 1, d, q + 1, r - 1);
        assert(q + 1 <= a) by (nonlinear_arith)
            requires
                a == d * q + r,
                1 <= r,
                1 <= d,
                0 <= q,
        ;
    }
}

/// A run that is not empty is cut into at least one chunk, and the first
/// chunk starts where the run starts.
pub proof fn lemma_chunks_exist(lo: int, cells: nat, count: nat)
    requires
        cells >= 1,
    ensures
        chunk_size(cells, count) >= 1,
        span_count(lo, lo + cells, chunk_size(cells, count) as int) >= 1,
        span(lo, lo + cells, chunk_size(cells, count) as int, 0).0 == lo,
{
    let size = chunk_size(cells, count) as int;
    if count >= 1 {
        lemma_chunk_size(cells, count);
    }
    lemma_round_up(cells as int, size);
    assert(0 * size == 0) by (nonlinear_arith);
}

/// Where the chunks of `[lo, hi)` lie: each is non-empty, each starts where
/// the one before it ended, and the last one ends at `hi`.
pub proof fn lemma_span_bounds(lo: int, hi: int, size: int, k: int)
    requires
        0 <= k < span_count(lo, hi, size),
    ensures
        lo <= span(lo, hi, size, k).0 < span(lo, hi, size, k).1 <= hi,
        span(lo, hi, size, k).1 - span(lo, hi, size, k).0 <= size,
        k + 1 < span_count(lo, hi, size) ==> span(lo, hi, size, k).1 == span(
            lo,
            hi,
            size,
            k + 1,
        ).0 && span(lo, hi, size, k).1 - span(lo, hi, size, k).0 == size,
        k + 1 == span_count(lo, hi, size) ==> span(lo, hi, size, k).1 == hi,
{
    let a = hi - lo;
    let n = (a + size - 1) / size;
    lemma_round_up(a, size);
    assert(k * size + size == (k + 1) * size) by (nonlinear_arith);
    assert(0 <= k * size) by (nonlinear_arith)
        requires
            0 <= k,
            1 <= size,
    ;
    assert((k + 1) * size <= n * size) by (nonlinear_arith)
        requires
            k + 1 <= n,
            1 <= size,
    ;
    if k + 1 < n {
        assert((k + 2) * size <= n * size) by (nonlinear_arith)
            requires
                k + 2 <= n,
                1 <= size,
        ;
        assert((k + 1) * size + size == (k + 2) * size) by (nonlinear_arith);
    }
}

/// Every offset of `[lo, hi)` lies in exactly one chunk.
pub proof fn lemma_span_of_offset(lo: int, hi: int, size: int, i: int)
    requires
        lo <= i < hi,
        1 <= size,
    ensures
        0 <= (i - lo) / size < span_count(lo, hi, size),
        span(lo, hi, size, (i - lo) / size).0 <= i < span(lo, hi, size, (i - lo) / size).1,
        forall|k: int|
            0 <= k < span_count(lo, hi, size) && (#[trigger] span(lo, hi, size, k)).0 <= i
                < span(lo, hi, size, k).1 ==> k == (i - lo) / size,
{
    let a = hi - lo;
    let n = (a + size - 1) / size;
    let q = (i - lo) / size;
    let r = (i - lo) % size;
    lemma_round_up(a, size);
    lemma_fundamental_div_mod(i - lo, size);
    assert(q * size == size * q) by (nonlinear_arith);
    assert(q * size + size == (q + 1) * size) by (nonlinear_arith);
    assert(0 <= q) by (nonlinear_arith)
        requires
            i - lo == size * q + r,
            0 <= r < size,
            0 <= i - lo,
    ;
    assert(q < n) by (nonlinear_arith)
        requires
            q * size <= i - lo,
            i - lo < a,
            a <= n * size,
            1 <= size,
    ;
    assert forall|k: int|
        0 <= k < span_count(lo, hi, size) && (#[trigger] span(lo, hi, size, k)).0 <= i
            < span(lo, hi, size, k).1 implies k == q by {
        assert(k * size + size == (k + 1) * size) by (nonlinear_arith);
        assert(i - lo == k * size + (i - lo - k * size));
        lemma_fundamental_div_mod_converse(i - lo, size, k, i - lo - k * size);
    }
}

/// Taking the first chunk off leaves the chunks of what follows it.
pub proof fn lemma_spans_step(lo: int, hi: int, size: int)
    requires
        lo < hi,
        1 <= size,
    ensures
        spans(lo, hi, size).len() >= 1,
        spans(lo, hi, size)[0] == (lo, if hi - lo < size { hi } else { lo + size }),
        spans(lo, hi, size).drop_first() == spans(
            if hi - lo < size { hi } else { lo + size },
            hi,
            size,
        ),
{
    let a = hi - lo;
    let n = (a + size - 1) / size;
    lemma_round_up(a, size);
    assert(0 * size == 0) by (nonlinear_arith);
    assert((0 + 1) * size == size) by (nonlinear_arith);
    let next = if a < size { hi } else { lo + size };
    let rest = spans(next, hi, size);
    if a <= size {
        assert(n == 1) by (nonlinear_arith)
            requires
                a <= n * size,
                n * size < a + size,
                1 <= a <= size,
        ;
        assert(rest.len() == 0);
    } else {
        lemma_round_up(a - size, size);
        let m = (a - size + size - 1) / size;
        assert(m == n - 1) by (nonlinear_arith)
            requires
                a <= n * size,
                n * size < a + size,
                a - size <= m * size,
                m * size < a,
                1 <= size,
        ;
        assert forall|k: int| 0 <= k < m implies #[trigger] span(next, hi, size, k) == span(
            lo,
            hi,
            size,
            k + 1,
        ) by {
            assert(size + k * size == (k + 1) * size) by (nonlinear_arith);
            assert(size + (k + 1) * size == (k + 2) * size) by (nonlinear_arith);
        }
    }
    assert(spans(lo, hi, size).drop_first() =~= rest);
}

/// Cutting a run in two cuts its offsets in two.
pub proof fn lemma_offsets_concat(lo: int, mid: int, hi: int)
    requires
        lo <= mid <= hi,
    ensures
        offsets(lo, hi) == offsets(lo, mid) + offsets(mid, hi),
{
    assert(offsets(lo, hi) =~= offsets(lo, mid) + offsets(mid, hi));
}

/// Offsets outside the inner columns contribute nothing, so a run may start
/// after them.
pub proof fn lemma_inner_offsets_skip(nx: int, lo: int, hi: int)
    requires
        !is_inner_column(nx, lo),
    ensures
        inner_offsets(nx, lo, hi) == inner_offsets(nx, lo + 1, hi),
    decreases hi - lo,
{
    if lo >= hi {
        assert(inner_offsets(nx, lo + 1, hi) == Seq::<int>::empty());
    }
}

/// The inner offsets of a run are exactly its offsets in an inner column.
pub proof fn lemma_inner_offsets_members(nx: int, lo: int, hi: int)
    ensures
        forall|j: int|
            0 <= j < inner_offsets(nx, lo, hi).len() ==> {
                &&& lo <= #[trigger] inner_offsets(nx, lo, hi)[j] < hi
                &&& is_inner_column(nx, inner_offsets(nx, lo, hi)[j])
            },
        forall|i: int, j: int|
            0 <= i < j < inner_offsets(nx, lo, hi).len() ==> inner_offsets(nx, lo, hi)[i]
                < inner_offsets(nx, lo, hi)[j],
        forall|o: int|
            lo <= o < hi && is_inner_column(nx, o) ==> inner_offsets(nx, lo, hi).contains(o),
    decreases hi - lo,
{
    let all = inner_offsets(nx, lo, hi);
    if lo < hi {
        let rest = inner_offsets(nx, lo + 1, hi);
        lemma_inner_offsets_members(nx, lo + 1, hi);
        if is_inner_column(nx, lo) {
            assert(all == seq![lo] + rest);
            assert forall|j: int| 0 <= j < all.len() implies lo <= #[trigger] all[j] < hi
                && is_inner_column(nx, all[j]) by {
                if j > 0 {
                    assert(all[j] == rest[j - 1]);
                }
            }
            assert forall|i: int, j: int| 0 <= i < j < all.len() implies all[i] < all[j] by {
                assert(all[j] == rest[j - 1]);
                if i > 0 {
                    assert(all[i] == rest[i - 1]);
                }
            }
            assert forall|o: int| lo <= o < hi && is_inner_column(nx, o) implies all.contains(
                o,
            ) by {
                if o == lo {
                    assert(all[0] == o);
                } else {
                    assert(rest.contains(o));
                    let j = choose|j: int| 0 <= j < rest.len() && rest[j] == o;
                    assert(all[j + 1] == o);
                }
            }
        } else {
            assert(all == rest);
        }
    }
}

/// Cutting a run in two cuts its inner offsets in two.
pub proof fn lemma_inner_offsets_concat(nx: int, lo: int, mid: int, hi: int)
    requires
        lo <= mid <= hi,
    ensures
        inner_offsets(nx, lo, hi) == inner_offsets(nx, lo, mid) + inner_offsets(nx, mid, hi),
    decreases mid - lo,
{
    if lo < mid {
        lemma_inner_offsets_concat(nx, lo + 1, mid, hi);
        if is_inner_column(nx, lo) {
            assert(seq![lo] + (inner_offsets(nx, lo + 1, mid) + inner_offsets(nx, mid, hi))
                =~= (seq![lo] + inner_offsets(nx, lo + 1, mid)) + inner_offsets(nx, mid, hi));
        }
    } else {
        assert(inner_offsets(nx, lo, mid) =~= Seq::<int>::empty());
        assert(Seq::<int>::empty() + inner_offsets(nx, mid, hi) =~= inner_offsets(nx, mid, hi));
    }
}

} // verus!
