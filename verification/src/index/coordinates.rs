// the bounding-box index: the id range of the admin levels with a geometry is cut into one
// consecutive range per worker, each worker paging through its own range.
use vstd::prelude::*;

verus! {

/// Progress of the bounding-box index: geometries indexed so far out of all.
pub struct progress_report {
    pub total: Option<u64>,
    pub processed: u64,
}

/// How many ids each worker's range spans.
pub open spec fn range_size(min_id: int, max_id: int, n_workers: int) -> int {
    (max_id - min_id) / n_workers + 1
}

/// The first id of worker `i`'s range.
pub open spec fn range_start(min_id: int, max_id: int, n_workers: int, i: int) -> int {
    min_id + i * range_size(min_id, max_id, n_workers)
}

/// The last id of worker `i`'s range: the next range's start less one, and `max_id` for the last
/// worker.
pub open spec fn range_end(min_id: int, max_id: int, n_workers: int, i: int) -> int {
    if i + 1 == n_workers {
        max_id
    } else {
        range_start(min_id, max_id, n_workers, i) + range_size(min_id, max_id, n_workers) - 1
    }
}

/// Whether `x` lies in worker `i`'s range.
pub open spec fn in_worker_range(min_id: int, max_id: int, n_workers: int, i: int, x: int) -> bool {
    range_start(min_id, max_id, n_workers, i) <= x <= range_end(min_id, max_id, n_workers, i)
}

/// The ids are such that every range bound fits in an `i64`.
pub open spec fn ranges_fit(min_id: i64, max_id: i64, n_workers: usize) -> bool {
    &&& 1 <= n_workers
    &&& 0 <= min_id <= max_id
    &&& max_id + n_workers <= i64::MAX
}

proof fn lemma_start_bound(min_id: int, max_id: int, n: int, i: int)
    requires
        0 <= min_id <= max_id,
        1 <= n,
        0 <= i < n,
    ensures
        0 <= i * range_size(min_id, max_id, n) <= max_id - min_id + n,
{
    let s = range_size(min_id, max_id, n);
    let d = max_id - min_id;
    assert(0 <= d / n);
    assert(n * (d / n) <= d) by (nonlinear_arith)
        requires
            0 <= d,
            1 <= n,
    ;
    assert(i * s <= n * s - s) by (nonlinear_arith)
        requires
            0 <= i < n,
            1 <= s,
    ;
    assert(n * s == n * (d / n) + n) by (nonlinear_arith)
        requires
            s == d / n + 1,
    ;
    assert(0 <= i * s) by (nonlinear_arith)
        requires
            0 <= i,
            1 <= s,
    ;
}

/// The id range of each of `n_workers` workers over `min_id..=max_id`: consecutive ranges of
/// `(max_id - min_id) / n_workers + 1` ids, the last one ending at `max_id`.
pub fn worker_ranges(min_id: i64, max_id: i64, n_workers: usize) -> (r: Vec<(i64, i64)>)
    requires
        ranges_fit(min_id, max_id, n_workers),
    ensures
        r@.len() == n_workers,
        forall|i: int|
            0 <= i < n_workers ==> (#[trigger] r@[i]).0 == range_start(
                min_id as int,
                max_id as int,
                n_workers as int,
                i,
            ) && r@[i].1 == range_end(min_id as int, max_id as int, n_workers as int, i),
{
    let n: i64 = n_workers as i64;
    let size: i64 = (max_id - min_id) / n + 1;
    let mut r: Vec<(i64, i64)> = Vec::new();
    let mut i: usize = 0;
    while i < n_workers
        invariant
            ranges_fit(min_id, max_id, n_workers),
            n == n_workers,
            size == range_size(min_id as int, max_id as int, n_workers as int),
            i <= n_workers,
            r@.len() == i,
            forall|j: int|
                0 <= j < i ==> (#[trigger] r@[j]).0 == range_start(
                    min_id as int,
                    max_id as int,
                    n_workers as int,
                    j,
                ) && r@[j].1 == range_end(min_id as int, max_id as int, n_workers as int, j),
        decreases n_workers - i,
    {
        proof {
            lemma_start_bound(min_id as int, max_id as int, n_workers as int, i as int);
        }
        let offset: i64 = (i as i64) * size;
        let start: i64 = min_id + offset;
        let end: i64 = if i + 1 == n_workers {
            max_id
        } else {
            proof {
                lemma_start_bound(min_id as int, max_id as int, n_workers as int, i + 1);
                assert((i + 1) * size == i * size + size) by (nonlinear_arith);
            }
            start + size - 1
        };
        r.push((start, end));
        i = i + 1;
    }
    r
}

/// Every id from `min_id` to `max_id` lies in exactly one worker's range: the ranges cover the
/// ids without a gap and without an overlap.
pub proof fn lemma_worker_ranges_partition(min_id: i64, max_id: i64, n_workers: usize, x: int)
    requires
        ranges_fit(min_id, max_id, n_workers),
        min_id <= x <= max_id,
    ensures
        exists|i: int|
            0 <= i < n_workers && #[trigger] in_worker_range(
                min_id as int,
                max_id as int,
                n_workers as int,
                i,
                x,
            ),
        forall|i: int, j: int|
            0 <= i < n_workers && 0 <= j < n_workers && #[trigger] in_worker_range(
                min_id as int,
                max_id as int,
                n_workers as int,
                i,
                x,
            ) && #[trigger] in_worker_range(min_id as int, max_id as int, n_workers as int, j, x)
                ==> i == j,
{
    let lo = min_id as int;
    let hi = max_id as int;
    let n = n_workers as int;
    let s = range_size(lo, hi, n);
    let k = (x - lo) / s;
    assert(0 <= k) by (nonlinear_arith)
        requires
            0 <= x - lo,
            1 <= s,
            k == (x - lo) / s,
    ;
    assert(k * s <= x - lo < k * s + s) by (nonlinear_arith)
        requires
            0 <= x - lo,
            1 <= s,
            k == (x - lo) / s,
    ;
    let i = if k < n - 1 {
        k
    } else {
        n - 1
    };
    assert(in_worker_range(lo, hi, n, i, x)) by {
        if k >= n - 1 {
            assert((n - 1) * s <= k * s) by (nonlinear_arith)
                requires
                    n - 1 <= k,
                    1 <= s,
            ;
        }
    }
    assert forall|a: int, b: int|
        0 <= a < n && 0 <= b < n && #[trigger] in_worker_range(lo, hi, n, a, x)
            && #[trigger] in_worker_range(lo, hi, n, b, x) implies a == b by {
        if a < b {
            assert(a * s + s <= b * s) by (nonlinear_arith)
                requires
                    a < b,
                    1 <= s,
            ;
        }
        if b < a {
            assert(b * s + s <= a * s) by (nonlinear_arith)
                requires
                    b < a,
                    1 <= s,
            ;
        }
    }
}

} // verus!
