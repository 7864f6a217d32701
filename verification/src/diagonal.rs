//! Banded wavefront dynamic-programming engine.
//!
//! [`diagonal_distance`] drives a generic alignment recurrence over the
//! `n x m` grid spanned by two sequences, visiting the grid by antidiagonals
//! so that only three rolling buffers are ever resident, and restricting the
//! work to a Sakoe-Chiba corridor around the main diagonal.  The engine is
//! generic over the cell value type and over the two cost evaluators
//! (interior and band edge); its contract states that the returned scalar is
//! the final cell of a dynamic-programming table in which every in-band cell
//! is an admissible output of the matching evaluator applied to its three
//! predecessor cells, and every out-of-band or out-of-grid predecessor reads
//! as `init`.

use vstd::prelude::*;

use crate::utils::{filled, max, min};
use vstd::pervasive::VecAdditionalExecFns;

verus! {

/// Cell `(i, j)` lies inside a Sakoe-Chiba corridor of half-width `w`.
pub open spec fn in_band(i: int, j: int, w: int) -> bool {
    -w <= i - j && i - j <= w
}

/// Cell `(i, j)` lies on the boundary of the corridor; the engine hands such
/// cells to the edge cost evaluator instead of the interior one.
pub open spec fn on_band_edge(i: int, j: int, w: int) -> bool {
    i - j == w || j - i == w
}

/// The corridor half-width actually used by the engine for sequences of
/// length `n <= m` and a requested half-width `w`: clamped from below to the
/// length difference `m - n`, so that a valid alignment path to the final
/// cell always exists, and from above to `m`, beyond which the corridor
/// already covers the whole grid.
pub open spec fn effective_band(n: int, m: int, w: int) -> int {
    if w < m - n {
        m - n
    } else if w > m {
        m
    } else {
        w
    }
}

/// Both indices in range for an `n x m` alignment grid.
pub open spec fn valid_cell(n: int, m: int, i: int, j: int) -> bool {
    0 <= i < n && 0 <= j < m
}

/// The `from-a-advance` predecessor of cell `(i, j)`: the value at
/// `(i-1, j)`, or `init` when that cell is outside the grid or the corridor.
pub open spec fn pred_from_a<T>(t: Map<(int, int), T>, i: int, j: int, w: int, init: T) -> T {
    if 1 <= i && in_band(i - 1, j, w) {
        t[(i - 1, j)]
    } else {
        init
    }
}

/// The diagonal-match predecessor of cell `(i, j)`: the value at
/// `(i-1, j-1)`; the virtual predecessor of the first cell `(0, 0)` is the
/// boundary value `origin`, and any other out-of-grid or out-of-corridor
/// predecessor reads as `init`.
pub open spec fn pred_diag<T>(
    t: Map<(int, int), T>,
    i: int,
    j: int,
    w: int,
    init: T,
    origin: T,
) -> T {
    if i == 0 && j == 0 {
        origin
    } else if 1 <= i && 1 <= j && in_band(i - 1, j - 1, w) {
        t[(i - 1, j - 1)]
    } else {
        init
    }
}

/// The `from-b-advance` predecessor of cell `(i, j)`: the value at
/// `(i, j-1)`, or `init` when that cell is outside the grid or the corridor.
pub open spec fn pred_from_b<T>(t: Map<(int, int), T>, i: int, j: int, w: int, init: T) -> T {
    if 1 <= j && in_band(i, j - 1, w) {
        t[(i, j - 1)]
    } else {
        init
    }
}

/// Cell `(i, j)` of table `t` is an admissible output of the matching cost
/// evaluator applied to the cell's three predecessor values.
pub open spec fn cell_consistent<T, FC, FE>(
    t: Map<(int, int), T>,
    i: int,
    j: int,
    w: int,
    init: T,
    origin: T,
    cost_fn: FC,
    edge_cost_fn: FE,
) -> bool where FC: Fn(usize, usize, T, T, T) -> T, FE: Fn(usize, usize, T, T, T) -> T {
    let args = (
        i as usize,
        j as usize,
        pred_from_a(t, i, j, w, init),
        pred_diag(t, i, j, w, init, origin),
        pred_from_b(t, i, j, w, init),
    );
    if on_band_edge(i, j, w) {
        call_ensures(edge_cost_fn, args, t[(i, j)])
    } else {
        call_ensures(cost_fn, args, t[(i, j)])
    }
}

/// Table `t` is a complete banded dynamic-programming table for an `n x m`
/// grid with corridor half-width `w`: every in-band cell is present and
/// consistent with the cost evaluators.
pub open spec fn table_consistent<T, FC, FE>(
    t: Map<(int, int), T>,
    n: int,
    m: int,
    w: int,
    init: T,
    origin: T,
    cost_fn: FC,
    edge_cost_fn: FE,
) -> bool where FC: Fn(usize, usize, T, T, T) -> T, FE: Fn(usize, usize, T, T, T) -> T {
    forall|i: int, j: int|
        valid_cell(n, m, i, j) && in_band(i, j, w) ==> #[trigger] t.contains_key((i, j))
            && cell_consistent(t, i, j, w, init, origin, cost_fn, edge_cost_fn)
}

/// As `table_consistent`, but only for the cells strictly before antidiagonal
/// `bound`; the engine's loop invariant.
spec fn covered<T, FC, FE>(
    t: Map<(int, int), T>,
    n: int,
    m: int,
    w: int,
    bound: int,
    init: T,
    origin: T,
    cost_fn: FC,
    edge_cost_fn: FE,
) -> bool where FC: Fn(usize, usize, T, T, T) -> T, FE: Fn(usize, usize, T, T, T) -> T {
    forall|i: int, j: int|
        valid_cell(n, m, i, j) && in_band(i, j, w) && i + j < bound ==> #[trigger] t.contains_key(
            (i, j),
        ) && cell_consistent(t, i, j, w, init, origin, cost_fn, edge_cost_fn)
}

/// A rolling buffer holds the values of antidiagonal `d` of table `t` at the
/// buffer index given by the row index `i`.
spec fn buffer_matches<T>(buf: Seq<T>, t: Map<(int, int), T>, d: int, n: int, m: int, w: int) -> bool {
    forall|i: int|
        0 <= i < n && 0 <= d - i < m && in_band(i, d - i, w) ==> #[trigger] buf[i] == t[(i, d - i)]
}

/// Inserting a cell whose antidiagonal is not earlier than `(i, j)`'s, and
/// which is neither `(i, j)` nor one of its three predecessors, leaves the
/// consistency of `(i, j)` untouched.
proof fn lemma_insert_preserves_cell<T, FC, FE>(
    t: Map<(int, int), T>,
    ki: int,
    kj: int,
    v: T,
    i: int,
    j: int,
    w: int,
    init: T,
    origin: T,
    cost_fn: FC,
    edge_cost_fn: FE,
) where FC: Fn(usize, usize, T, T, T) -> T, FE: Fn(usize, usize, T, T, T) -> T
    requires
        cell_consistent(t, i, j, w, init, origin, cost_fn, edge_cost_fn),
        i + j < ki + kj || (i + j == ki + kj && i != ki),
    ensures
        cell_consistent(t.insert((ki, kj), v), i, j, w, init, origin, cost_fn, edge_cost_fn),
{
    let t2 = t.insert((ki, kj), v);
    assert((i, j) != (ki, kj));
    assert(t2[(i, j)] == t[(i, j)]);
    assert((i - 1, j) != (ki, kj));
    assert((i - 1, j - 1) != (ki, kj));
    assert((i, j - 1) != (ki, kj));
    assert(pred_from_a(t2, i, j, w, init) == pred_from_a(t, i, j, w, init));
    assert(pred_diag(t2, i, j, w, init, origin) == pred_diag(t, i, j, w, init, origin));
    assert(pred_from_b(t2, i, j, w, init) == pred_from_b(t, i, j, w, init));
}

/// Folds the pointwise consistency of all cells before antidiagonal `bound`
/// back into `covered`.
proof fn lemma_covered_intro<T, FC, FE>(
    t: Map<(int, int), T>,
    n: int,
    m: int,
    w: int,
    bound: int,
    init: T,
    origin: T,
    cost_fn: FC,
    edge_cost_fn: FE,
) where FC: Fn(usize, usize, T, T, T) -> T, FE: Fn(usize, usize, T, T, T) -> T
    requires
        forall|i: int, j: int|
            valid_cell(n, m, i, j) && in_band(i, j, w) && i + j < bound ==> #[trigger] t.contains_key(
                (i, j),
            ) && cell_consistent(t, i, j, w, init, origin, cost_fn, edge_cost_fn),
    ensures
        covered(t, n, m, w, bound, init, origin, cost_fn, edge_cost_fn),
{
}

/// Inserting a cell of antidiagonal `bound` or later leaves every cell of an
/// earlier antidiagonal, and its consistency, untouched.
proof fn lemma_insert_preserves_covered<T, FC, FE>(
    t: Map<(int, int), T>,
    ki: int,
    kj: int,
    v: T,
    n: int,
    m: int,
    w: int,
    bound: int,
    init: T,
    origin: T,
    cost_fn: FC,
    edge_cost_fn: FE,
) where FC: Fn(usize, usize, T, T, T) -> T, FE: Fn(usize, usize, T, T, T) -> T
    requires
        covered(t, n, m, w, bound, init, origin, cost_fn, edge_cost_fn),
        bound <= ki + kj,
    ensures
        covered(t.insert((ki, kj), v), n, m, w, bound, init, origin, cost_fn, edge_cost_fn),
{
    let t2 = t.insert((ki, kj), v);
    assert forall|i2: int, j2: int|
        valid_cell(n, m, i2, j2) && in_band(i2, j2, w) && i2 + j2 < bound implies #[trigger] t2.contains_key(
        (i2, j2),
    ) && cell_consistent(t2, i2, j2, w, init, origin, cost_fn, edge_cost_fn) by {
        assert(t.contains_key((i2, j2)));
        lemma_insert_preserves_cell(t, ki, kj, v, i2, j2, w, init, origin, cost_fn, edge_cost_fn);
    }
}

/// Inserting the cell at row `ki` of antidiagonal `s` leaves the already
/// finished rows `lo..ki` of that antidiagonal, and their consistency,
/// untouched.
proof fn lemma_insert_preserves_prefix<T, FC, FE>(
    t: Map<(int, int), T>,
    ki: int,
    v: T,
    s: int,
    lo: int,
    w: int,
    init: T,
    origin: T,
    cost_fn: FC,
    edge_cost_fn: FE,
    cur_old: Seq<T>,
    cur_new: Seq<T>,
) where FC: Fn(usize, usize, T, T, T) -> T, FE: Fn(usize, usize, T, T, T) -> T
    requires
        0 <= lo,
        0 <= ki < cur_old.len(),
        cur_new == cur_old.update(ki, v),
        forall|i2: int|
            lo <= i2 < ki ==> #[trigger] t.contains_key((i2, s - i2)) && cell_consistent(
                t,
                i2,
                s - i2,
                w,
                init,
                origin,
                cost_fn,
                edge_cost_fn,
            ) && cur_old[i2] == t[(i2, s - i2)],
    ensures
        forall|i2: int|
            lo <= i2 < ki ==> #[trigger] t.insert((ki, s - ki), v).contains_key((i2, s - i2))
                && cell_consistent(
                t.insert((ki, s - ki), v),
                i2,
                s - i2,
                w,
                init,
                origin,
                cost_fn,
                edge_cost_fn,
            ) && cur_new[i2] == t.insert((ki, s - ki), v)[(i2, s - i2)],
{
    let t2 = t.insert((ki, s - ki), v);
    assert forall|i2: int|
        lo <= i2 < ki implies #[trigger] t2.contains_key((i2, s - i2)) && cell_consistent(
        t2,
        i2,
        s - i2,
        w,
        init,
        origin,
        cost_fn,
        edge_cost_fn,
    ) && cur_new[i2] == t2[(i2, s - i2)] by {
        assert(t.contains_key((i2, s - i2)));
        assert(cur_new[i2] == cur_old[i2]);
        lemma_insert_preserves_cell(
            t,
            ki,
            s - ki,
            v,
            i2,
            s - i2,
            w,
            init,
            origin,
            cost_fn,
            edge_cost_fn,
        );
    }
}

/// Computes one scalar alignment value between two sequences of lengths
/// `n <= m` by a banded antidiagonal traversal of the implicit `n x m`
/// dynamic-programming grid.
///
/// The cost evaluators close over the two sequences and over any metric
/// parameters; the engine hands them the cell indices and the three
/// predecessor values (`from-a-advance`, diagonal match, `from-b-advance`),
/// substituting `init` for predecessors outside the grid or the corridor and
/// `origin` for the virtual diagonal predecessor of the first cell.  Interior
/// cells go to `cost_fn` and cells on the corridor boundary to
/// `edge_cost_fn`; the two slots are independent, although every current
/// metric passes the same evaluator in both.
///
/// The result is the value of the final cell `(n-1, m-1)` — always inside
/// the clamped corridor — of a table in which every in-band cell is an
/// admissible evaluator output for its predecessors.  When the evaluators
/// are deterministic this pins the result down to the unique banded
/// dynamic-programming value.
#[verifier::loop_isolation(false)]
#[verifier::rlimit(100)]
pub fn diagonal_distance<T: Copy, FC, FE>(
    n: usize,
    m: usize,
    init: T,
    origin: T,
    band: usize,
    cost_fn: FC,
    edge_cost_fn: FE,
) -> (r: T) where FC: Fn(usize, usize, T, T, T) -> T, FE: Fn(usize, usize, T, T, T) -> T
    requires
        1 <= n <= m,
        m <= usize::MAX / 4,
        forall|i: usize, j: usize, x: T, y: T, z: T|
            i < n && j < m ==> call_requires(cost_fn, (i, j, x, y, z)),
        forall|i: usize, j: usize, x: T, y: T, z: T|
            i < n && j < m ==> call_requires(edge_cost_fn, (i, j, x, y, z)),
    ensures
        exists|t: Map<(int, int), T>|
            #[trigger] table_consistent(
                t,
                n as int,
                m as int,
                effective_band(n as int, m as int, band as int),
                init,
                origin,
                cost_fn,
                edge_cost_fn,
            ) && r == t[(n - 1 as int, m - 1 as int)],
{
    let w: usize = if band < m - n {
        m - n
    } else if band > m {
        m
    } else {
        band
    };
    assert(w == effective_band(n as int, m as int, band as int));

    let mut prev2: Vec<T> = filled(n, init);
    let mut prev: Vec<T> = filled(n, init);
    let mut cur: Vec<T> = filled(n, init);
    let ghost mut tbl: Map<(int, int), T> = Map::empty();

    let total: usize = n + m - 1;
    let mut s: usize = 0;
    while s < total
        invariant
            s <= total,
            prev2@.len() == n,
            prev@.len() == n,
            cur@.len() == n,
            covered(tbl, n as int, m as int, w as int, s as int, init, origin, cost_fn, edge_cost_fn),
            buffer_matches(prev@, tbl, s as int - 1, n as int, m as int, w as int),
            buffer_matches(prev2@, tbl, s as int - 2, n as int, m as int, w as int),
        decreases total - s,
    {
        // The range of row indices on antidiagonal `s` that lie both inside
        // the grid and inside the corridor.
        let lo_grid: usize = if s >= m { s - m + 1 } else { 0 };
        let hi_grid: usize = if s < n { s } else { n - 1 };
        let lo_band: usize = if s > w { (s - w + 1) / 2 } else { 0 };
        let hi_band: usize = (s + w) / 2;
        let lo: usize = max(lo_grid, lo_band);
        let hi: usize = min(hi_grid, hi_band);
        proof {
            // Rounding of the halved corridor bounds.
            assert(2 * (lo_band as int) >= s as int - w as int);
            assert(2 * (hi_band as int) <= s as int + w as int);
        }

        if lo <= hi {
            let mut i: usize = lo;
            #[verifier::loop_isolation(true)]
            while i <= hi
                invariant
                    1 <= n <= m,
                    m <= usize::MAX / 4,
                    m as int - n as int <= w as int <= m as int,
                    s as int <= n as int + m as int - 2,
                    lo <= i <= hi + 1,
                    hi < n,
                    hi <= s,
                    s as int - (m as int - 1) <= lo as int,
                    2 * (lo as int) >= s as int - w as int,
                    2 * (hi as int) <= s as int + w as int,
                    prev2@.len() == n,
                    prev@.len() == n,
                    cur@.len() == n,
                    covered(
                        tbl,
                        n as int,
                        m as int,
                        w as int,
                        s as int,
                        init,
                        origin,
                        cost_fn,
                        edge_cost_fn,
                    ),
                    forall|i2: int|
                        lo <= i2 < i ==> #[trigger] tbl.contains_key((i2, s as int - i2))
                            && cell_consistent(
                            tbl,
                            i2,
                            s as int - i2,
                            w as int,
                            init,
                            origin,
                            cost_fn,
                            edge_cost_fn,
                        ) && cur@[i2] == tbl[(i2, s as int - i2)],
                    buffer_matches(prev@, tbl, s as int - 1, n as int, m as int, w as int),
                    buffer_matches(prev2@, tbl, s as int - 2, n as int, m as int, w as int),
                    forall|i3: usize, j3: usize, x: T, y: T, z: T|
                        i3 < n && j3 < m ==> call_requires(cost_fn, (i3, j3, x, y, z)),
                    forall|i3: usize, j3: usize, x: T, y: T, z: T|
                        i3 < n && j3 < m ==> call_requires(edge_cost_fn, (i3, j3, x, y, z)),
                decreases hi + 1 - i,
            {
                let j: usize = s - i;
                proof {
                    // `lo <= i <= hi` places the cell inside the grid and
                    // the corridor.
                    assert(valid_cell(n as int, m as int, i as int, j as int));
                    assert(in_band(i as int, j as int, w as int));
                }

                let from_a: T = if i >= 1 && i - 1 <= j + w && j <= i - 1 + w {
                    assert(tbl.contains_key((i as int - 1, j as int)));
                    prev[i - 1]
                } else {
                    init
                };
                assert(from_a == pred_from_a(tbl, i as int, j as int, w as int, init));

                let diag: T = if i >= 1 && j >= 1 {
                    assert(in_band(i as int - 1, j as int - 1, w as int));
                    assert(tbl.contains_key((i as int - 1, j as int - 1)));
                    prev2[i - 1]
                } else if i == 0 && j == 0 {
                    origin
                } else {
                    init
                };
                assert(diag == pred_diag(tbl, i as int, j as int, w as int, init, origin));

                let from_b: T = if j >= 1 && i <= j - 1 + w && j - 1 <= i + w {
                    assert(tbl.contains_key((i as int, j as int - 1)));
                    prev[i]
                } else {
                    init
                };
                assert(from_b == pred_from_b(tbl, i as int, j as int, w as int, init));

                let v: T = if i == j + w || j == i + w {
                    edge_cost_fn(i, j, from_a, diag, from_b)
                } else {
                    cost_fn(i, j, from_a, diag, from_b)
                };
                let ghost cur_before = cur@;
                cur.set(i, v);

                proof {
                    let ghost old_tbl = tbl;
                    tbl = tbl.insert((i as int, j as int), v);
                    assert(j as int == s as int - i as int);
                    lemma_insert_preserves_covered(
                        old_tbl,
                        i as int,
                        j as int,
                        v,
                        n as int,
                        m as int,
                        w as int,
                        s as int,
                        init,
                        origin,
                        cost_fn,
                        edge_cost_fn,
                    );
                    lemma_insert_preserves_prefix(
                        old_tbl,
                        i as int,
                        v,
                        s as int,
                        lo as int,
                        w as int,
                        init,
                        origin,
                        cost_fn,
                        edge_cost_fn,
                        cur_before,
                        cur@,
                    );
                    assert(pred_from_a(tbl, i as int, j as int, w as int, init) == from_a);
                    assert(pred_diag(tbl, i as int, j as int, w as int, init, origin) == diag);
                    assert(pred_from_b(tbl, i as int, j as int, w as int, init) == from_b);
                    assert(tbl.contains_key((i as int, s as int - i as int)));
                    assert(cur@[i as int] == tbl[(i as int, s as int - i as int)]);
                    assert(cell_consistent(
                        tbl,
                        i as int,
                        s as int - i as int,
                        w as int,
                        init,
                        origin,
                        cost_fn,
                        edge_cost_fn,
                    ));
                    assert(buffer_matches(prev@, tbl, s as int - 1, n as int, m as int, w as int));
                    assert(buffer_matches(prev2@, tbl, s as int - 2, n as int, m as int, w as int));
                }
                i = i + 1;
            }
            proof {
                assert forall|i2: int, j2: int|
                    valid_cell(n as int, m as int, i2, j2) && in_band(i2, j2, w as int) && i2 + j2
                        < s as int + 1 implies #[trigger] tbl.contains_key((i2, j2))
                    && cell_consistent(tbl, i2, j2, w as int, init, origin, cost_fn, edge_cost_fn) by {
                    if i2 + j2 == s as int {
                        // In-band grid cells of this antidiagonal are exactly
                        // the rows in [lo, hi].
                        assert(2 * i2 >= s as int - w as int && 2 * i2 <= s as int + w as int);
                        assert(lo <= i2 && i2 <= hi);
                        assert(tbl.contains_key((i2, s as int - i2)));
                        assert(cell_consistent(
                            tbl,
                            i2,
                            s as int - i2,
                            w as int,
                            init,
                            origin,
                            cost_fn,
                            edge_cost_fn,
                        ));
                        assert(j2 == s as int - i2);
                    } else {
                        assert(i2 + j2 < s as int);
                        assert(tbl.contains_key((i2, j2)));
                        assert(cell_consistent(
                            tbl,
                            i2,
                            j2,
                            w as int,
                            init,
                            origin,
                            cost_fn,
                            edge_cost_fn,
                        ));
                    }
                }
                assert forall|i2: int|
                    0 <= i2 < n as int && 0 <= s as int - i2 < m as int && in_band(
                        i2,
                        s as int - i2,
                        w as int,
                    ) implies #[trigger] cur@[i2] == tbl[(i2, s as int - i2)] by {
                    assert(2 * i2 >= s as int - w as int && 2 * i2 <= s as int + w as int);
                    assert(lo <= i2 && i2 <= hi);
                    assert(tbl.contains_key((i2, s as int - i2)));
                }
                assert(buffer_matches(cur@, tbl, s as int, n as int, m as int, w as int));
                lemma_covered_intro(
                    tbl,
                    n as int,
                    m as int,
                    w as int,
                    s as int + 1,
                    init,
                    origin,
                    cost_fn,
                    edge_cost_fn,
                );
            }
        } else {
            proof {
                // No cell of this antidiagonal lies inside both the grid and
                // the corridor.
                assert forall|i2: int, j2: int|
                    valid_cell(n as int, m as int, i2, j2) && in_band(i2, j2, w as int) && i2 + j2
                        < s as int + 1 implies #[trigger] tbl.contains_key((i2, j2))
                    && cell_consistent(tbl, i2, j2, w as int, init, origin, cost_fn, edge_cost_fn) by {
                    if i2 + j2 == s as int {
                        assert(2 * i2 >= s as int - w as int && 2 * i2 <= s as int + w as int);
                        assert(lo <= i2 && i2 <= hi);
                        assert(false);
                    }
                }
                assert forall|i2: int|
                    0 <= i2 < n as int && 0 <= s as int - i2 < m as int && in_band(
                        i2,
                        s as int - i2,
                        w as int,
                    ) implies #[trigger] cur@[i2] == tbl[(i2, s as int - i2)] by {
                    assert(2 * i2 >= s as int - w as int && 2 * i2 <= s as int + w as int);
                    assert(lo <= i2 && i2 <= hi);
                    assert(false);
                }
                assert(buffer_matches(cur@, tbl, s as int, n as int, m as int, w as int));
                lemma_covered_intro(
                    tbl,
                    n as int,
                    m as int,
                    w as int,
                    s as int + 1,
                    init,
                    origin,
                    cost_fn,
                    edge_cost_fn,
                );
            }
        }

        let tmp: Vec<T> = prev2;
        prev2 = prev;
        prev = cur;
        cur = tmp;
        s = s + 1;
    }

    proof {
        assert(in_band(n as int - 1, m as int - 1, w as int));
        assert(tbl.contains_key((n as int - 1, m as int - 1)));
        assert(table_consistent(
            tbl,
            n as int,
            m as int,
            w as int,
            init,
            origin,
            cost_fn,
            edge_cost_fn,
        ));
    }
    prev[n - 1]
}

} // verus!
