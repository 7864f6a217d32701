//! Library-level laws: properties that relate whole runs of the engine.

use vstd::prelude::*;

use crate::diagonal::{
    cell_consistent, in_band, pred_diag, pred_from_a, pred_from_b, table_consistent, valid_cell,
};
use crate::distances::pair_value;

verus! {

/// The orchestrator hands every pair of sequences of unequal length to the
/// distance function in one canonical order, shorter first, so the two call
/// directions constrain the very same evaluator application: for such pairs
/// the symmetry of the pairwise matrix does not depend on the evaluator at
/// all.
pub proof fn lemma_pair_value_order_independent<E, T, F>(
    distance: F,
    a: &Vec<E>,
    b: &Vec<E>,
    v: T,
) where F: Fn(&Vec<E>, &Vec<E>) -> T
    requires
        a@.len() != b@.len(),
    ensures
        pair_value(distance, a, b, v) == pair_value(distance, b, a, v),
{
}

/// A cost evaluator is deterministic: it admits at most one output for any
/// argument tuple.
pub open spec fn deterministic<T, F>(f: F) -> bool where F: Fn(usize, usize, T, T, T) -> T {
    forall|args: (usize, usize, T, T, T), o1: T, o2: T|
        #[trigger] call_ensures(f, args, o1) && #[trigger] call_ensures(f, args, o2) ==> o1 == o2
}

/// Reads one cell's consistency back out of a complete table.
proof fn lemma_table_at<T, FC, FE>(
    t: Map<(int, int), T>,
    n: int,
    m: int,
    w: int,
    i: int,
    j: int,
    init: T,
    origin: T,
    cost_fn: FC,
    edge_cost_fn: FE,
) where FC: Fn(usize, usize, T, T, T) -> T, FE: Fn(usize, usize, T, T, T) -> T
    requires
        table_consistent(t, n, m, w, init, origin, cost_fn, edge_cost_fn),
        valid_cell(n, m, i, j),
        in_band(i, j, w),
    ensures
        t.contains_key((i, j)),
        cell_consistent(t, i, j, w, init, origin, cost_fn, edge_cost_fn),
{
    assert(t.contains_key((i, j)) && cell_consistent(t, i, j, w, init, origin, cost_fn, edge_cost_fn));
}

/// One step of the uniqueness argument: two consistent tables whose
/// predecessor values agree at `(i, j)` also agree at `(i, j)` itself, since
/// a deterministic evaluator admits only one output for those predecessors.
proof fn lemma_cell_step<T, FC, FE>(
    t1: Map<(int, int), T>,
    t2: Map<(int, int), T>,
    n: int,
    m: int,
    w: int,
    i: int,
    j: int,
    init: T,
    origin: T,
    cost_fn: FC,
    edge_cost_fn: FE,
) where FC: Fn(usize, usize, T, T, T) -> T, FE: Fn(usize, usize, T, T, T) -> T
    requires
        table_consistent(t1, n, m, w, init, origin, cost_fn, edge_cost_fn),
        table_consistent(t2, n, m, w, init, origin, cost_fn, edge_cost_fn),
        deterministic(cost_fn),
        deterministic(edge_cost_fn),
        valid_cell(n, m, i, j),
        in_band(i, j, w),
        pred_from_a(t1, i, j, w, init) == pred_from_a(t2, i, j, w, init),
        pred_diag(t1, i, j, w, init, origin) == pred_diag(t2, i, j, w, init, origin),
        pred_from_b(t1, i, j, w, init) == pred_from_b(t2, i, j, w, init),
    ensures
        t1[(i, j)] == t2[(i, j)],
{
    lemma_table_at(t1, n, m, w, i, j, init, origin, cost_fn, edge_cost_fn);
    lemma_table_at(t2, n, m, w, i, j, init, origin, cost_fn, edge_cost_fn);
}

/// With deterministic cost evaluators, any two complete banded tables for
/// the same grid and corridor agree on every in-band cell: the table of
/// `table_consistent` is unique, cell by cell, by induction along the
/// antidiagonals.
pub proof fn lemma_cell_value_unique<T, FC, FE>(
    t1: Map<(int, int), T>,
    t2: Map<(int, int), T>,
    n: int,
    m: int,
    w: int,
    i: int,
    j: int,
    init: T,
    origin: T,
    cost_fn: FC,
    edge_cost_fn: FE,
) where FC: Fn(usize, usize, T, T, T) -> T, FE: Fn(usize, usize, T, T, T) -> T
    requires
        table_consistent(t1, n, m, w, init, origin, cost_fn, edge_cost_fn),
        table_consistent(t2, n, m, w, init, origin, cost_fn, edge_cost_fn),
        deterministic(cost_fn),
        deterministic(edge_cost_fn),
        valid_cell(n, m, i, j),
        in_band(i, j, w),
    ensures
        t1[(i, j)] == t2[(i, j)],
    decreases i + j,
{
    if 1 <= i && in_band(i - 1, j, w) {
        lemma_cell_value_unique(t1, t2, n, m, w, i - 1, j, init, origin, cost_fn, edge_cost_fn);
    }
    if 1 <= i && 1 <= j && in_band(i - 1, j - 1, w) {
        lemma_cell_value_unique(t1, t2, n, m, w, i - 1, j - 1, init, origin, cost_fn, edge_cost_fn);
    }
    if 1 <= j && in_band(i, j - 1, w) {
        lemma_cell_value_unique(t1, t2, n, m, w, i, j - 1, init, origin, cost_fn, edge_cost_fn);
    }
    assert(pred_from_a(t1, i, j, w, init) == pred_from_a(t2, i, j, w, init));
    assert(pred_diag(t1, i, j, w, init, origin) == pred_diag(t2, i, j, w, init, origin));
    assert(pred_from_b(t1, i, j, w, init) == pred_from_b(t2, i, j, w, init));
    lemma_cell_step(t1, t2, n, m, w, i, j, init, origin, cost_fn, edge_cost_fn);
}

/// With deterministic cost evaluators the engine's result is a function of
/// its inputs alone: any two runs of [`diagonal_distance`] over the same
/// lengths, corridor, boundary values and evaluators return the same scalar,
/// whatever order the cells were visited in.
///
/// [`diagonal_distance`]: crate::diagonal::diagonal_distance
pub proof fn lemma_distance_deterministic<T, FC, FE>(
    t1: Map<(int, int), T>,
    t2: Map<(int, int), T>,
    n: int,
    m: int,
    w: int,
    init: T,
    origin: T,
    cost_fn: FC,
    edge_cost_fn: FE,
) where FC: Fn(usize, usize, T, T, T) -> T, FE: Fn(usize, usize, T, T, T) -> T
    requires
        table_consistent(t1, n, m, w, init, origin, cost_fn, edge_cost_fn),
        table_consistent(t2, n, m, w, init, origin, cost_fn, edge_cost_fn),
        deterministic(cost_fn),
        deterministic(edge_cost_fn),
        1 <= n <= m,
        m - n <= w,
    ensures
        t1[(n - 1, m - 1)] == t2[(n - 1, m - 1)],
{
    lemma_cell_value_unique(t1, t2, n, m, w, n - 1, m - 1, init, origin, cost_fn, edge_cost_fn);
}

/// A pairwise distance function is deterministic: it admits at most one
/// output for any ordered pair of sequences.
pub open spec fn pairwise_deterministic<E, T, F>(f: F) -> bool where F: Fn(&Vec<E>, &Vec<E>) -> T {
    forall|a: &Vec<E>, b: &Vec<E>, o1: T, o2: T|
        #[trigger] call_ensures(f, (a, b), o1) && #[trigger] call_ensures(f, (a, b), o2) ==> o1
            == o2
}

/// With a deterministic distance function the self-comparison matrix is a
/// function of the collection alone: any two matrices that satisfy the
/// orchestrator's contract for the same collection agree cell by cell,
/// whatever order their cells were computed in.
pub proof fn lemma_self_matrix_unique<E, T, F>(
    distance: F,
    x1: &Vec<Vec<E>>,
    zero: T,
    m1: &Vec<Vec<T>>,
    m2: &Vec<Vec<T>>,
) where F: Fn(&Vec<E>, &Vec<E>) -> T
    requires
        pairwise_deterministic(distance),
        m1@.len() == x1@.len(),
        m2@.len() == x1@.len(),
        forall|i: int| 0 <= i < x1@.len() ==> #[trigger] m1@[i]@.len() == x1@.len(),
        forall|i: int| 0 <= i < x1@.len() ==> #[trigger] m2@[i]@.len() == x1@.len(),
        forall|i: int| 0 <= i < x1@.len() ==> #[trigger] m1@[i]@[i] == zero,
        forall|i: int| 0 <= i < x1@.len() ==> #[trigger] m2@[i]@[i] == zero,
        forall|i: int, j: int|
            0 <= i < x1@.len() && 0 <= j < x1@.len() ==> #[trigger] m1@[i]@[j] == m1@[j]@[i],
        forall|i: int, j: int|
            0 <= i < x1@.len() && 0 <= j < x1@.len() ==> #[trigger] m2@[i]@[j] == m2@[j]@[i],
        forall|i: int, j: int|
            0 <= j < i < x1@.len() ==> pair_value(distance, &x1[i], &x1[j], #[trigger] m1@[i]@[j]),
        forall|i: int, j: int|
            0 <= j < i < x1@.len() ==> pair_value(distance, &x1[i], &x1[j], #[trigger] m2@[i]@[j]),
    ensures
        forall|i: int, j: int|
            0 <= i < x1@.len() && 0 <= j < x1@.len() ==> #[trigger] m1@[i]@[j] == m2@[i]@[j],
{
    assert forall|i: int, j: int|
        0 <= i < x1@.len() && 0 <= j < x1@.len() implies #[trigger] m1@[i]@[j] == m2@[i]@[j] by {
        if j < i {
            assert(pair_value(distance, &x1[i], &x1[j], m1@[i]@[j]));
            assert(pair_value(distance, &x1[i], &x1[j], m2@[i]@[j]));
        } else if i < j {
            assert(pair_value(distance, &x1[j], &x1[i], m1@[j]@[i]));
            assert(pair_value(distance, &x1[j], &x1[i], m2@[j]@[i]));
            assert(m1@[i]@[j] == m1@[j]@[i]);
            assert(m2@[i]@[j] == m2@[j]@[i]);
        }
    }
}

/// The two evaluator slots admit exactly the same outputs; every metric of
/// the catalog passes the same evaluator in both.
pub open spec fn equivalent_evaluators<T, FC, FE>(cost_fn: FC, edge_cost_fn: FE) -> bool where
    FC: Fn(usize, usize, T, T, T) -> T,
    FE: Fn(usize, usize, T, T, T) -> T,
 {
    forall|args: (usize, usize, T, T, T), o: T|
        #![trigger call_ensures(cost_fn, args, o)]
        #![trigger call_ensures(edge_cost_fn, args, o)]
        call_ensures(cost_fn, args, o) <==> call_ensures(edge_cost_fn, args, o)
}

/// The evaluator is monotone with respect to `le` in its three predecessor
/// arguments: improving the predecessors can only improve the output.  For
/// a minimization metric `le` is "not worse, that is not larger"; for the
/// maximization metric it is the reverse.
pub open spec fn monotone_evaluator<T, F>(f: F, le: spec_fn(T, T) -> bool) -> bool where
    F: Fn(usize, usize, T, T, T) -> T
 {
    forall|i: usize, j: usize, x1: T, y1: T, z1: T, x2: T, y2: T, z2: T, o1: T, o2: T|
        le(x1, x2) && le(y1, y2) && le(z1, z2) && #[trigger] call_ensures(
            f,
            (i, j, x1, y1, z1),
            o1,
        ) && #[trigger] call_ensures(f, (i, j, x2, y2, z2), o2) ==> le(o1, o2)
}

/// One step of the band-widening argument: if each predecessor value of the
/// wide-corridor table is not worse than the narrow-corridor one, the cell
/// value is not worse either.
proof fn lemma_mono_cell_step<T, FC, FE>(
    t1: Map<(int, int), T>,
    t2: Map<(int, int), T>,
    n: int,
    m: int,
    w1: int,
    w2: int,
    i: int,
    j: int,
    init: T,
    origin: T,
    cost_fn: FC,
    edge_cost_fn: FE,
    le: spec_fn(T, T) -> bool,
) where FC: Fn(usize, usize, T, T, T) -> T, FE: Fn(usize, usize, T, T, T) -> T
    requires
        table_consistent(t1, n, m, w1, init, origin, cost_fn, edge_cost_fn),
        table_consistent(t2, n, m, w2, init, origin, cost_fn, edge_cost_fn),
        equivalent_evaluators(cost_fn, edge_cost_fn),
        monotone_evaluator(cost_fn, le),
        valid_cell(n, m, i, j),
        in_band(i, j, w1),
        in_band(i, j, w2),
        le(pred_from_a(t2, i, j, w2, init), pred_from_a(t1, i, j, w1, init)),
        le(pred_diag(t2, i, j, w2, init, origin), pred_diag(t1, i, j, w1, init, origin)),
        le(pred_from_b(t2, i, j, w2, init), pred_from_b(t1, i, j, w1, init)),
    ensures
        le(t2[(i, j)], t1[(i, j)]),
{
    lemma_table_at(t1, n, m, w1, i, j, init, origin, cost_fn, edge_cost_fn);
    lemma_table_at(t2, n, m, w2, i, j, init, origin, cost_fn, edge_cost_fn);
    let args1 = (
        i as usize,
        j as usize,
        pred_from_a(t1, i, j, w1, init),
        pred_diag(t1, i, j, w1, init, origin),
        pred_from_b(t1, i, j, w1, init),
    );
    let args2 = (
        i as usize,
        j as usize,
        pred_from_a(t2, i, j, w2, init),
        pred_diag(t2, i, j, w2, init, origin),
        pred_from_b(t2, i, j, w2, init),
    );
    assert(call_ensures(cost_fn, args1, t1[(i, j)]));
    assert(call_ensures(cost_fn, args2, t2[(i, j)]));
}

/// Widening the corridor never makes a cell of the banded table worse, for
/// any evaluator that is monotone in its predecessors and reads the same
/// outputs in both slots: the narrow table substitutes the boundary value
/// `init` — the worst value of the order — for predecessors that the wide
/// corridor still reaches, and improvements only propagate.
pub proof fn lemma_band_widening_cell<T, FC, FE>(
    t1: Map<(int, int), T>,
    t2: Map<(int, int), T>,
    n: int,
    m: int,
    w1: int,
    w2: int,
    i: int,
    j: int,
    init: T,
    origin: T,
    cost_fn: FC,
    edge_cost_fn: FE,
    le: spec_fn(T, T) -> bool,
) where FC: Fn(usize, usize, T, T, T) -> T, FE: Fn(usize, usize, T, T, T) -> T
    requires
        table_consistent(t1, n, m, w1, init, origin, cost_fn, edge_cost_fn),
        table_consistent(t2, n, m, w2, init, origin, cost_fn, edge_cost_fn),
        equivalent_evaluators(cost_fn, edge_cost_fn),
        monotone_evaluator(cost_fn, le),
        forall|a: T| #[trigger] le(a, a),
        forall|a: T| #[trigger] le(a, init),
        0 <= w1 <= w2,
        valid_cell(n, m, i, j),
        in_band(i, j, w1),
    ensures
        le(t2[(i, j)], t1[(i, j)]),
    decreases i + j,
{
    assert(in_band(i, j, w2));
    if 1 <= i && in_band(i - 1, j, w1) {
        lemma_band_widening_cell(
            t1, t2, n, m, w1, w2, i - 1, j, init, origin, cost_fn, edge_cost_fn, le,
        );
    }
    if 1 <= i && 1 <= j && in_band(i - 1, j - 1, w1) {
        lemma_band_widening_cell(
            t1, t2, n, m, w1, w2, i - 1, j - 1, init, origin, cost_fn, edge_cost_fn, le,
        );
    }
    if 1 <= j && in_band(i, j - 1, w1) {
        lemma_band_widening_cell(
            t1, t2, n, m, w1, w2, i, j - 1, init, origin, cost_fn, edge_cost_fn, le,
        );
    }
    assert(le(pred_from_a(t2, i, j, w2, init), pred_from_a(t1, i, j, w1, init))) by {
        if 1 <= i && in_band(i - 1, j, w1) {
            assert(in_band(i - 1, j, w2));
        } else if 1 <= i && in_band(i - 1, j, w2) {
            assert(le(t2[(i - 1, j)], init));
        } else {
            assert(le(init, init));
        }
    }
    assert(le(pred_diag(t2, i, j, w2, init, origin), pred_diag(t1, i, j, w1, init, origin))) by {
        if i == 0 && j == 0 {
            assert(le(origin, origin));
        } else if 1 <= i && 1 <= j {
            assert(in_band(i - 1, j - 1, w1));
            assert(in_band(i - 1, j - 1, w2));
        } else {
            assert(le(init, init));
        }
    }
    assert(le(pred_from_b(t2, i, j, w2, init), pred_from_b(t1, i, j, w1, init))) by {
        if 1 <= j && in_band(i, j - 1, w1) {
            assert(in_band(i, j - 1, w2));
        } else if 1 <= j && in_band(i, j - 1, w2) {
            assert(le(t2[(i, j - 1)], init));
        } else {
            assert(le(init, init));
        }
    }
    lemma_mono_cell_step(t1, t2, n, m, w1, w2, i, j, init, origin, cost_fn, edge_cost_fn, le);
}

/// Band monotonicity: for fixed sequence lengths, widening the corridor
/// never makes the engine's final value worse.  For minimization metrics
/// `le` is "not larger" with `init` the worst (largest) value; for the
/// maximization metric it is "not smaller" with the no-match baseline as
/// `init`; in both readings the wide-corridor result is at least as good.
pub proof fn lemma_band_widening_result<T, FC, FE>(
    t1: Map<(int, int), T>,
    t2: Map<(int, int), T>,
    n: int,
    m: int,
    w1: int,
    w2: int,
    init: T,
    origin: T,
    cost_fn: FC,
    edge_cost_fn: FE,
    le: spec_fn(T, T) -> bool,
) where FC: Fn(usize, usize, T, T, T) -> T, FE: Fn(usize, usize, T, T, T) -> T
    requires
        table_consistent(t1, n, m, w1, init, origin, cost_fn, edge_cost_fn),
        table_consistent(t2, n, m, w2, init, origin, cost_fn, edge_cost_fn),
        equivalent_evaluators(cost_fn, edge_cost_fn),
        monotone_evaluator(cost_fn, le),
        forall|a: T| #[trigger] le(a, a),
        forall|a: T| #[trigger] le(a, init),
        0 <= w1 <= w2,
        1 <= n <= m,
        m - n <= w1,
    ensures
        le(t2[(n - 1, m - 1)], t1[(n - 1, m - 1)]),
{
    lemma_band_widening_cell(
        t1, t2, n, m, w1, w2, n - 1, m - 1, init, origin, cost_fn, edge_cost_fn, le,
    );
}

/// Self-alignment sticks to the baseline: over an `n x n` grid whose
/// evaluator never worsens the diagonal predecessor on diagonal cells (as
/// every minimization metric's evaluator does when the two sequences are
/// equal, since the sample difference vanishes) and never goes below the
/// baseline `origin`, every diagonal cell of the banded table is exactly
/// `origin`, by induction along the main diagonal.
pub proof fn lemma_self_alignment_baseline<T, FC, FE>(
    t: Map<(int, int), T>,
    n: int,
    w: int,
    k: int,
    init: T,
    origin: T,
    cost_fn: FC,
    edge_cost_fn: FE,
    le: spec_fn(T, T) -> bool,
) where FC: Fn(usize, usize, T, T, T) -> T, FE: Fn(usize, usize, T, T, T) -> T
    requires
        table_consistent(t, n, n, w, init, origin, cost_fn, edge_cost_fn),
        equivalent_evaluators(cost_fn, edge_cost_fn),
        forall|i: usize, x: T, y: T, z: T, o: T|
            #[trigger] call_ensures(cost_fn, (i, i, x, y, z), o) ==> le(o, y),
        forall|args: (usize, usize, T, T, T), o: T|
            #[trigger] call_ensures(cost_fn, args, o) ==> le(origin, o),
        forall|a: T, b: T| #[trigger] le(a, b) && #[trigger] le(b, a) ==> a == b,
        0 <= w,
        0 <= k < n,
    ensures
        t[(k, k)] == origin,
    decreases k,
{
    assert(in_band(k, k, w));
    if k >= 1 {
        lemma_self_alignment_baseline(
            t, n, w, k - 1, init, origin, cost_fn, edge_cost_fn, le,
        );
    }
    lemma_table_at(t, n, n, w, k, k, init, origin, cost_fn, edge_cost_fn);
    let args = (
        k as usize,
        k as usize,
        pred_from_a(t, k, k, w, init),
        pred_diag(t, k, k, w, init, origin),
        pred_from_b(t, k, k, w, init),
    );
    assert(call_ensures(cost_fn, args, t[(k, k)]));
    assert(pred_diag(t, k, k, w, init, origin) == origin);
    assert(le(t[(k, k)], origin));
    assert(le(origin, t[(k, k)]));
}

/// Self-distance sticks to the baseline: the engine's final value over an
/// `n x n` self-alignment grid is exactly `origin` under the premises of
/// [`lemma_self_alignment_baseline`] — for the minimization metrics, a
/// distance of zero between a sequence and itself.
pub proof fn lemma_self_distance_baseline<T, FC, FE>(
    t: Map<(int, int), T>,
    n: int,
    w: int,
    init: T,
    origin: T,
    cost_fn: FC,
    edge_cost_fn: FE,
    le: spec_fn(T, T) -> bool,
) where FC: Fn(usize, usize, T, T, T) -> T, FE: Fn(usize, usize, T, T, T) -> T
    requires
        table_consistent(t, n, n, w, init, origin, cost_fn, edge_cost_fn),
        equivalent_evaluators(cost_fn, edge_cost_fn),
        forall|i: usize, x: T, y: T, z: T, o: T|
            #[trigger] call_ensures(cost_fn, (i, i, x, y, z), o) ==> le(o, y),
        forall|args: (usize, usize, T, T, T), o: T|
            #[trigger] call_ensures(cost_fn, args, o) ==> le(origin, o),
        forall|a: T, b: T| #[trigger] le(a, b) && #[trigger] le(b, a) ==> a == b,
        0 <= w,
        1 <= n,
    ensures
        t[(n - 1, n - 1)] == origin,
{
    lemma_self_alignment_baseline(t, n, w, n - 1, init, origin, cost_fn, edge_cost_fn, le);
}

/// The second evaluator computes the same cell rule as the first with the
/// two sequences exchanged: its row index is the other's column index and
/// its `from-a-advance` and `from-b-advance` predecessors trade places, as
/// happens to every evaluator of the catalog when the caller swaps the two
/// sequences.
pub open spec fn transposed_evaluators<T, FC, FG>(f: FC, g: FG) -> bool where
    FC: Fn(usize, usize, T, T, T) -> T,
    FG: Fn(usize, usize, T, T, T) -> T,
 {
    forall|i: usize, j: usize, x: T, y: T, z: T, o: T|
        #![trigger call_ensures(f, (i, j, x, y, z), o)]
        #![trigger call_ensures(g, (j, i, z, y, x), o)]
        call_ensures(f, (i, j, x, y, z), o) <==> call_ensures(g, (j, i, z, y, x), o)
}

/// One step of the transposition argument: when the predecessors of cell
/// `(i, j)` in the first table equal the exchanged predecessors of cell
/// `(j, i)` in the second, the two cells agree.
proof fn lemma_transpose_step<T, FC, FE, GC, GE>(
    t1: Map<(int, int), T>,
    t2: Map<(int, int), T>,
    n: int,
    m: int,
    w: int,
    i: int,
    j: int,
    init: T,
    origin: T,
    cost_fn: FC,
    edge_cost_fn: FE,
    cost_fn_t: GC,
    edge_cost_fn_t: GE,
) where
    FC: Fn(usize, usize, T, T, T) -> T,
    FE: Fn(usize, usize, T, T, T) -> T,
    GC: Fn(usize, usize, T, T, T) -> T,
    GE: Fn(usize, usize, T, T, T) -> T,
    requires
        table_consistent(t1, n, m, w, init, origin, cost_fn, edge_cost_fn),
        table_consistent(t2, m, n, w, init, origin, cost_fn_t, edge_cost_fn_t),
        equivalent_evaluators(cost_fn, edge_cost_fn),
        equivalent_evaluators(cost_fn_t, edge_cost_fn_t),
        transposed_evaluators(cost_fn, cost_fn_t),
        deterministic(cost_fn_t),
        valid_cell(n, m, i, j),
        in_band(i, j, w),
        pred_from_a(t1, i, j, w, init) == pred_from_b(t2, j, i, w, init),
        pred_diag(t1, i, j, w, init, origin) == pred_diag(t2, j, i, w, init, origin),
        pred_from_b(t1, i, j, w, init) == pred_from_a(t2, j, i, w, init),
    ensures
        t1[(i, j)] == t2[(j, i)],
{
    lemma_table_at(t1, n, m, w, i, j, init, origin, cost_fn, edge_cost_fn);
    lemma_table_at(t2, m, n, w, j, i, init, origin, cost_fn_t, edge_cost_fn_t);
    let xa = pred_from_a(t1, i, j, w, init);
    let yd = pred_diag(t1, i, j, w, init, origin);
    let zb = pred_from_b(t1, i, j, w, init);
    assert(call_ensures(cost_fn, (i as usize, j as usize, xa, yd, zb), t1[(i, j)]));
    assert(call_ensures(cost_fn_t, (j as usize, i as usize, zb, yd, xa), t1[(i, j)]));
    assert(call_ensures(cost_fn_t, (j as usize, i as usize, zb, yd, xa), t2[(j, i)]));
}

/// Symmetry of the banded alignment: the table for the exchanged pair of
/// sequences is the transpose of the table for the original pair, cell by
/// cell, whenever the two evaluators compute the exchanged rule and the
/// exchanged one is deterministic.
pub proof fn lemma_transpose_cell<T, FC, FE, GC, GE>(
    t1: Map<(int, int), T>,
    t2: Map<(int, int), T>,
    n: int,
    m: int,
    w: int,
    i: int,
    j: int,
    init: T,
    origin: T,
    cost_fn: FC,
    edge_cost_fn: FE,
    cost_fn_t: GC,
    edge_cost_fn_t: GE,
) where
    FC: Fn(usize, usize, T, T, T) -> T,
    FE: Fn(usize, usize, T, T, T) -> T,
    GC: Fn(usize, usize, T, T, T) -> T,
    GE: Fn(usize, usize, T, T, T) -> T,
    requires
        table_consistent(t1, n, m, w, init, origin, cost_fn, edge_cost_fn),
        table_consistent(t2, m, n, w, init, origin, cost_fn_t, edge_cost_fn_t),
        equivalent_evaluators(cost_fn, edge_cost_fn),
        equivalent_evaluators(cost_fn_t, edge_cost_fn_t),
        transposed_evaluators(cost_fn, cost_fn_t),
        deterministic(cost_fn_t),
        valid_cell(n, m, i, j),
        in_band(i, j, w),
    ensures
        t1[(i, j)] == t2[(j, i)],
    decreases i + j,
{
    if 1 <= i && in_band(i - 1, j, w) {
        lemma_transpose_cell(
            t1, t2, n, m, w, i - 1, j, init, origin, cost_fn, edge_cost_fn, cost_fn_t,
            edge_cost_fn_t,
        );
    }
    if 1 <= i && 1 <= j && in_band(i - 1, j - 1, w) {
        lemma_transpose_cell(
            t1, t2, n, m, w, i - 1, j - 1, init, origin, cost_fn, edge_cost_fn, cost_fn_t,
            edge_cost_fn_t,
        );
    }
    if 1 <= j && in_band(i, j - 1, w) {
        lemma_transpose_cell(
            t1, t2, n, m, w, i, j - 1, init, origin, cost_fn, edge_cost_fn, cost_fn_t,
            edge_cost_fn_t,
        );
    }
    assert(pred_from_a(t1, i, j, w, init) == pred_from_b(t2, j, i, w, init)) by {
        if 1 <= i && in_band(i - 1, j, w) {
            assert(in_band(j, i - 1, w));
        }
    }
    assert(pred_diag(t1, i, j, w, init, origin) == pred_diag(t2, j, i, w, init, origin)) by {
        if 1 <= i && 1 <= j && in_band(i - 1, j - 1, w) {
            assert(in_band(j - 1, i - 1, w));
        }
    }
    assert(pred_from_b(t1, i, j, w, init) == pred_from_a(t2, j, i, w, init)) by {
        if 1 <= j && in_band(i, j - 1, w) {
            assert(in_band(j - 1, i, w));
        }
    }
    lemma_transpose_step(
        t1, t2, n, m, w, i, j, init, origin, cost_fn, edge_cost_fn, cost_fn_t, edge_cost_fn_t,
    );
}

/// Symmetry of the engine's result: exchanging the two sequences (and with
/// them the evaluator's roles) leaves the final alignment value unchanged.
pub proof fn lemma_distance_symmetric<T, FC, FE, GC, GE>(
    t1: Map<(int, int), T>,
    t2: Map<(int, int), T>,
    n: int,
    m: int,
    w: int,
    init: T,
    origin: T,
    cost_fn: FC,
    edge_cost_fn: FE,
    cost_fn_t: GC,
    edge_cost_fn_t: GE,
) where
    FC: Fn(usize, usize, T, T, T) -> T,
    FE: Fn(usize, usize, T, T, T) -> T,
    GC: Fn(usize, usize, T, T, T) -> T,
    GE: Fn(usize, usize, T, T, T) -> T,
    requires
        table_consistent(t1, n, m, w, init, origin, cost_fn, edge_cost_fn),
        table_consistent(t2, m, n, w, init, origin, cost_fn_t, edge_cost_fn_t),
        equivalent_evaluators(cost_fn, edge_cost_fn),
        equivalent_evaluators(cost_fn_t, edge_cost_fn_t),
        transposed_evaluators(cost_fn, cost_fn_t),
        deterministic(cost_fn_t),
        1 <= n,
        1 <= m,
        -w <= n - m <= w,
    ensures
        t1[(n - 1, m - 1)] == t2[(m - 1, n - 1)],
{
    lemma_transpose_cell(
        t1, t2, n, m, w, n - 1, m - 1, init, origin, cost_fn, edge_cost_fn, cost_fn_t,
        edge_cost_fn_t,
    );
}

} // verus!
