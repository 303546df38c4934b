//! Why one sweep over two ascending samples finds the greatest distance
//! between their empirical distribution functions.

use crate::order::{le, lemma_order_laws, lt, totally_ordered};
use crate::sample::{
    count_le, lemma_count_where_at_least, lemma_count_where_bound, lemma_count_where_prefix,
    sorted, up_to,
};
use crate::statistic::{distance, ecdf_gap, is_max_gap};
use vstd::prelude::*;

verus! {

/// In the ascending `a`, the first `consumed` values have been counted,
/// and the cursor `i` stands in the run of equal values that starts there.
pub(crate) open spec fn cursor_in_run<T: Ord>(a: Seq<T>, consumed: int, i: int) -> bool {
    &&& 0 <= consumed <= i <= a.len()
    &&& i == a.len() ==> consumed == a.len()
    &&& i < a.len() ==> forall|p: int| consumed <= p <= i ==> #[trigger] a[p] == a[i]
    &&& i < a.len() ==> forall|p: int| 0 <= p < consumed ==> lt(#[trigger] a[p], a[i])
}

/// Every counted value of `a` is strictly below the value at the cursor
/// `j` of `b`, if there is one.
pub(crate) open spec fn counted_below<T: Ord>(
    a: Seq<T>,
    consumed: int,
    b: Seq<T>,
    j: int,
) -> bool {
    j < b.len() ==> forall|p: int| 0 <= p < consumed ==> lt(#[trigger] a[p], b[j])
}

/// The sweep has passed `t`: it is strictly below the value at each
/// cursor, as far as there is one.
pub(crate) open spec fn swept<T: Ord>(a: Seq<T>, i: int, b: Seq<T>, j: int, t: T) -> bool {
    &&& i < a.len() ==> lt(t, a[i])
    &&& j < b.len() ==> lt(t, b[j])
}

/// What the sweep over the ascending `a` and `b` has established when
/// `cx` and `cy` values are counted and the cursors stand at `i` and `j`:
/// `statistic` is the greatest distance among the points passed.
pub(crate) open spec fn sweep_state<T: Ord>(
    a: Seq<T>,
    b: Seq<T>,
    cx: int,
    i: int,
    cy: int,
    j: int,
    statistic: nat,
) -> bool {
    &&& sorted(a)
    &&& sorted(b)
    &&& cursor_in_run(a, cx, i)
    &&& cursor_in_run(b, cy, j)
    &&& counted_below(a, cx, b, j)
    &&& counted_below(b, cy, a, i)
    &&& statistic >= distance(cx * b.len(), cy * a.len())
    &&& forall|t: T| swept(a, i, b, j, t) ==> #[trigger] ecdf_gap(a, b, t) <= statistic
    &&& statistic == 0 || exists|t: T|
        (a.contains(t) || b.contains(t)) && #[trigger] ecdf_gap(a, b, t) == statistic
}

/// In the ascending `a`, a point that is not below the first `k` values
/// and is strictly below the rest has exactly `k` values below or equal
/// to it.
proof fn lemma_count_at<T: Ord + Clone>(a: Seq<T>, k: int, t: T)
    requires
        totally_ordered::<T>(),
        0 <= k <= a.len(),
        forall|p: int| 0 <= p < k ==> le(#[trigger] a[p], t),
        forall|p: int| k <= p < a.len() ==> lt(t, #[trigger] a[p]),
    ensures
        count_le(a, t) == k,
{
    lemma_order_laws::<T>();
    assert forall|p: int| 0 <= p < k implies up_to(t)(#[trigger] a[p]) by {}
    assert forall|p: int| k <= p < a.len() implies !up_to(t)(#[trigger] a[p]) by {
        assert(lt(t, a[p]));
    }
    lemma_count_where_prefix(a, up_to(t), k);
}

/// One side of a step of the sweep: where the cursor `i` stands at the
/// end of its run in `a`, and the side is advanced past the run exactly
/// if its value is the `current` one, every point from `current` up to
/// the values at the new cursors has as many values of `a` below or equal
/// to it as are then counted.
proof fn lemma_step_side<T: Ord + Clone>(
    a: Seq<T>,
    cx: int,
    i: int,
    other: T,
    cx2: int,
    i2: int,
    t: T,
)
    requires
        totally_ordered::<T>(),
        sorted(a),
        i < a.len(),
        cursor_in_run(a, cx, i),
        i + 1 < a.len() ==> a[i + 1] != a[i],
        forall|p: int| 0 <= p < cx ==> lt(#[trigger] a[p], other),
        le(a[i], other) ==> cx2 == i + 1 && i2 == i + 1,
        !le(a[i], other) ==> cx2 == cx && i2 == i,
        le(a[i], t) || le(other, t),
        i2 < a.len() ==> lt(t, a[i2]),
    ensures
        count_le(a, t) == cx2,
{
    lemma_order_laws::<T>();
    if le(a[i], other) {
        assert forall|p: int| 0 <= p < cx2 implies le(#[trigger] a[p], t) by {
            assert(le(a[p], a[i]));
        }
        assert forall|p: int| cx2 <= p < a.len() implies lt(t, #[trigger] a[p]) by {
            assert(le(a[i2], a[p]));
        }
    } else {
        assert(lt(other, a[i]));
        assert forall|p: int| 0 <= p < cx2 implies le(#[trigger] a[p], t) by {
            assert(lt(a[p], other));
        }
        assert forall|p: int| cx2 <= p < a.len() implies lt(t, #[trigger] a[p]) by {
            if p <= i {
                assert(a[p] == a[i]);
            } else {
                assert(le(a[i], a[p]));
            }
        }
    }
    lemma_count_at(a, cx2, t);
}

/// Before its first step the sweep has passed only points below every
/// value, where both functions are 0.
pub(crate) proof fn lemma_sweep_start<T: Ord + Clone>(a: Seq<T>, b: Seq<T>)
    requires
        totally_ordered::<T>(),
        sorted(a),
        sorted(b),
        a.len() > 0,
        b.len() > 0,
    ensures
        sweep_state(a, b, 0, 0, 0, 0, 0),
{
    lemma_order_laws::<T>();
    assert forall|t: T| swept(a, 0, b, 0, t) implies #[trigger] ecdf_gap(a, b, t) <= 0 by {
        assert forall|p: int| 0 <= p < a.len() implies lt(t, #[trigger] a[p]) by {
            assert(le(a[0], a[p]));
        }
        assert forall|p: int| 0 <= p < b.len() implies lt(t, #[trigger] b[p]) by {
            assert(le(b[0], b[p]));
        }
        lemma_count_at(a, 0, t);
        lemma_count_at(b, 0, t);
    }
}

/// The greater of two numbers.
pub(crate) open spec fn greater(a: nat, b: nat) -> nat {
    if a >= b {
        a
    } else {
        b
    }
}

/// A step of the sweep keeps what the sweep has established: both cursors
/// stand at the ends of their runs, the side or sides that hold the lesser
/// value are counted up to and advanced past their runs, and the statistic
/// takes in the distance at that value.
pub(crate) proof fn lemma_sweep_step<T: Ord + Clone>(
    a: Seq<T>,
    b: Seq<T>,
    before: (int, int, int, int, nat),
    after: (int, int, int, int, nat),
)
    requires
        totally_ordered::<T>(),
        sweep_state(a, b, before.0, before.1, before.2, before.3, before.4),
        before.1 < a.len(),
        before.3 < b.len(),
        before.1 + 1 < a.len() ==> a[before.1 + 1] != a[before.1],
        before.3 + 1 < b.len() ==> b[before.3 + 1] != b[before.3],
        le(a[before.1], b[before.3]) ==> after.0 == before.1 + 1 && after.1 == before.1 + 1,
        !le(a[before.1], b[before.3]) ==> after.0 == before.0 && after.1 == before.1,
        le(b[before.3], a[before.1]) ==> after.2 == before.3 + 1 && after.3 == before.3 + 1,
        !le(b[before.3], a[before.1]) ==> after.2 == before.2 && after.3 == before.3,
        after.4 == greater(before.4, distance(after.0 * b.len(), after.2 * a.len())),
    ensures
        sweep_state(a, b, after.0, after.1, after.2, after.3, after.4),
{
    lemma_order_laws::<T>();
    let (cx, i, cy, j, statistic) = before;
    let (cx2, i2, cy2, j2, statistic2) = after;
    let x = a[i];
    let y = b[j];
    let current = if le(x, y) {
        x
    } else {
        y
    };
    let step = distance(cx2 * b.len(), cy2 * a.len());
    assert(cursor_in_run(a, cx2, i2)) by {
        if le(x, y) && i2 < a.len() {
            assert(le(a[i], a[i2]));
            assert forall|p: int| 0 <= p < cx2 implies lt(#[trigger] a[p], a[i2]) by {
                assert(le(a[p], a[i]));
            }
        }
    }
    assert(cursor_in_run(b, cy2, j2)) by {
        if le(y, x) && j2 < b.len() {
            assert(le(b[j], b[j2]));
            assert forall|p: int| 0 <= p < cy2 implies lt(#[trigger] b[p], b[j2]) by {
                assert(le(b[p], b[j]));
            }
        }
    }
    assert(counted_below(a, cx2, b, j2)) by {
        if j2 < b.len() {
            assert(le(b[j], b[j2]));
            assert forall|p: int| 0 <= p < cx2 implies lt(#[trigger] a[p], b[j2]) by {
                if p < cx {
                    assert(lt(a[p], b[j]));
                } else {
                    assert(le(a[p], a[i]));
                }
            }
        }
    }
    assert(counted_below(b, cy2, a, i2)) by {
        if i2 < a.len() {
            assert(le(a[i], a[i2]));
            assert forall|p: int| 0 <= p < cy2 implies lt(#[trigger] b[p], a[i2]) by {
                if p < cy {
                    assert(lt(b[p], a[i]));
                } else {
                    assert(le(b[p], b[j]));
                }
            }
        }
    }
    assert forall|t: T| swept(a, i2, b, j2, t) implies #[trigger] ecdf_gap(a, b, t)
        <= statistic2 by {
        if swept(a, i, b, j, t) {
            assert(ecdf_gap(a, b, t) <= statistic);
        } else {
            lemma_step_side(a, cx, i, y, cx2, i2, t);
            lemma_step_side(b, cy, j, x, cy2, j2, t);
            assert(ecdf_gap(a, b, t) == step);
        }
    }
    if statistic2 != statistic {
        assert(swept(a, i2, b, j2, current)) by {
            if i2 < a.len() {
                assert(le(a[i], a[i2]));
            }
            if j2 < b.len() {
                assert(le(b[j], b[j2]));
            }
        }
        lemma_step_side(a, cx, i, y, cx2, i2, current);
        lemma_step_side(b, cy, j, x, cy2, j2, current);
        assert(ecdf_gap(a, b, current) == statistic2);
        assert(a.contains(current) || b.contains(current));
    }
}

/// Once the sweep has used up one of the samples, its statistic is the
/// greatest distance over all points: beyond the last point passed one
/// function is 1 and the other only rises towards it.
pub(crate) proof fn lemma_sweep_done<T: Ord + Clone>(
    a: Seq<T>,
    b: Seq<T>,
    cx: int,
    i: int,
    cy: int,
    j: int,
    statistic: nat,
)
    requires
        totally_ordered::<T>(),
        sweep_state(a, b, cx, i, cy, j, statistic),
        a.len() > 0,
        b.len() > 0,
        i == a.len() || j == b.len(),
    ensures
        is_max_gap(a, b, statistic),
{
    lemma_order_laws::<T>();
    let n = a.len() as int;
    let m = b.len() as int;
    assert forall|t: T| #[trigger] ecdf_gap(a, b, t) <= statistic by {
        lemma_count_where_bound(a, up_to(t));
        lemma_count_where_bound(b, up_to(t));
        let ca = count_le(a, t) as int;
        let cb = count_le(b, t) as int;
        if swept(a, i, b, j, t) {
        } else if i == n {
            assert(le(b[j], t));
            assert forall|p: int| 0 <= p < n implies up_to(t)(#[trigger] a[p]) by {
                assert(lt(a[p], b[j]));
            }
            lemma_count_where_at_least(a, up_to(t), n);
            assert forall|p: int| 0 <= p < cy implies up_to(t)(#[trigger] b[p]) by {
                assert(lt(b[p], b[j]));
            }
            lemma_count_where_at_least(b, up_to(t), cy);
            assert(ca == n && cx == n);
            assert(n * m - cb * n <= n * m - cy * n && cb * n <= n * m && cy * n <= n * m)
                by (nonlinear_arith)
                requires
                    cy <= cb <= m,
                    n > 0,
            ;
            assert(ecdf_gap(a, b, t) == n * m - cb * n);
            assert(distance(cx * m, cy * n) == n * m - cy * n);
        } else {
            assert(le(a[i], t));
            assert forall|p: int| 0 <= p < m implies up_to(t)(#[trigger] b[p]) by {
                assert(lt(b[p], a[i]));
            }
            lemma_count_where_at_least(b, up_to(t), m);
            assert forall|p: int| 0 <= p < cx implies up_to(t)(#[trigger] a[p]) by {
                assert(lt(a[p], a[i]));
            }
            lemma_count_where_at_least(a, up_to(t), cx);
            assert(cb == m && cy == m);
            assert(m * n - ca * m <= m * n - cx * m && ca * m <= m * n && cx * m <= m * n)
                by (nonlinear_arith)
                requires
                    cx <= ca <= n,
                    m > 0,
            ;
            assert(ecdf_gap(a, b, t) == m * n - ca * m);
            assert(distance(cx * m, cy * n) == m * n - cx * m);
        }
    }
    if statistic == 0 {
        let top = if le(a[n - 1], b[m - 1]) {
            b[m - 1]
        } else {
            a[n - 1]
        };
        assert forall|p: int| 0 <= p < n implies up_to(top)(#[trigger] a[p]) by {
            assert(le(a[p], a[n - 1]));
        }
        assert forall|p: int| 0 <= p < m implies up_to(top)(#[trigger] b[p]) by {
            assert(le(b[p], b[m - 1]));
        }
        lemma_count_where_prefix(a, up_to(top), n);
        lemma_count_where_prefix(b, up_to(top), m);
        assert(n * m == m * n) by (nonlinear_arith);
        assert(ecdf_gap(a, b, top) == 0);
        assert(a.contains(top) || b.contains(top));
    }
}

/// The last position of the run of equal values in which `i` stands.
spec fn run_end<T>(a: Seq<T>, i: int) -> int
    decreases a.len() - i,
{
    if 0 <= i && i + 1 < a.len() && a[i + 1] == a[i] {
        run_end(a, i + 1)
    } else {
        i
    }
}

/// A cursor moved to the end of its run still stands in that run.
proof fn lemma_run_end<T: Ord>(a: Seq<T>, consumed: int, i: int)
    requires
        cursor_in_run(a, consumed, i),
        i < a.len(),
    ensures
        i <= run_end(a, i) < a.len(),
        cursor_in_run(a, consumed, run_end(a, i)),
        a[run_end(a, i)] == a[i],
        run_end(a, i) + 1 < a.len() ==> a[run_end(a, i) + 1] != a[run_end(a, i)],
    decreases a.len() - i,
{
    if i + 1 < a.len() && a[i + 1] == a[i] {
        assert(cursor_in_run(a, consumed, i + 1)) by {
            assert forall|p: int| consumed <= p <= i + 1 implies #[trigger] a[p] == a[i + 1] by {
                if p <= i {
                    assert(a[p] == a[i]);
                }
            }
        }
        lemma_run_end(a, consumed, i + 1);
    }
}

/// From any state of the sweep, going on to its end gives the greatest
/// distance: so there is one.
pub(crate) proof fn lemma_sweep_finishes<T: Ord + Clone>(
    a: Seq<T>,
    b: Seq<T>,
    state: (int, int, int, int, nat),
)
    requires
        totally_ordered::<T>(),
        sweep_state(a, b, state.0, state.1, state.2, state.3, state.4),
        a.len() > 0,
        b.len() > 0,
    ensures
        exists|g: nat| is_max_gap(a, b, g),
    decreases (a.len() - state.1) + (b.len() - state.3),
{
    let (cx, i, cy, j, statistic) = state;
    if i == a.len() || j == b.len() {
        lemma_sweep_done(a, b, cx, i, cy, j, statistic);
    } else {
        lemma_order_laws::<T>();
        lemma_run_end(a, cx, i);
        lemma_run_end(b, cy, j);
        let i1 = run_end(a, i);
        let j1 = run_end(b, j);
        let take_x = le(a[i1], b[j1]);
        let take_y = le(b[j1], a[i1]);
        let cx2 = if take_x {
            i1 + 1
        } else {
            cx
        };
        let i2 = if take_x {
            i1 + 1
        } else {
            i1
        };
        let cy2 = if take_y {
            j1 + 1
        } else {
            cy
        };
        let j2 = if take_y {
            j1 + 1
        } else {
            j1
        };
        let statistic2 = greater(statistic, distance(cx2 * b.len(), cy2 * a.len()));
        assert(sweep_state(a, b, cx, i1, cy, j1, statistic)) by {
            assert forall|t: T| swept(a, i1, b, j1, t) implies #[trigger] ecdf_gap(a, b, t)
                <= statistic by {
                assert(swept(a, i, b, j, t));
            }
        }
        lemma_sweep_step(a, b, (cx, i1, cy, j1, statistic), (cx2, i2, cy2, j2, statistic2));
        lemma_sweep_finishes(a, b, (cx2, i2, cy2, j2, statistic2));
    }
}

} // verus!
