//! The mathematical model of the Victor–Purpura distance.
//!
//! `vp_prefix` is the textbook recurrence: the cost of transforming the
//! first `a` events of one train into the first `b` events of another, with
//! insertions and deletions at cost `unit` and a match of events at
//! coefficient-scaled time-shift cost. `dp` is the same recurrence over an
//! explicit pre-initialized table and cost matrix, which is what the
//! in-place kernel computes; `lemma_dp_matches_vp` ties the two together
//! when the table's boundary and the cost matrix are the standard ones.

use vstd::arithmetic::mul::lemma_mul_inequality;
use vstd::prelude::*;

verus! {

/// The least of three values.
pub open spec fn min3(a: int, b: int, c: int) -> int {
    if a <= b && a <= c {
        a
    } else if b <= c {
        b
    } else {
        c
    }
}

/// A train's tick timestamps as mathematical integers.
pub open spec fn ticks(s: Seq<u64>) -> Seq<int> {
    Seq::new(s.len(), |i: int| s[i] as int)
}

/// Cost of matching event `a` of `s` to event `b` of `t`: the coefficient
/// times the timing difference.
pub open spec fn shift_cost(q: int, s: Seq<int>, t: Seq<int>, a: int, b: int) -> int {
    q * vstd::math::abs(s[a] - t[b])
}

/// Victor–Purpura cost of transforming the first `a` events of `s` into the
/// first `b` events of `t`.
pub open spec fn vp_prefix(q: int, unit: int, s: Seq<int>, t: Seq<int>, a: int, b: int) -> int
    decreases a + b,
{
    if a <= 0 && b <= 0 {
        0
    } else if a <= 0 {
        b * unit
    } else if b <= 0 {
        a * unit
    } else {
        min3(
            vp_prefix(q, unit, s, t, a - 1, b) + unit,
            vp_prefix(q, unit, s, t, a, b - 1) + unit,
            vp_prefix(q, unit, s, t, a - 1, b - 1) + shift_cost(q, s, t, a - 1, b - 1),
        )
    }
}

/// The distance between two whole trains under coefficient `q`.
pub open spec fn vp_dist(q: int, unit: int, s: Seq<int>, t: Seq<int>) -> int {
    vp_prefix(q, unit, s, t, s.len() as int, t.len() as int)
}

/// The recurrence over an explicit table: boundary values are read from
/// `init` (its row 0 and column 0), match costs from `sd`.
pub open spec fn dp(init: Seq<Seq<u64>>, sd: Seq<Seq<u64>>, unit: int, a: int, b: int) -> int
    decreases a + b,
{
    if a <= 0 || b <= 0 {
        init[a][b] as int
    } else {
        min3(
            dp(init, sd, unit, a - 1, b) + unit,
            dp(init, sd, unit, a, b - 1) + unit,
            dp(init, sd, unit, a - 1, b - 1) + sd[a - 1][b - 1] as int,
        )
    }
}

/// Every table value is non-negative and at most the largest boundary value
/// plus one unit per step away from the boundary.
pub proof fn lemma_dp_bounds(
    init: Seq<Seq<u64>>,
    sd: Seq<Seq<u64>>,
    unit: int,
    a: int,
    b: int,
    h: int,
)
    requires
        0 <= unit,
        0 <= a,
        0 <= b,
        forall|x: int| 0 <= x <= a ==> #[trigger] init[x][0] <= h,
        forall|y: int| 0 <= y <= b ==> #[trigger] init[0][y] <= h,
    ensures
        0 <= dp(init, sd, unit, a, b) <= h + (a + b) * unit,
    decreases a + b,
{
    if a == 0 || b == 0 {
        assert(dp(init, sd, unit, a, b) == init[a][b] as int);
        assert(init[a][b] <= h);
        assert(0 <= (a + b) * unit) by (nonlinear_arith)
            requires
                0 <= a,
                0 <= b,
                0 <= unit,
        ;
    } else {
        lemma_dp_bounds(init, sd, unit, a - 1, b, h);
        lemma_dp_bounds(init, sd, unit, a, b - 1, h);
        lemma_dp_bounds(init, sd, unit, a - 1, b - 1, h);
        assert(dp(init, sd, unit, a, b) <= dp(init, sd, unit, a - 1, b) + unit);
        assert(h + (a - 1 + b) * unit + unit == h + (a + b) * unit) by (nonlinear_arith);
    }
}

/// When the table's boundary holds the pure insertion/deletion costs and the
/// cost matrix holds the coefficient-scaled timing differences, the table
/// recurrence computes exactly the Victor–Purpura prefix cost.
pub proof fn lemma_dp_matches_vp(
    init: Seq<Seq<u64>>,
    sd: Seq<Seq<u64>>,
    q: int,
    unit: int,
    s: Seq<int>,
    t: Seq<int>,
    a: int,
    b: int,
)
    requires
        0 <= a <= s.len(),
        0 <= b <= t.len(),
        forall|x: int| 0 <= x <= a ==> #[trigger] init[x][0] as int == x * unit,
        forall|y: int| 0 <= y <= b ==> #[trigger] init[0][y] as int == y * unit,
        forall|x: int, y: int|
            0 <= x < a && 0 <= y < b ==> #[trigger] sd[x][y] as int == shift_cost(q, s, t, x, y),
    ensures
        dp(init, sd, unit, a, b) == vp_prefix(q, unit, s, t, a, b),
    decreases a + b,
{
    if a == 0 && b == 0 {
        assert(init[0][0] as int == 0);
    } else if a == 0 {
        assert(dp(init, sd, unit, a, b) == init[0][b] as int);
    } else if b == 0 {
        assert(dp(init, sd, unit, a, b) == init[a][0] as int);
    } else {
        lemma_dp_matches_vp(init, sd, q, unit, s, t, a - 1, b);
        lemma_dp_matches_vp(init, sd, q, unit, s, t, a, b - 1);
        lemma_dp_matches_vp(init, sd, q, unit, s, t, a - 1, b - 1);
    }
}

/// Exchanging the two trains exchanges the two table axes: the prefix cost
/// is symmetric.
pub proof fn lemma_vp_prefix_symmetric(
    q: int,
    unit: int,
    s: Seq<int>,
    t: Seq<int>,
    a: int,
    b: int,
)
    ensures
        vp_prefix(q, unit, s, t, a, b) == vp_prefix(q, unit, t, s, b, a),
    decreases a + b,
{
    if a >= 1 && b >= 1 {
        lemma_vp_prefix_symmetric(q, unit, s, t, a - 1, b);
        lemma_vp_prefix_symmetric(q, unit, s, t, a, b - 1);
        lemma_vp_prefix_symmetric(q, unit, s, t, a - 1, b - 1);
    }
}

/// With non-negative coefficient and unit cost, every prefix cost is
/// non-negative.
pub proof fn lemma_vp_prefix_nonneg(q: int, unit: int, s: Seq<int>, t: Seq<int>, a: int, b: int)
    requires
        0 <= q,
        0 <= unit,
    ensures
        0 <= vp_prefix(q, unit, s, t, a, b),
    decreases a + b,
{
    if a <= 0 && b <= 0 {
    } else if a <= 0 {
        assert(0 <= b * unit) by (nonlinear_arith)
            requires
                0 <= b,
                0 <= unit,
        ;
    } else if b <= 0 {
        assert(0 <= a * unit) by (nonlinear_arith)
            requires
                0 <= a,
                0 <= unit,
        ;
    } else {
        lemma_vp_prefix_nonneg(q, unit, s, t, a - 1, b);
        lemma_vp_prefix_nonneg(q, unit, s, t, a, b - 1);
        lemma_vp_prefix_nonneg(q, unit, s, t, a - 1, b - 1);
        assert(0 <= shift_cost(q, s, t, a - 1, b - 1)) by (nonlinear_arith)
            requires
                0 <= q,
        ;
    }
}

/// Deleting all of one prefix and inserting all of the other is always an
/// option, so the prefix cost never exceeds one unit per event.
pub proof fn lemma_vp_prefix_upper(q: int, unit: int, s: Seq<int>, t: Seq<int>, a: int, b: int)
    requires
        0 <= unit,
        0 <= a,
        0 <= b,
    ensures
        vp_prefix(q, unit, s, t, a, b) <= (a + b) * unit,
    decreases a + b,
{
    if a == 0 || b == 0 {
    } else {
        lemma_vp_prefix_upper(q, unit, s, t, a - 1, b);
        assert(vp_prefix(q, unit, s, t, a, b) <= vp_prefix(q, unit, s, t, a - 1, b) + unit);
        assert((a - 1 + b) * unit + unit == (a + b) * unit) by (nonlinear_arith);
    }
}

/// Raising the coefficient never lowers any prefix cost: insertions and
/// deletions keep their price while matches only get dearer.
pub proof fn lemma_vp_prefix_monotone(
    q1: int,
    q2: int,
    unit: int,
    s: Seq<int>,
    t: Seq<int>,
    a: int,
    b: int,
)
    requires
        0 <= q1 <= q2,
    ensures
        vp_prefix(q1, unit, s, t, a, b) <= vp_prefix(q2, unit, s, t, a, b),
    decreases a + b,
{
    if a >= 1 && b >= 1 {
        lemma_vp_prefix_monotone(q1, q2, unit, s, t, a - 1, b);
        lemma_vp_prefix_monotone(q1, q2, unit, s, t, a, b - 1);
        lemma_vp_prefix_monotone(q1, q2, unit, s, t, a - 1, b - 1);
        lemma_mul_inequality(q1, q2, vstd::math::abs(s[a - 1] - t[b - 1]) as int);
    }
}

/// At coefficient zero matches are free, so the cost degenerates to one
/// unit per unmatched event: the length difference times the unit cost.
pub proof fn lemma_vp_prefix_zero_coefficient(
    unit: int,
    s: Seq<int>,
    t: Seq<int>,
    a: int,
    b: int,
)
    requires
        0 <= unit,
        0 <= a,
        0 <= b,
    ensures
        vp_prefix(0, unit, s, t, a, b) == vstd::math::abs(a - b) * unit,
    decreases a + b,
{
    if a == 0 || b == 0 {
    } else {
        lemma_vp_prefix_zero_coefficient(unit, s, t, a - 1, b);
        lemma_vp_prefix_zero_coefficient(unit, s, t, a, b - 1);
        lemma_vp_prefix_zero_coefficient(unit, s, t, a - 1, b - 1);
        assert(shift_cost(0, s, t, a - 1, b - 1) == 0) by (nonlinear_arith);
        let d: int = vstd::math::abs(a - b) as int;
        assert(vstd::math::abs((a - 1) - (b - 1)) as int == d);
        assert(d * unit <= (vstd::math::abs(a - 1 - b) as int) * unit + unit) by (nonlinear_arith)
            requires
                0 <= unit,
                d <= vstd::math::abs(a - 1 - b) as int + 1,
        ;
        assert(d * unit <= (vstd::math::abs(a - b + 1) as int) * unit + unit) by (nonlinear_arith)
            requires
                0 <= unit,
                d <= vstd::math::abs(a - b + 1) as int + 1,
        ;
    }
}

} // verus!
