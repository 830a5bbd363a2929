//! The stated laws of the distance.
//!
//! Each proof function here records, over the mathematical model, a
//! property that the library promises of its distances.

use crate::array3::Array3;
use crate::model::{
    lemma_vp_prefix_monotone, lemma_vp_prefix_nonneg, lemma_vp_prefix_symmetric,
    lemma_vp_prefix_upper, lemma_vp_prefix_zero_coefficient, min3, shift_cost, vp_dist, vp_prefix,
};
use crate::spkd::spkd_entry;
use vstd::prelude::*;

verus! {

/// Symmetry: the distance between two trains does not depend on their
/// order.
pub proof fn lemma_vp_dist_symmetric(q: int, unit: int, s: Seq<int>, t: Seq<int>)
    ensures
        vp_dist(q, unit, s, t) == vp_dist(q, unit, t, s),
{
    lemma_vp_prefix_symmetric(q, unit, s, t, s.len() as int, t.len() as int);
}

/// Non-negativity: with a non-negative coefficient and unit cost, every
/// distance is non-negative.
pub proof fn lemma_vp_dist_nonneg(q: int, unit: int, s: Seq<int>, t: Seq<int>)
    requires
        0 <= q,
        0 <= unit,
    ensures
        0 <= vp_dist(q, unit, s, t),
{
    lemma_vp_prefix_nonneg(q, unit, s, t, s.len() as int, t.len() as int);
}

/// The empty-train rule: against an empty train, the distance is the other
/// train's length in insertion costs, whatever the coefficient.
pub proof fn lemma_vp_dist_empty_train(q: int, unit: int, s: Seq<int>, t: Seq<int>)
    requires
        s.len() == 0,
    ensures
        vp_dist(q, unit, s, t) == t.len() * unit,
        vp_dist(q, unit, t, s) == t.len() * unit,
{
    if t.len() == 0 {
        assert(vp_prefix(q, unit, s, t, 0, 0) == 0);
    }
    lemma_vp_prefix_symmetric(q, unit, s, t, 0, t.len() as int);
}

/// Zero coefficient: with free time shifts, all events that can be matched
/// are matched for free, and the distance collapses to the length
/// difference times the unit cost. For equal-length trains it is zero.
pub proof fn lemma_vp_dist_zero_coefficient(unit: int, s: Seq<int>, t: Seq<int>)
    requires
        0 <= unit,
    ensures
        vp_dist(0, unit, s, t) == vstd::math::abs(s.len() - t.len()) * unit,
        s.len() == t.len() ==> vp_dist(0, unit, s, t) == 0,
{
    lemma_vp_prefix_zero_coefficient(unit, s, t, s.len() as int, t.len() as int);
    if s.len() == t.len() {
        let z: int = vstd::math::abs(s.len() - t.len()) as int;
        assert(z == 0);
        assert(z * unit == 0) by (nonlinear_arith)
            requires
                z == 0,
        ;
    }
}

/// Monotonicity in the coefficient: for a fixed pair of trains the
/// distance is non-decreasing as the coefficient grows, and it is capped
/// by the pure insertion/deletion cost of one unit per event.
pub proof fn lemma_vp_dist_monotone_coefficient(
    q1: int,
    q2: int,
    unit: int,
    s: Seq<int>,
    t: Seq<int>,
)
    requires
        0 <= q1 <= q2,
        0 <= unit,
    ensures
        vp_dist(q1, unit, s, t) <= vp_dist(q2, unit, s, t),
        vp_dist(q2, unit, s, t) <= (s.len() + t.len()) * unit,
{
    lemma_vp_prefix_monotone(q1, q2, unit, s, t, s.len() as int, t.len() as int);
    lemma_vp_prefix_upper(q2, unit, s, t, s.len() as int, t.len() as int);
}

/// Boundary correctness: for single-event trains the whole table is two by
/// two, and the distance is the smaller of one deletion plus one insertion
/// and one coefficient-scaled shift.
pub proof fn lemma_vp_dist_single(q: int, unit: int, s: Seq<int>, t: Seq<int>)
    requires
        s.len() == 1,
        t.len() == 1,
    ensures
        vp_dist(q, unit, s, t) == vstd::math::min(
            2 * unit,
            q * vstd::math::abs(s[0] - t[0]),
        ),
{
    assert(vp_prefix(q, unit, s, t, 0, 0) == 0);
    assert(vp_prefix(q, unit, s, t, 0, 1) == unit);
    assert(vp_prefix(q, unit, s, t, 1, 0) == unit);
    assert(vp_prefix(q, unit, s, t, 1, 1) == min3(
        2 * unit,
        2 * unit,
        shift_cost(q, s, t, 0, 0),
    ));
}

/// The empty-train rule on the tensor: where one train of a pair is
/// empty, the entry is the other train's length in insertion costs under
/// every coefficient.
pub proof fn lemma_spkd_entry_empty_train(
    trains: Seq<Seq<u64>>,
    qvals: Seq<u64>,
    unit: u64,
    i: int,
    j: int,
    k: int,
)
    requires
        i != j,
        0 <= i < trains.len(),
        0 <= j < trains.len(),
        0 <= k < qvals.len(),
        trains[i].len() == 0,
    ensures
        spkd_entry(trains, qvals, unit, i, j, k) == trains[j].len() * unit,
        spkd_entry(trains, qvals, unit, j, i, k) == trains[j].len() * unit,
{
    lemma_vp_dist_empty_train(
        qvals[k] as int,
        unit as int,
        crate::model::ticks(trains[i]),
        crate::model::ticks(trains[j]),
    );
}

/// Zero coefficient on the tensor: the entry collapses to the length
/// difference times the unit cost; zero for equal-length trains.
pub proof fn lemma_spkd_entry_zero_coefficient(
    trains: Seq<Seq<u64>>,
    qvals: Seq<u64>,
    unit: u64,
    i: int,
    j: int,
    k: int,
)
    requires
        0 <= i < trains.len(),
        0 <= j < trains.len(),
        0 <= k < qvals.len(),
        qvals[k] == 0,
    ensures
        spkd_entry(trains, qvals, unit, i, j, k) == if i == j {
            0
        } else {
            vstd::math::abs(trains[i].len() - trains[j].len()) * unit
        },
{
    if i != j {
        lemma_vp_dist_zero_coefficient(
            unit as int,
            crate::model::ticks(trains[i]),
            crate::model::ticks(trains[j]),
        );
    }
}

/// Monotonicity on the tensor: for a fixed pair, a larger coefficient
/// never gives a smaller entry, and no entry exceeds one unit per event.
pub proof fn lemma_spkd_entry_monotone(
    trains: Seq<Seq<u64>>,
    qvals: Seq<u64>,
    unit: u64,
    i: int,
    j: int,
    k1: int,
    k2: int,
)
    requires
        0 <= i < trains.len(),
        0 <= j < trains.len(),
        0 <= k1 < qvals.len(),
        0 <= k2 < qvals.len(),
        qvals[k1] <= qvals[k2],
    ensures
        spkd_entry(trains, qvals, unit, i, j, k1) <= spkd_entry(trains, qvals, unit, i, j, k2),
        spkd_entry(trains, qvals, unit, i, j, k2) <= (trains[i].len() + trains[j].len()) * unit,
{
    if i != j {
        lemma_vp_dist_monotone_coefficient(
            qvals[k1] as int,
            qvals[k2] as int,
            unit as int,
            crate::model::ticks(trains[i]),
            crate::model::ticks(trains[j]),
        );
    } else {
        assert(0 <= (trains[i].len() + trains[j].len()) * unit) by (nonlinear_arith);
    }
}

/// Determinism: the tensor contract pins every entry to a function of the
/// inputs alone, so any two results of the orchestrator on the same trains,
/// coefficients and unit cost agree cell for cell.
pub proof fn lemma_spkd_deterministic(
    d1: Array3,
    d2: Array3,
    trains: Seq<Seq<u64>>,
    qvals: Seq<u64>,
    unit: u64,
)
    requires
        d1.dim0() == d2.dim0(),
        d1.dim1() == d2.dim1(),
        d1.dim2() == d2.dim2(),
        forall|i: int, j: int, k: int|
            0 <= i < d1.dim0() && 0 <= j < d1.dim1() && 0 <= k < d1.dim2()
                ==> #[trigger] d1.at(i, j, k) as int == spkd_entry(trains, qvals, unit, i, j, k),
        forall|i: int, j: int, k: int|
            0 <= i < d2.dim0() && 0 <= j < d2.dim1() && 0 <= k < d2.dim2()
                ==> #[trigger] d2.at(i, j, k) as int == spkd_entry(trains, qvals, unit, i, j, k),
    ensures
        forall|i: int, j: int, k: int|
            0 <= i < d1.dim0() && 0 <= j < d1.dim1() && 0 <= k < d1.dim2()
                ==> #[trigger] d1.at(i, j, k) == d2.at(i, j, k),
{
}

} // verus!
