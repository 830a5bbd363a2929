//! The distance kernel and the pairwise orchestrator.
//!
//! `iterate_spiketrains` fills the interior of a per-pair score table in
//! place, amortizing the recurrence across all coefficients at once.
//! `calculate_pairwise_distances` drives it over every unordered pair of
//! trains, and `calculate_spkd_impl` assembles the symmetric distance
//! tensor.

use crate::array3::Array3;
use crate::model::{
    dp, lemma_dp_bounds, lemma_dp_matches_vp, lemma_vp_prefix_symmetric, min3, shift_cost, ticks,
    vp_dist, vp_prefix,
};
use vstd::arithmetic::mul::lemma_mul_inequality;
use vstd::prelude::*;

verus! {

/// The trains' timestamp sequences, one per train.
pub open spec fn train_views(cspks: Seq<Vec<u64>>) -> Seq<Seq<u64>> {
    Seq::new(cspks.len(), |i: int| cspks[i]@)
}

/// The distance between trains `i` and `j` under the `k`-th coefficient.
pub open spec fn pair_dist(
    trains: Seq<Seq<u64>>,
    qvals: Seq<u64>,
    unit: u64,
    i: int,
    j: int,
    k: int,
) -> int {
    vp_dist(qvals[k] as int, unit as int, ticks(trains[i]), ticks(trains[j]))
}

/// One entry of the distance tensor: zero on the diagonal, the pair
/// distance off it.
pub open spec fn spkd_entry(
    trains: Seq<Seq<u64>>,
    qvals: Seq<u64>,
    unit: u64,
    i: int,
    j: int,
    k: int,
) -> int {
    if i == j {
        0
    } else {
        pair_dist(trains, qvals, unit, i, j, k)
    }
}

/// The machine limits the orchestrator needs: per-pair tables fit in a
/// vector, and no cost or score overflows sixty-four bits.
pub open spec fn inputs_ok(trains: Seq<Seq<u64>>, qvals: Seq<u64>, unit: u64) -> bool {
    &&& forall|i: int| 0 <= i < trains.len() ==> #[trigger] trains[i].len() < usize::MAX
    &&& forall|i: int, j: int|
        #![trigger trains[i].len(), trains[j].len()]
        0 <= i < trains.len() && 0 <= j < trains.len() ==> qvals.len() * ((trains[i].len() + 1) * (
        trains[j].len() + 1)) <= usize::MAX
    &&& forall|i: int, j: int|
        #![trigger trains[i].len(), trains[j].len()]
        0 <= i < trains.len() && 0 <= j < trains.len() ==> (2 * (trains[i].len()
            + trains[j].len()) + 2) * unit <= u64::MAX
    &&& forall|k: int, i: int, a: int|
        #![trigger qvals[k], trains[i][a]]
        0 <= k < qvals.len() && 0 <= i < trains.len() && 0 <= a < trains[i].len() ==> qvals[k]
            * trains[i][a] <= u64::MAX
}

/// Coefficient slice `q` of an array, as a matrix of values.
pub open spec fn slice2(arr: Array3, q: int) -> Seq<Seq<u64>> {
    Seq::new(
        arr.dim1() as nat,
        |a: int| Seq::new(arr.dim2() as nat, |b: int| arr.at(q, a, b)),
    )
}

/// Addition that tops out at `u64::MAX` instead of wrapping.
fn sat_add(x: u64, y: u64) -> (r: u64)
    ensures
        r as int == if x + y <= u64::MAX {
            x + y
        } else {
            u64::MAX as int
        },
{
    if x <= u64::MAX - y {
        x + y
    } else {
        u64::MAX
    }
}

/// The smaller of two values.
fn min_u64(x: u64, y: u64) -> (r: u64)
    ensures
        r == x || r == y,
        r <= x,
        r <= y,
{
    if x <= y {
        x
    } else {
        y
    }
}

/// Run the distance recurrence in place over the score array `scr`, whose
/// boundary row and column are already initialized, reading match costs
/// from `sd`. On return every cell `(q, a, b)` of `scr` holds the table
/// recurrence value `dp` for its coefficient slice.
pub fn iterate_spiketrains(scr: &mut Array3, sd: &Array3, unit: u64)
    requires
        old(scr).wf(),
        sd.wf(),
        sd.dim0() == old(scr).dim0(),
        old(scr).dim1() >= 1,
        old(scr).dim2() >= 1,
        sd.dim1() == old(scr).dim1() - 1,
        sd.dim2() == old(scr).dim2() - 1,
        forall|q: int, a: int|
            0 <= q < old(scr).dim0() && 0 <= a < old(scr).dim1() ==> #[trigger] old(scr).at(q, a, 0)
                + (old(scr).dim1() + old(scr).dim2()) * unit <= u64::MAX,
        forall|q: int, b: int|
            0 <= q < old(scr).dim0() && 0 <= b < old(scr).dim2() ==> #[trigger] old(scr).at(q, 0, b)
                + (old(scr).dim1() + old(scr).dim2()) * unit <= u64::MAX,
    ensures
        final(scr).wf(),
        final(scr).dim0() == old(scr).dim0(),
        final(scr).dim1() == old(scr).dim1(),
        final(scr).dim2() == old(scr).dim2(),
        forall|q: int, a: int, b: int|
            0 <= q < old(scr).dim0() && 0 <= a < old(scr).dim1() && 0 <= b < old(scr).dim2()
                ==> #[trigger] final(scr).at(q, a, b) as int == dp(
                slice2(*old(scr), q),
                slice2(*sd, q),
                unit as int,
                a,
                b,
            ),
{
    let ghost scr0: Array3 = *scr;
    let (num_qvals, num_spikes_xii, num_spikes_xjj) = scr.dim();
    let ghost m: int = num_qvals as int;
    let ghost r: int = num_spikes_xii as int;
    let ghost c: int = num_spikes_xjj as int;
    let ghost u: int = unit as int;
    let ghost hi: int = u64::MAX - (r + c) * u;

    proof {
        lemma_boundary_is_dp(scr0, *sd, u, m, r, c);
    }

    let mut xii: usize = 1;
    while xii < num_spikes_xii
        invariant
            scr.wf(),
            sd.wf(),
            scr.dim0() == m,
            scr.dim1() == r,
            scr.dim2() == c,
            sd.dim0() == m,
            sd.dim1() == r - 1,
            sd.dim2() == c - 1,
            num_qvals == m,
            num_spikes_xii == r,
            num_spikes_xjj == c,
            r >= 1,
            c >= 1,
            1 <= xii <= r,
            scr0.wf(),
            scr0.dim0() == m,
            scr0.dim1() == r,
            scr0.dim2() == c,
            u == unit as int,
            hi == u64::MAX - (r + c) * u,
            forall|q: int, a: int|
                0 <= q < m && 0 <= a < r ==> #[trigger] scr0.at(q, a, 0) <= hi,
            forall|q: int, b: int|
                0 <= q < m && 0 <= b < c ==> #[trigger] scr0.at(q, 0, b) <= hi,
            forall|q: int, a: int|
                0 <= q < m && 0 <= a < r ==> #[trigger] scr.at(q, a, 0) == scr0.at(q, a, 0),
            forall|q: int, b: int|
                0 <= q < m && 0 <= b < c ==> #[trigger] scr.at(q, 0, b) == scr0.at(q, 0, b),
            forall|q: int, a: int, b: int|
                0 <= q < m && 1 <= a < xii && 1 <= b < c ==> #[trigger] scr.at(q, a, b) as int
                    == dp(slice2(scr0, q), slice2(*sd, q), u, a, b),
        decreases r - xii,
    {
        let mut xjj: usize = 1;
        while xjj < num_spikes_xjj
            invariant
                scr.wf(),
                sd.wf(),
                scr.dim0() == m,
                scr.dim1() == r,
                scr.dim2() == c,
                sd.dim0() == m,
                sd.dim1() == r - 1,
                sd.dim2() == c - 1,
                num_qvals == m,
                num_spikes_xii == r,
                num_spikes_xjj == c,
                1 <= xii < r,
                1 <= xjj <= c,
                scr0.wf(),
                scr0.dim0() == m,
                scr0.dim1() == r,
                scr0.dim2() == c,
                u == unit as int,
                hi == u64::MAX - (r + c) * u,
                forall|q: int, a: int|
                    0 <= q < m && 0 <= a < r ==> #[trigger] scr0.at(q, a, 0) <= hi,
                forall|q: int, b: int|
                    0 <= q < m && 0 <= b < c ==> #[trigger] scr0.at(q, 0, b) <= hi,
                forall|q: int, a: int|
                    0 <= q < m && 0 <= a < r ==> #[trigger] scr.at(q, a, 0) == scr0.at(q, a, 0),
                forall|q: int, b: int|
                    0 <= q < m && 0 <= b < c ==> #[trigger] scr.at(q, 0, b) == scr0.at(q, 0, b),
                forall|q: int, a: int, b: int|
                    0 <= q < m && 1 <= a < xii && 1 <= b < c ==> #[trigger] scr.at(q, a, b) as int
                        == dp(slice2(scr0, q), slice2(*sd, q), u, a, b),
                forall|q: int, b: int|
                    0 <= q < m && 1 <= b < xjj ==> #[trigger] scr.at(q, xii as int, b) as int
                        == dp(slice2(scr0, q), slice2(*sd, q), u, xii as int, b),
            decreases c - xjj,
        {
            let mut q: usize = 0;
            while q < num_qvals
                invariant
                    scr.wf(),
                    sd.wf(),
                    scr.dim0() == m,
                    scr.dim1() == r,
                    scr.dim2() == c,
                    sd.dim0() == m,
                    sd.dim1() == r - 1,
                    sd.dim2() == c - 1,
                    num_qvals == m,
                    1 <= xii < r,
                    1 <= xjj < c,
                    0 <= q <= m,
                    scr0.wf(),
                    scr0.dim0() == m,
                    scr0.dim1() == r,
                    scr0.dim2() == c,
                    u == unit as int,
                    hi == u64::MAX - (r + c) * u,
                    forall|qq: int, a: int|
                        0 <= qq < m && 0 <= a < r ==> #[trigger] scr0.at(qq, a, 0) <= hi,
                    forall|qq: int, b: int|
                        0 <= qq < m && 0 <= b < c ==> #[trigger] scr0.at(qq, 0, b) <= hi,
                    forall|qq: int, a: int|
                        0 <= qq < m && 0 <= a < r ==> #[trigger] scr.at(qq, a, 0) == scr0.at(
                            qq,
                            a,
                            0,
                        ),
                    forall|qq: int, b: int|
                        0 <= qq < m && 0 <= b < c ==> #[trigger] scr.at(qq, 0, b) == scr0.at(
                            qq,
                            0,
                            b,
                        ),
                    forall|qq: int, a: int, b: int|
                        0 <= qq < m && 1 <= a < xii && 1 <= b < c ==> #[trigger] scr.at(qq, a, b)
                            as int == dp(slice2(scr0, qq), slice2(*sd, qq), u, a, b),
                    forall|qq: int, b: int|
                        0 <= qq < m && 1 <= b < xjj ==> #[trigger] scr.at(qq, xii as int, b) as int
                            == dp(slice2(scr0, qq), slice2(*sd, qq), u, xii as int, b),
                    forall|qq: int|
                        0 <= qq < q ==> #[trigger] scr.at(qq, xii as int, xjj as int) as int == dp(
                            slice2(scr0, qq),
                            slice2(*sd, qq),
                            u,
                            xii as int,
                            xjj as int,
                        ),
                decreases m - q,
            {
                let d_del = scr.get(q, xii - 1, xjj);
                let d_ins = scr.get(q, xii, xjj - 1);
                let d_sub = scr.get(q, xii - 1, xjj - 1);
                let cost = sd.get(q, xii - 1, xjj - 1);
                let a_val = sat_add(d_del, unit);
                let b_val = sat_add(d_ins, unit);
                let c_val = sat_add(d_sub, cost);
                let v = min_u64(a_val, min_u64(b_val, c_val));
                proof {
                    lemma_cell_value(
                        scr0,
                        *sd,
                        u,
                        hi,
                        q as int,
                        xii as int,
                        xjj as int,
                        d_del as int,
                        d_ins as int,
                        d_sub as int,
                        cost as int,
                        v as int,
                    );
                }
                scr.set(q, xii, xjj, v);
                q = q + 1;
            }
            xjj = xjj + 1;
        }
        xii = xii + 1;
    }
}

/// The standard initial score table: row and column zero hold the pure
/// insertion and deletion costs, the interior starts at zero.
pub open spec fn init_cell(u: int, a: int, b: int) -> int {
    if b == 0 {
        a * u
    } else if a == 0 {
        b * u
    } else {
        0
    }
}

/// For every unordered pair of trains, build the per-pair cost array,
/// boundary-initialize a score array, run the kernel across all
/// coefficients at once, and write the resulting distances into both the
/// `(i, j)` and the `(j, i)` slots of the tensor. A pair with an empty
/// train gets the pure insertion/deletion distance directly. Diagonal
/// entries are never written.
#[verifier::loop_isolation(false)]
pub fn calculate_pairwise_distances(
    numt: usize,
    cspks: &Vec<Vec<u64>>,
    qvals: &Vec<u64>,
    num_qvals: usize,
    d: &mut Array3,
    unit: u64,
)
    requires
        numt == cspks@.len(),
        num_qvals == qvals@.len(),
        inputs_ok(train_views(cspks@), qvals@, unit),
        old(d).wf(),
        old(d).dim0() == numt,
        old(d).dim1() == numt,
        old(d).dim2() == num_qvals,
    ensures
        final(d).wf(),
        final(d).dim0() == numt,
        final(d).dim1() == numt,
        final(d).dim2() == num_qvals,
        forall|i: int, j: int, k: int|
            0 <= i < numt && 0 <= j < numt && i != j && 0 <= k < num_qvals
                ==> #[trigger] final(d).at(i, j, k) as int == pair_dist(
                train_views(cspks@),
                qvals@,
                unit,
                i,
                j,
                k,
            ),
        forall|i: int, k: int|
            0 <= i < numt && 0 <= k < num_qvals ==> #[trigger] final(d).at(i, i, k) == old(d).at(
                i,
                i,
                k,
            ),
{
    let ghost trains: Seq<Seq<u64>> = train_views(cspks@);
    let ghost qs: Seq<u64> = qvals@;
    let ghost u: int = unit as int;
    let ghost d0: Array3 = *d;

    for xi in 0..numt
        invariant
            d.wf(),
            d.dim0() == numt,
            d.dim1() == numt,
            d.dim2() == num_qvals,
            forall|i: int, j: int, k: int|
                0 <= i < j < numt && i < xi && 0 <= k < num_qvals ==> #[trigger] d.at(i, j, k)
                    as int == pair_dist(trains, qs, unit, i, j, k),
            forall|i: int, j: int, k: int|
                0 <= i < j < numt && i < xi && 0 <= k < num_qvals ==> #[trigger] d.at(j, i, k)
                    as int == pair_dist(trains, qs, unit, j, i, k),
            forall|i: int, k: int|
                0 <= i < numt && 0 <= k < num_qvals ==> #[trigger] d.at(i, i, k) == d0.at(i, i, k),
    {
        let mut xj: usize = xi + 1;
        while xj < numt
            invariant
                xi < xj <= numt,
                d.wf(),
                d.dim0() == numt,
                d.dim1() == numt,
                d.dim2() == num_qvals,
                forall|i: int, j: int, k: int|
                    0 <= i < j < numt && i < xi && 0 <= k < num_qvals ==> #[trigger] d.at(i, j, k)
                        as int == pair_dist(trains, qs, unit, i, j, k),
                forall|i: int, j: int, k: int|
                    0 <= i < j < numt && i < xi && 0 <= k < num_qvals ==> #[trigger] d.at(j, i, k)
                        as int == pair_dist(trains, qs, unit, j, i, k),
                forall|j: int, k: int|
                    xi < j < xj && 0 <= k < num_qvals ==> #[trigger] d.at(xi as int, j, k) as int
                        == pair_dist(trains, qs, unit, xi as int, j, k),
                forall|j: int, k: int|
                    xi < j < xj && 0 <= k < num_qvals ==> #[trigger] d.at(j, xi as int, k) as int
                        == pair_dist(trains, qs, unit, j, xi as int, k),
                forall|i: int, k: int|
                    0 <= i < numt && 0 <= k < num_qvals ==> #[trigger] d.at(i, i, k) == d0.at(
                        i,
                        i,
                        k,
                    ),
            decreases numt - xj,
        {
            let train_i: &Vec<u64> = &cspks[xi];
            let train_j: &Vec<u64> = &cspks[xj];
            let curcounts_xi: usize = train_i.len();
            let curcounts_xj: usize = train_j.len();
            let ghost li: int = curcounts_xi as int;
            let ghost lj: int = curcounts_xj as int;
            let ghost ti: Seq<int> = ticks(trains[xi as int]);
            let ghost tj: Seq<int> = ticks(trains[xj as int]);
            proof {
                assert(trains[xi as int] == cspks@[xi as int]@);
                assert(trains[xj as int] == cspks@[xj as int]@);
                assert(trains[xi as int].len() == li);
                assert(trains[xj as int].len() == lj);
                assert((2 * (li + lj) + 2) * u <= u64::MAX);
            }

            if curcounts_xi != 0 && curcounts_xj != 0 {
                proof {
                    assert forall|k: int, a: int|
                        0 <= k < num_qvals && 0 <= a < li implies qs[k] * train_i@[a]
                        <= u64::MAX by {
                        assert(trains[xi as int][a] == train_i@[a]);
                        assert(qs[k] * trains[xi as int][a] <= u64::MAX);
                    }
                    assert forall|k: int, b: int|
                        0 <= k < num_qvals && 0 <= b < lj implies qs[k] * train_j@[b]
                        <= u64::MAX by {
                        assert(trains[xj as int][b] == train_j@[b]);
                        assert(qs[k] * trains[xj as int][b] <= u64::MAX);
                    }
                    assert(num_qvals * ((li + 1) * (lj + 1)) <= usize::MAX);
                }
                compute_pair(train_i, train_j, qvals, num_qvals, d, unit, xi, xj);
                proof {
                    assert forall|k: int| 0 <= k < num_qvals implies d.at(
                        xi as int,
                        xj as int,
                        k,
                    ) as int == pair_dist(trains, qs, unit, xi as int, xj as int, k) && d.at(
                        xj as int,
                        xi as int,
                        k,
                    ) as int == pair_dist(trains, qs, unit, xj as int, xi as int, k) by {
                        assert(d.at(xi as int, xj as int, k) as int == vp_dist(
                            qs[k] as int,
                            u,
                            ticks(train_i@),
                            ticks(train_j@),
                        ));
                        assert(ticks(train_i@) == ti && ticks(train_j@) == tj);
                    }
                }
            } else {
                let mval: usize = if curcounts_xi < curcounts_xj {
                    curcounts_xj
                } else {
                    curcounts_xi
                };
                proof {
                    lemma_mul_inequality(mval as int, 2 * (li + lj) + 2, u);
                }
                let v: u64 = (mval as u64) * unit;
                proof {
                    assert forall|k: int| 0 <= k < num_qvals implies v as int == pair_dist(
                        trains,
                        qs,
                        unit,
                        xi as int,
                        xj as int,
                        k,
                    ) && v as int == pair_dist(trains, qs, unit, xj as int, xi as int, k) by {
                        let q: int = qs[k] as int;
                        if li == 0 {
                            assert(vp_prefix(q, u, ti, tj, 0, lj) == if lj <= 0 {
                                0
                            } else {
                                lj * u
                            });
                            assert(vp_prefix(q, u, tj, ti, lj, 0) == if lj <= 0 {
                                0
                            } else {
                                lj * u
                            });
                            assert(mval as int == lj);
                        } else {
                            assert(vp_prefix(q, u, ti, tj, li, 0) == li * u);
                            assert(vp_prefix(q, u, tj, ti, 0, li) == li * u);
                            assert(mval as int == li);
                        }
                    }
                }
                let mut k: usize = 0;
                while k < num_qvals
                    invariant
                        k <= num_qvals,
                        d.wf(),
                        d.dim0() == numt,
                        d.dim1() == numt,
                        d.dim2() == num_qvals,
                        forall|i: int, j: int, kc: int|
                            0 <= i < j < numt && i < xi && 0 <= kc < num_qvals ==> #[trigger] d.at(
                                i,
                                j,
                                kc,
                            ) as int == pair_dist(trains, qs, unit, i, j, kc),
                        forall|i: int, j: int, kc: int|
                            0 <= i < j < numt && i < xi && 0 <= kc < num_qvals ==> #[trigger] d.at(
                                j,
                                i,
                                kc,
                            ) as int == pair_dist(trains, qs, unit, j, i, kc),
                        forall|j: int, kc: int|
                            xi < j < xj && 0 <= kc < num_qvals ==> #[trigger] d.at(xi as int, j, kc)
                                as int == pair_dist(trains, qs, unit, xi as int, j, kc),
                        forall|j: int, kc: int|
                            xi < j < xj && 0 <= kc < num_qvals ==> #[trigger] d.at(j, xi as int, kc)
                                as int == pair_dist(trains, qs, unit, j, xi as int, kc),
                        forall|i: int, kc: int|
                            0 <= i < numt && 0 <= kc < num_qvals ==> #[trigger] d.at(i, i, kc)
                                == d0.at(i, i, kc),
                        forall|kc: int|
                            0 <= kc < k ==> #[trigger] d.at(xi as int, xj as int, kc) == v,
                        forall|kc: int|
                            0 <= kc < k ==> #[trigger] d.at(xj as int, xi as int, kc) == v,
                    decreases num_qvals - k,
                {
                    d.set(xi, xj, k, v);
                    d.set(xj, xi, k, v);
                    k = k + 1;
                }
            }
            xj = xj + 1;
        }
    }
}

/// One non-empty pair: build the coefficient-scaled cost array and the
/// boundary-initialized score array, run the kernel, and store the final
/// table cell of every coefficient into both orientations of the tensor.
#[verifier::loop_isolation(false)]
fn compute_pair(
    train_i: &Vec<u64>,
    train_j: &Vec<u64>,
    qvals: &Vec<u64>,
    num_qvals: usize,
    d: &mut Array3,
    unit: u64,
    xi: usize,
    xj: usize,
)
    requires
        num_qvals == qvals@.len(),
        1 <= train_i@.len() < usize::MAX,
        1 <= train_j@.len() < usize::MAX,
        num_qvals * ((train_i@.len() + 1) * (train_j@.len() + 1)) <= usize::MAX,
        (2 * (train_i@.len() + train_j@.len()) + 2) * unit <= u64::MAX,
        forall|k: int, a: int|
            #![trigger qvals@[k], train_i@[a]]
            0 <= k < num_qvals && 0 <= a < train_i@.len() ==> qvals@[k] * train_i@[a] <= u64::MAX,
        forall|k: int, b: int|
            #![trigger qvals@[k], train_j@[b]]
            0 <= k < num_qvals && 0 <= b < train_j@.len() ==> qvals@[k] * train_j@[b] <= u64::MAX,
        old(d).wf(),
        old(d).dim2() == num_qvals,
        xi < old(d).dim0(),
        xj < old(d).dim0(),
        xi < old(d).dim1(),
        xj < old(d).dim1(),
        xi != xj,
    ensures
        final(d).wf(),
        final(d).dim0() == old(d).dim0(),
        final(d).dim1() == old(d).dim1(),
        final(d).dim2() == old(d).dim2(),
        forall|k: int|
            0 <= k < num_qvals ==> #[trigger] final(d).at(xi as int, xj as int, k) as int
                == vp_dist(qvals@[k] as int, unit as int, ticks(train_i@), ticks(train_j@)),
        forall|k: int|
            0 <= k < num_qvals ==> #[trigger] final(d).at(xj as int, xi as int, k) as int
                == vp_dist(qvals@[k] as int, unit as int, ticks(train_j@), ticks(train_i@)),
        forall|i: int, j: int, k: int|
            0 <= i < old(d).dim0() && 0 <= j < old(d).dim1() && 0 <= k < old(d).dim2() && !(i == xi
                && j == xj) && !(i == xj && j == xi)
                ==> #[trigger] final(d).at(i, j, k) == old(d).at(i, j, k),
{
    let ghost d0: Array3 = *d;
    let ghost u: int = unit as int;
    let curcounts_xi: usize = train_i.len();
    let curcounts_xj: usize = train_j.len();
    let ghost li: int = curcounts_xi as int;
    let ghost lj: int = curcounts_xj as int;
    let ghost ti: Seq<int> = ticks(train_i@);
    let ghost tj: Seq<int> = ticks(train_j@);

    // The per-coefficient cost array: entry (k, a, b) is coefficient k
    // times the timing difference of events a and b.
    proof {
        assert(num_qvals * curcounts_xi <= usize::MAX && num_qvals * curcounts_xi * curcounts_xj
            <= usize::MAX) by (nonlinear_arith)
            requires
                num_qvals * ((li + 1) * (lj + 1)) <= usize::MAX,
                li == curcounts_xi,
                lj == curcounts_xj,
                0 <= num_qvals,
                1 <= li,
                1 <= lj,
        ;
    }
    let mut sd_arr: Array3 = Array3::zeros(num_qvals, curcounts_xi, curcounts_xj);
    let mut k: usize = 0;
    while k < num_qvals
        invariant
            k <= num_qvals,
            sd_arr.wf(),
            sd_arr.dim0() == num_qvals,
            sd_arr.dim1() == li,
            sd_arr.dim2() == lj,
            forall|kc: int, a: int, b: int|
                0 <= kc < k && 0 <= a < li && 0 <= b < lj ==> #[trigger] sd_arr.at(kc, a, b) as int
                    == shift_cost(qvals@[kc] as int, ti, tj, a, b),
        decreases num_qvals - k,
    {
        let qk: u64 = qvals[k];
        let mut a: usize = 0;
        while a < curcounts_xi
            invariant
                a <= curcounts_xi,
                k < num_qvals,
                qk == qvals@[k as int],
                sd_arr.wf(),
                sd_arr.dim0() == num_qvals,
                sd_arr.dim1() == li,
                sd_arr.dim2() == lj,
                forall|kc: int, aa: int, b: int|
                    0 <= kc < k && 0 <= aa < li && 0 <= b < lj ==> #[trigger] sd_arr.at(kc, aa, b)
                        as int == shift_cost(qvals@[kc] as int, ti, tj, aa, b),
                forall|aa: int, b: int|
                    0 <= aa < a && 0 <= b < lj ==> #[trigger] sd_arr.at(k as int, aa, b) as int
                        == shift_cost(qvals@[k as int] as int, ti, tj, aa, b),
            decreases curcounts_xi - a,
        {
            let ta: u64 = train_i[a];
            let mut b: usize = 0;
            while b < curcounts_xj
                invariant
                    b <= curcounts_xj,
                    a < curcounts_xi,
                    k < num_qvals,
                    qk == qvals@[k as int],
                    ta == train_i@[a as int],
                    sd_arr.wf(),
                    sd_arr.dim0() == num_qvals,
                    sd_arr.dim1() == li,
                    sd_arr.dim2() == lj,
                    forall|kc: int, aa: int, bb: int|
                        0 <= kc < k && 0 <= aa < li && 0 <= bb < lj ==> #[trigger] sd_arr.at(
                            kc,
                            aa,
                            bb,
                        ) as int == shift_cost(qvals@[kc] as int, ti, tj, aa, bb),
                    forall|aa: int, bb: int|
                        0 <= aa < a && 0 <= bb < lj ==> #[trigger] sd_arr.at(k as int, aa, bb)
                            as int == shift_cost(qvals@[k as int] as int, ti, tj, aa, bb),
                    forall|bb: int|
                        0 <= bb < b ==> #[trigger] sd_arr.at(k as int, a as int, bb) as int
                            == shift_cost(qvals@[k as int] as int, ti, tj, a as int, bb),
                decreases curcounts_xj - b,
            {
                let tb: u64 = train_j[b];
                let diff: u64 = if ta >= tb {
                    ta - tb
                } else {
                    tb - ta
                };
                proof {
                    assert(qvals@[k as int] * train_i@[a as int] <= u64::MAX);
                    assert(qvals@[k as int] * train_j@[b as int] <= u64::MAX);
                    let dmax: int = if ta >= tb {
                        ta as int
                    } else {
                        tb as int
                    };
                    assert(qk * dmax <= u64::MAX);
                    assert(qk * diff <= qk * dmax) by (nonlinear_arith)
                        requires
                            0 <= qk as int,
                            0 <= diff as int <= dmax,
                    ;
                    assert(ti[a as int] == ta as int && tj[b as int] == tb as int);
                }
                let cost: u64 = qk * diff;
                proof {
                    assert(cost as int == shift_cost(qk as int, ti, tj, a as int, b as int));
                }
                sd_arr.set(k, a, b, cost);
                b = b + 1;
            }
            a = a + 1;
        }
        k = k + 1;
    }

    // The score array, with its boundary row and column set to the pure
    // insertion and deletion costs.
    let lip: usize = curcounts_xi + 1;
    let ljp: usize = curcounts_xj + 1;
    proof {
        assert(num_qvals * lip <= usize::MAX && num_qvals * lip * ljp <= usize::MAX)
            by (nonlinear_arith)
            requires
                num_qvals * ((li + 1) * (lj + 1)) <= usize::MAX,
                lip == li + 1,
                ljp == lj + 1,
                0 <= num_qvals,
                1 <= li,
                1 <= lj,
        ;
    }
    let mut scr_arr: Array3 = Array3::zeros(num_qvals, lip, ljp);
    let mut k2: usize = 0;
    while k2 < num_qvals
        invariant
            k2 <= num_qvals,
            scr_arr.wf(),
            scr_arr.dim0() == num_qvals,
            scr_arr.dim1() == lip,
            scr_arr.dim2() == ljp,
            forall|kc: int, a: int, b: int|
                0 <= kc < k2 && 0 <= a < lip && 0 <= b < ljp ==> #[trigger] scr_arr.at(kc, a, b)
                    as int == init_cell(u, a, b),
            forall|kc: int, a: int, b: int|
                k2 <= kc < num_qvals && 0 <= a < lip && 0 <= b < ljp ==> #[trigger] scr_arr.at(
                    kc,
                    a,
                    b,
                ) == 0u64,
        decreases num_qvals - k2,
    {
        let mut a: usize = 1;
        while a < lip
            invariant
                1 <= a <= lip,
                k2 < num_qvals,
                scr_arr.wf(),
                scr_arr.dim0() == num_qvals,
                scr_arr.dim1() == lip,
                scr_arr.dim2() == ljp,
                forall|kc: int, aa: int, b: int|
                    0 <= kc < k2 && 0 <= aa < lip && 0 <= b < ljp ==> #[trigger] scr_arr.at(
                        kc,
                        aa,
                        b,
                    ) as int == init_cell(u, aa, b),
                forall|kc: int, aa: int, b: int|
                    k2 < kc < num_qvals && 0 <= aa < lip && 0 <= b < ljp ==> #[trigger] scr_arr.at(
                        kc,
                        aa,
                        b,
                    ) == 0u64,
                forall|aa: int|
                    1 <= aa < a ==> #[trigger] scr_arr.at(k2 as int, aa, 0) as int == aa * u,
                forall|aa: int, b: int|
                    0 <= aa < lip && 0 <= b < ljp && !(1 <= aa < a && b == 0)
                        ==> #[trigger] scr_arr.at(k2 as int, aa, b) == 0u64,
            decreases lip - a,
        {
            proof {
                lemma_mul_inequality(a as int, 2 * (li + lj) + 2, u);
            }
            scr_arr.set(k2, a, 0, (a as u64) * unit);
            a = a + 1;
        }
        let mut b: usize = 1;
        while b < ljp
            invariant
                1 <= b <= ljp,
                k2 < num_qvals,
                scr_arr.wf(),
                scr_arr.dim0() == num_qvals,
                scr_arr.dim1() == lip,
                scr_arr.dim2() == ljp,
                forall|kc: int, aa: int, bb: int|
                    0 <= kc < k2 && 0 <= aa < lip && 0 <= bb < ljp ==> #[trigger] scr_arr.at(
                        kc,
                        aa,
                        bb,
                    ) as int == init_cell(u, aa, bb),
                forall|kc: int, aa: int, bb: int|
                    k2 < kc < num_qvals && 0 <= aa < lip && 0 <= bb < ljp ==> #[trigger] scr_arr.at(
                        kc,
                        aa,
                        bb,
                    ) == 0u64,
                forall|aa: int|
                    1 <= aa < lip ==> #[trigger] scr_arr.at(k2 as int, aa, 0) as int == aa * u,
                forall|bb: int|
                    1 <= bb < b ==> #[trigger] scr_arr.at(k2 as int, 0, bb) as int == bb * u,
                forall|aa: int, bb: int|
                    0 <= aa < lip && 0 <= bb < ljp && !(1 <= aa && bb == 0) && !(aa == 0 && 1 <= bb
                        < b) ==> #[trigger] scr_arr.at(k2 as int, aa, bb) == 0u64,
            decreases ljp - b,
        {
            proof {
                lemma_mul_inequality(b as int, 2 * (li + lj) + 2, u);
            }
            scr_arr.set(k2, 0, b, (b as u64) * unit);
            b = b + 1;
        }
        k2 = k2 + 1;
    }

    // Run the kernel and read off the final cell of every coefficient.
    let ghost scr_before: Array3 = scr_arr;
    proof {
        assert forall|kc: int, a: int|
            0 <= kc < num_qvals && 0 <= a < lip implies #[trigger] scr_arr.at(kc, a, 0) + (lip
            + ljp) * unit <= u64::MAX by {
            assert(scr_arr.at(kc, a, 0) as int == init_cell(u, a, 0));
            lemma_mul_inequality(a + li + lj + 2, 2 * (li + lj) + 2, u);
            assert(a * u + (li + lj + 2) * u == (a + li + lj + 2) * u) by (nonlinear_arith);
        }
        assert forall|kc: int, b: int|
            0 <= kc < num_qvals && 0 <= b < ljp implies #[trigger] scr_arr.at(kc, 0, b) + (lip
            + ljp) * unit <= u64::MAX by {
            assert(scr_arr.at(kc, 0, b) as int == init_cell(u, 0, b));
            lemma_mul_inequality(b + li + lj + 2, 2 * (li + lj) + 2, u);
            assert(b * u + (li + lj + 2) * u == (b + li + lj + 2) * u) by (nonlinear_arith);
        }
    }
    iterate_spiketrains(&mut scr_arr, &sd_arr, unit);

    let mut k3: usize = 0;
    while k3 < num_qvals
        invariant
            k3 <= num_qvals,
            d.wf(),
            d.dim0() == d0.dim0(),
            d.dim1() == d0.dim1(),
            d.dim2() == d0.dim2(),
            forall|kc: int|
                0 <= kc < k3 ==> #[trigger] d.at(xi as int, xj as int, kc) as int == vp_dist(
                    qvals@[kc] as int,
                    u,
                    ti,
                    tj,
                ),
            forall|kc: int|
                0 <= kc < k3 ==> #[trigger] d.at(xj as int, xi as int, kc) as int == vp_dist(
                    qvals@[kc] as int,
                    u,
                    tj,
                    ti,
                ),
            forall|i: int, j: int, kc: int|
                0 <= i < d0.dim0() && 0 <= j < d0.dim1() && 0 <= kc < d0.dim2() && !(i == xi && j
                    == xj) && !(i == xj && j == xi) ==> #[trigger] d.at(i, j, kc) == d0.at(
                    i,
                    j,
                    kc,
                ),
        decreases num_qvals - k3,
    {
        let v: u64 = scr_arr.get(k3, curcounts_xi, curcounts_xj);
        proof {
            let kq: int = qvals@[k3 as int] as int;
            let init_s = slice2(scr_before, k3 as int);
            let sd_s = slice2(sd_arr, k3 as int);
            assert forall|x: int| 0 <= x <= li implies #[trigger] init_s[x][0] as int == x * u by {
                assert(init_s[x][0] == scr_before.at(k3 as int, x, 0));
                assert(scr_before.at(k3 as int, x, 0) as int == init_cell(u, x, 0));
            }
            assert forall|y: int| 0 <= y <= lj implies #[trigger] init_s[0][y] as int == y * u by {
                assert(init_s[0][y] == scr_before.at(k3 as int, 0, y));
                assert(scr_before.at(k3 as int, 0, y) as int == init_cell(u, 0, y));
            }
            assert forall|x: int, y: int|
                0 <= x < li && 0 <= y < lj implies #[trigger] sd_s[x][y] as int == shift_cost(
                kq,
                ti,
                tj,
                x,
                y,
            ) by {
                assert(sd_s[x][y] == sd_arr.at(k3 as int, x, y));
            }
            lemma_dp_matches_vp(init_s, sd_s, kq, u, ti, tj, li, lj);
            lemma_vp_prefix_symmetric(kq, u, ti, tj, li, lj);
            assert(ti.len() == li && tj.len() == lj);
            assert(v as int == dp(init_s, sd_s, u, li, lj));
        }
        d.set(xi, xj, k3, v);
        d.set(xj, xi, k3, v);
        k3 = k3 + 1;
    }
}

/// Build the full distance tensor: a `(N, N, M)` array with every
/// off-diagonal entry holding the pair's Victor–Purpura distance under the
/// respective coefficient, both orientations written from one computation
/// so the result is symmetric by construction, and the diagonal left at
/// zero from initialization. Every entry is an unsigned count of cost
/// units, so the whole tensor is non-negative.
pub fn calculate_spkd_impl(
    cspks: &Vec<Vec<u64>>,
    qvals: &Vec<u64>,
    num_qvals: usize,
    num_vectors: usize,
    unit: u64,
) -> (d: Array3)
    requires
        num_vectors == cspks@.len(),
        num_qvals == qvals@.len(),
        inputs_ok(train_views(cspks@), qvals@, unit),
        num_vectors * num_vectors <= usize::MAX,
        num_vectors * num_vectors * num_qvals <= usize::MAX,
    ensures
        d.wf(),
        d.dim0() == num_vectors,
        d.dim1() == num_vectors,
        d.dim2() == num_qvals,
        forall|i: int, j: int, k: int|
            0 <= i < num_vectors && 0 <= j < num_vectors && 0 <= k < num_qvals ==> #[trigger] d.at(
                i,
                j,
                k,
            ) as int == spkd_entry(train_views(cspks@), qvals@, unit, i, j, k),
        forall|i: int, j: int, k: int|
            0 <= i < num_vectors && 0 <= j < num_vectors && 0 <= k < num_qvals ==> #[trigger] d.at(
                i,
                j,
                k,
            ) == d.at(j, i, k),
        forall|i: int, k: int|
            0 <= i < num_vectors && 0 <= k < num_qvals ==> #[trigger] d.at(i, i, k) == 0u64,
{
    let numt: usize = num_vectors;
    let mut d_arr: Array3 = Array3::zeros(numt, numt, num_qvals);
    calculate_pairwise_distances(numt, cspks, qvals, num_qvals, &mut d_arr, unit);
    proof {
        let trains = train_views(cspks@);
        assert forall|i: int, j: int, k: int|
            0 <= i < num_vectors && 0 <= j < num_vectors && i != j && 0 <= k
                < num_qvals implies pair_dist(trains, qvals@, unit, i, j, k) == pair_dist(
            trains,
            qvals@,
            unit,
            j,
            i,
            k,
        ) by {
            let s = ticks(trains[i]);
            let t = ticks(trains[j]);
            lemma_vp_prefix_symmetric(qvals@[k] as int, unit as int, s, t, s.len() as int, t.len() as int);
        }
    }
    d_arr
}

/// On the boundary the table recurrence simply returns the initial value.
proof fn lemma_boundary_is_dp(scr0: Array3, sd: Array3, u: int, m: int, r: int, c: int)
    requires
        scr0.dim1() == r,
        scr0.dim2() == c,
        r >= 1,
        c >= 1,
    ensures
        forall|q: int, a: int|
            0 <= a < r ==> dp(slice2(scr0, q), slice2(sd, q), u, a, 0) == #[trigger] scr0.at(
                q,
                a,
                0,
            ) as int,
        forall|q: int, b: int|
            0 <= b < c ==> dp(slice2(scr0, q), slice2(sd, q), u, 0, b) == #[trigger] scr0.at(
                q,
                0,
                b,
            ) as int,
{
    assert forall|q: int, a: int| 0 <= a < r implies dp(slice2(scr0, q), slice2(sd, q), u, a, 0)
        == #[trigger] scr0.at(q, a, 0) as int by {
        assert(slice2(scr0, q)[a][0] == scr0.at(q, a, 0));
    }
    assert forall|q: int, b: int| 0 <= b < c implies dp(slice2(scr0, q), slice2(sd, q), u, 0, b)
        == #[trigger] scr0.at(q, 0, b) as int by {
        assert(slice2(scr0, q)[0][b] == scr0.at(q, 0, b));
    }
}

/// One interior step: from exact predecessor cells, the saturating
/// arithmetic picks exactly the recurrence value.
#[verifier::rlimit(30)]
proof fn lemma_cell_value(
    scr0: Array3,
    sd: Array3,
    u: int,
    hi: int,
    q: int,
    a: int,
    b: int,
    d_del: int,
    d_ins: int,
    d_sub: int,
    cost: int,
    v: int,
)
    requires
        scr0.wf(),
        sd.wf(),
        0 <= u,
        scr0.dim1() >= 1,
        scr0.dim2() >= 1,
        sd.dim0() == scr0.dim0(),
        sd.dim1() == scr0.dim1() - 1,
        sd.dim2() == scr0.dim2() - 1,
        0 <= q < scr0.dim0(),
        1 <= a < scr0.dim1(),
        1 <= b < scr0.dim2(),
        hi == u64::MAX - (scr0.dim1() + scr0.dim2()) * u,
        forall|x: int| 0 <= x < scr0.dim1() ==> #[trigger] scr0.at(q, x, 0) <= hi,
        forall|y: int| 0 <= y < scr0.dim2() ==> #[trigger] scr0.at(q, 0, y) <= hi,
        d_del == dp(slice2(scr0, q), slice2(sd, q), u, a - 1, b),
        d_ins == dp(slice2(scr0, q), slice2(sd, q), u, a, b - 1),
        d_sub == dp(slice2(scr0, q), slice2(sd, q), u, a - 1, b - 1),
        cost == slice2(sd, q)[a - 1][b - 1] as int,
        0 <= cost <= u64::MAX,
        v == min3(
            if d_del + u <= u64::MAX {
                d_del + u
            } else {
                u64::MAX as int
            },
            if d_ins + u <= u64::MAX {
                d_ins + u
            } else {
                u64::MAX as int
            },
            if d_sub + cost <= u64::MAX {
                d_sub + cost
            } else {
                u64::MAX as int
            },
        ),
    ensures
        v == dp(slice2(scr0, q), slice2(sd, q), u, a, b),
        0 <= v <= u64::MAX,
{
    let init = slice2(scr0, q);
    let sdq = slice2(sd, q);
    let r = scr0.dim1();
    let c = scr0.dim2();
    assert forall|x: int| 0 <= x <= r - 1 implies #[trigger] init[x][0] <= hi by {
        assert(init[x][0] == scr0.at(q, x, 0));
    }
    assert forall|y: int| 0 <= y <= c - 1 implies #[trigger] init[0][y] <= hi by {
        assert(init[0][y] == scr0.at(q, 0, y));
    }
    lemma_dp_bounds(init, sdq, u, a - 1, b, hi);
    lemma_dp_bounds(init, sdq, u, a, b - 1, hi);
    lemma_dp_bounds(init, sdq, u, a - 1, b - 1, hi);
    assert(hi + (a + b) * u + u <= hi + (r + c) * u) by (nonlinear_arith)
        requires
            0 <= u,
            a + b + 1 <= r + c,
    ;
    assert(hi + (a - 1 + b) * u + u == hi + (a + b) * u) by (nonlinear_arith);
    assert(hi + (a + b - 1) * u + u == hi + (a + b) * u) by (nonlinear_arith);
    assert(d_del + u <= u64::MAX);
    assert(d_ins + u <= u64::MAX);
    if d_sub + cost <= u64::MAX {
        assert(v == min3(d_del + u, d_ins + u, d_sub + cost));
    } else {
        assert(v == min3(d_del + u, d_ins + u, u64::MAX as int));
        assert(min3(d_del + u, d_ins + u, d_sub + cost) == min3(
            d_del + u,
            d_ins + u,
            u64::MAX as int,
        ));
    }
    assert(dp(init, sdq, u, a, b) == min3(d_del + u, d_ins + u, d_sub + cost));
}

} // verus!
