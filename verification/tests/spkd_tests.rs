// Tests of the distance tensor and the kernel, working in fixed point:
// timestamps in ticks, one insertion or deletion costing `UNIT` cost
// units, and each coefficient given as cost units per tick.

use rs_distances::{calculate_pairwise_distances, calculate_spkd_impl, iterate_spiketrains, Array3};

const UNIT: u64 = 1_000_000;

fn tensor(trains: &Vec<Vec<u64>>, qvals: &Vec<u64>) -> Array3 {
    calculate_spkd_impl(trains, qvals, qvals.len(), trains.len(), UNIT)
}

// Three trains of five events each, a quarter time-unit apart, under
// coefficients 1, 2 and 3 per time unit.
fn mock_trains() -> Vec<Vec<u64>> {
    vec![
        vec![100_000, 150_000, 200_000, 250_000, 300_000],
        vec![350_000, 400_000, 450_000, 500_000, 550_000],
        vec![600_000, 650_000, 700_000, 750_000, 800_000],
    ]
}

#[test]
fn test_calculate_spkd() {
    let trains = mock_trains();
    let qvals: Vec<u64> = vec![1, 2, 3];
    let d = tensor(&trains, &qvals);

    assert_eq!(d.dim(), (3, 3, 3));
    for i in 0..3 {
        for j in 0..3 {
            for k in 0..3 {
                // symmetric under swapping the train axes
                assert_eq!(d.get(i, j, k), d.get(j, i, k));
                // never above the pure insertion/deletion ceiling
                assert!(d.get(i, j, k) <= 10 * UNIT);
            }
        }
    }
    // self-distances stay zero
    for i in 0..3 {
        for k in 0..3 {
            assert_eq!(d.get(i, i, k), 0);
        }
    }
    // for the near pairs every event matches the same-rank event of the
    // other train: five shifts of the 0.25 offset
    for k in 0..3 {
        let q = qvals[k];
        assert_eq!(d.get(0, 1, k), 5 * q * 250_000);
        assert_eq!(d.get(1, 2, k), 5 * q * 250_000);
    }
    // for the far pair (offset 0.5) rank-for-rank matching is optimal at
    // q = 1 and q = 2; at q = 3 one deletion, four matches shifted by
    // 0.45 and one insertion are cheaper: 2 + 4 * 3 * 0.45 = 7.4
    assert_eq!(d.get(0, 2, 0), 2_500_000);
    assert_eq!(d.get(0, 2, 1), 5_000_000);
    assert_eq!(d.get(0, 2, 2), 7_400_000);
}

#[test]
fn test_empty_train_rule() {
    // one empty train against one of length four: the distance is four
    // insertions, whatever the coefficient
    let trains: Vec<Vec<u64>> = vec![vec![], vec![10, 20, 30, 40]];
    let qvals: Vec<u64> = vec![0, 1, 5, 1000];
    let d = tensor(&trains, &qvals);
    assert_eq!(d.dim(), (2, 2, 4));
    for k in 0..4 {
        assert_eq!(d.get(0, 1, k), 4 * UNIT);
        assert_eq!(d.get(1, 0, k), 4 * UNIT);
    }
}

#[test]
fn test_single_element_pair() {
    // single-event trains: the distance is min(2 * UNIT, q * |t1 - t2|)
    let trains: Vec<Vec<u64>> = vec![vec![100], vec![350]];
    let qvals: Vec<u64> = vec![0, 4_000, 8_000, 10_000];
    let d = tensor(&trains, &qvals);
    assert_eq!(d.get(0, 1, 0), 0); // shifts free
    assert_eq!(d.get(0, 1, 1), 1_000_000); // 4_000 * 250
    assert_eq!(d.get(0, 1, 2), 2_000_000); // exactly the ceiling
    assert_eq!(d.get(0, 1, 3), 2_000_000); // 2_500_000 capped at 2 * UNIT
}

#[test]
fn test_zero_coefficient() {
    // with a zero coefficient only the length difference is paid for
    let same: Vec<Vec<u64>> = vec![vec![1, 2, 3], vec![900, 901, 902]];
    let qz: Vec<u64> = vec![0];
    let d = tensor(&same, &qz);
    assert_eq!(d.get(0, 1, 0), 0);

    let uneven: Vec<Vec<u64>> = vec![vec![5, 6], vec![1, 2, 3, 4, 5]];
    let d2 = tensor(&uneven, &qz);
    assert_eq!(d2.get(0, 1, 0), 3 * UNIT);
    assert_eq!(d2.get(1, 0, 0), 3 * UNIT);
}

#[test]
fn test_monotone_in_coefficient() {
    // for a fixed pair the distance never decreases as q grows
    let trains: Vec<Vec<u64>> = vec![
        vec![100_000, 210_000, 530_000],
        vec![90_000, 400_000, 405_000, 800_000],
    ];
    let qvals: Vec<u64> = vec![0, 1, 2, 3, 10, 100, 10_000];
    let d = tensor(&trains, &qvals);
    for k in 0..qvals.len() - 1 {
        assert!(d.get(0, 1, k) <= d.get(0, 1, k + 1));
    }
    // and stays below one unit per event of either train
    for k in 0..qvals.len() {
        assert!(d.get(0, 1, k) <= 7 * UNIT);
    }
}

#[test]
fn test_round_trip_identical() {
    // a pure function: the same input twice gives the same tensor, bit
    // for bit
    let trains = mock_trains();
    let qvals: Vec<u64> = vec![1, 2, 3];
    let d1 = tensor(&trains, &qvals);
    let d2 = tensor(&trains, &qvals);
    assert_eq!(d1.dim(), d2.dim());
    for i in 0..3 {
        for j in 0..3 {
            for k in 0..3 {
                assert_eq!(d1.get(i, j, k), d2.get(i, j, k));
            }
        }
    }
}

#[test]
fn test_kernel_two_by_two() {
    // hand-computed 2x2 score table for single-event trains, unit cost 7:
    // boundary [[0, 7], [7, _]], one substitution cost; the corner is
    // min(0 + cost, 7 + 7, 7 + 7)
    let unit: u64 = 7;

    let mut scr = Array3::zeros(1, 2, 2);
    scr.set(0, 1, 0, unit);
    scr.set(0, 0, 1, unit);
    let mut sd = Array3::zeros(1, 1, 1);
    sd.set(0, 0, 0, 5);
    iterate_spiketrains(&mut scr, &sd, unit);
    assert_eq!(scr.get(0, 1, 1), 5);

    let mut scr2 = Array3::zeros(1, 2, 2);
    scr2.set(0, 1, 0, unit);
    scr2.set(0, 0, 1, unit);
    let mut sd2 = Array3::zeros(1, 1, 1);
    sd2.set(0, 0, 0, 20);
    iterate_spiketrains(&mut scr2, &sd2, unit);
    assert_eq!(scr2.get(0, 1, 1), 14);
}

#[test]
fn test_pairwise_fills_both_triangles() {
    // the pairwise pass writes both orientations and leaves the diagonal
    // untouched
    let trains: Vec<Vec<u64>> = vec![vec![10], vec![20], vec![40]];
    let qvals: Vec<u64> = vec![100_000];
    let mut d = Array3::zeros(3, 3, 1);
    calculate_pairwise_distances(3, &trains, &qvals, 1, &mut d, UNIT);
    for i in 0..3 {
        assert_eq!(d.get(i, i, 0), 0);
    }
    assert_eq!(d.get(0, 1, 0), 1_000_000); // 100_000 * 10
    assert_eq!(d.get(1, 0, 0), 1_000_000);
    assert_eq!(d.get(0, 2, 0), 2_000_000); // 100_000 * 30 capped at 2 * UNIT
    assert_eq!(d.get(1, 2, 0), 2_000_000);
    assert_eq!(d.get(2, 0, 0), d.get(0, 2, 0));
}

#[test]
fn test_array3_store() {
    let mut arr = Array3::zeros(2, 3, 4);
    assert_eq!(arr.dim(), (2, 3, 4));
    for i in 0..2 {
        for j in 0..3 {
            for k in 0..4 {
                assert_eq!(arr.get(i, j, k), 0);
            }
        }
    }
    arr.set(1, 2, 3, 99);
    arr.set(0, 0, 0, 7);
    assert_eq!(arr.get(1, 2, 3), 99);
    assert_eq!(arr.get(0, 0, 0), 7);
    assert_eq!(arr.get(1, 2, 2), 0);
    arr.set(1, 2, 3, 100);
    assert_eq!(arr.get(1, 2, 3), 100);
}
