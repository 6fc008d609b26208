use sales_cleaning::decimal::{Decimal, UNIT};
use sales_cleaning::order::stable_order;
use sales_cleaning::outlier::{quartiles, Quartiles};
use sales_cleaning::smoother::{moving_averages, WindowMean};

fn whole(n: i128) -> Decimal {
    Decimal { units: n * (UNIT as i128) }
}

fn prices(values: &[i128]) -> Vec<Decimal> {
    values.iter().map(|v| whole(*v)).collect()
}

#[test]
fn order_is_ascending_and_stable() {
    assert_eq!(stable_order(&vec![3, 1, 2, 1]), vec![1, 3, 2, 0]);
    assert_eq!(stable_order(&vec![5, 5, 5]), vec![0, 1, 2]);
    assert_eq!(stable_order(&vec![]), Vec::<usize>::new());
    assert_eq!(stable_order(&vec![-1]), vec![0]);
    assert_eq!(stable_order(&vec![2, 1]), vec![1, 0]);
    assert_eq!(stable_order(&vec![9, 8, 7, 6, 5, 4, 3, 2, 1, 0]), vec![9, 8, 7, 6, 5, 4, 3, 2, 1, 0]);
}

#[test]
fn order_agrees_with_a_stable_sort() {
    let mut seed: u64 = 7;
    for len in 0..40usize {
        let mut keys: Vec<i128> = Vec::new();
        for _ in 0..len {
            seed = seed.wrapping_mul(6364136223846793005).wrapping_add(1442695040888963407);
            keys.push(((seed >> 33) % 7) as i128 - 3);
        }
        let mut expected: Vec<usize> = (0..len).collect();
        expected.sort_by_key(|i| keys[*i]);
        assert_eq!(stable_order(&keys), expected);
    }
}

#[test]
fn quartiles_by_rank_index() {
    let q = quartiles(&prices(&[10, 12, 14, 15, 18, 100])).unwrap();
    assert_eq!(q, Quartiles { q1: whole(12), q3: whole(18) });
    let shuffled = quartiles(&prices(&[100, 15, 10, 18, 12, 14])).unwrap();
    assert_eq!(shuffled, q);
}

#[test]
fn quartile_bounds_of_the_example() {
    // Q1 = 12, Q3 = 18, IQR = 6: the bounds are 12 - 9 = 3 and 18 + 9 = 27.
    let q = quartiles(&prices(&[10, 12, 14, 15, 18, 100])).unwrap();
    assert!(q.contains(&whole(27)));
    assert!(!q.contains(&Decimal { units: 27 * (UNIT as i128) + 1 }));
    assert!(q.contains(&whole(3)));
    assert!(!q.contains(&Decimal { units: 3 * (UNIT as i128) - 1 }));
    assert!(!q.contains(&whole(100)));
    for p in [10, 12, 14, 15, 18] {
        assert!(q.contains(&whole(p)));
    }
}

#[test]
fn quartile_bounds_between_two_units() {
    // IQR of one unit: the bounds lie half a unit beyond whole units.
    let q = Quartiles { q1: Decimal { units: 10 }, q3: Decimal { units: 11 } };
    assert!(q.contains(&Decimal { units: 9 }));
    assert!(!q.contains(&Decimal { units: 8 }));
    assert!(q.contains(&Decimal { units: 12 }));
    assert!(!q.contains(&Decimal { units: 13 }));
}

#[test]
fn quartiles_of_short_columns() {
    assert_eq!(quartiles(&prices(&[])), None);
    assert_eq!(quartiles(&prices(&[7])), Some(Quartiles { q1: whole(7), q3: whole(7) }));
    assert_eq!(quartiles(&prices(&[9, 7])), Some(Quartiles { q1: whole(7), q3: whole(9) }));
    assert_eq!(quartiles(&prices(&[9, 7, 8])), Some(Quartiles { q1: whole(7), q3: whole(9) }));
    assert_eq!(quartiles(&prices(&[4, 3, 2, 1])), Some(Quartiles { q1: whole(2), q3: whole(4) }));
    assert_eq!(quartiles(&prices(&[1, 2, 3, 4, 5])), Some(Quartiles { q1: whole(2), q3: whole(4) }));
}

#[test]
fn moving_average_of_the_example() {
    let averages = moving_averages(&vec![10, 20, 30, 40, 50]);
    assert_eq!(
        averages,
        vec![
            None,
            None,
            Some(WindowMean { total: 60, count: 3 }),
            Some(WindowMean { total: 90, count: 3 }),
            Some(WindowMean { total: 120, count: 3 }),
        ]
    );
    let rounded: Vec<Option<i128>> = averages.iter().map(|a| a.map(|m| m.rounded())).collect();
    assert_eq!(rounded, vec![None, None, Some(20), Some(30), Some(40)]);
}

#[test]
fn moving_average_of_short_columns() {
    assert_eq!(moving_averages(&vec![]), vec![]);
    assert_eq!(moving_averages(&vec![5]), vec![None]);
    assert_eq!(moving_averages(&vec![5, 6]), vec![None, None]);
    assert_eq!(moving_averages(&vec![5, 6, 8]), vec![None, None, Some(WindowMean { total: 19, count: 3 })]);
}

#[test]
fn moving_average_at_the_limits() {
    let averages = moving_averages(&vec![i64::MAX, i64::MAX, i64::MAX, i64::MIN, i64::MIN, i64::MIN]);
    assert_eq!(averages[2], Some(WindowMean { total: 3 * (i64::MAX as i128), count: 3 }));
    assert_eq!(averages[2].unwrap().rounded(), i64::MAX as i128);
    assert_eq!(averages[5].unwrap().rounded(), i64::MIN as i128);
}

#[test]
fn mean_is_kept_unrounded() {
    let mean = WindowMean { total: 19, count: 3 };
    assert_eq!(mean.rounded(), 6);
    assert_eq!(mean.total as f64 / mean.count as f64, 19.0 / 3.0);
}

#[test]
fn mean_rounds_to_the_nearest() {
    assert_eq!(WindowMean { total: 20, count: 3 }.rounded(), 7);
    assert_eq!(WindowMean { total: 22, count: 3 }.rounded(), 7);
    assert_eq!(WindowMean { total: 23, count: 3 }.rounded(), 8);
    assert_eq!(WindowMean { total: 1, count: 3 }.rounded(), 0);
    assert_eq!(WindowMean { total: -1, count: 3 }.rounded(), 0);
    assert_eq!(WindowMean { total: -2, count: 3 }.rounded(), -1);
    assert_eq!(WindowMean { total: -5, count: 3 }.rounded(), -2);
    assert_eq!(WindowMean { total: 5, count: 2 }.rounded(), 3);
    assert_eq!(WindowMean { total: -5, count: 2 }.rounded(), -3);
    assert_eq!(WindowMean { total: 0, count: 1 }.rounded(), 0);
}
