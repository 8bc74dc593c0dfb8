use dice_coverage::coverage::find_nums_coverage;
use dice_coverage::deviation::measure_coverage_deviation;
use dice_coverage::probability::{
    calc_2dices_value_probability, calculate_probability_of_2dices_random_values, Prob, PROB_SCALE,
};
use dice_coverage::random::gen_2dices_random_values;
use dice_coverage::search::{find_best_coverage, find_best_coverage_with_budget, prob_eq, prob_lt};

#[test]
fn test_probabilities() {
    let p = calc_2dices_value_probability(2);
    assert_eq!(p.units as f32 / PROB_SCALE as f32, 1f32 / 36f32);

    let nums = gen_2dices_random_values();
    assert_eq!(nums.len(), 11);

    let nums_sum = nums.iter().sum::<u16>();
    let probability = calculate_probability_of_2dices_random_values(&nums);

    assert_eq!(nums_sum, 77);
    assert!((probability.units as f32 / PROB_SCALE as f32 - 1f32).abs() < 0.0001);
}

#[test]
fn test_matching_probabilities() {
    let target_probabilities = [
        Prob { units: 3_600_000 },
        Prob { units: 10_800_000 },
        Prob { units: 21_600_000 },
    ];
    let nums: [u16; 10] = [2, 3, 4, 5, 6, 7, 8, 9, 10, 11];

    let coverage_option = find_nums_coverage(&target_probabilities, &nums);

    assert!(coverage_option.is_some());
    let coverage = coverage_option.unwrap();

    assert_eq!(coverage.len(), target_probabilities.len());

    assert_eq!(coverage[0], [2, 3, 4]);
    assert_eq!(coverage[1], [2, 3, 4, 5, 6]);
    assert_eq!(coverage[2], [2, 3, 4, 5, 6, 7, 8]);

    assert!(
        calculate_probability_of_2dices_random_values(&coverage[0]).units
            >= target_probabilities[0].units
    );
    assert!(
        calculate_probability_of_2dices_random_values(&coverage[1]).units
            >= target_probabilities[1].units
    );
    assert!(
        calculate_probability_of_2dices_random_values(&coverage[2]).units
            >= target_probabilities[2].units
    );

    let deviation = measure_coverage_deviation(&target_probabilities, &coverage);
    assert!(deviation.units <= PROB_SCALE);
}

#[test]
fn probability_table_is_exact() {
    let expected: [(u16, u64); 11] = [
        (2, 1),
        (3, 2),
        (4, 3),
        (5, 4),
        (6, 5),
        (7, 6),
        (8, 5),
        (9, 4),
        (10, 3),
        (11, 2),
        (12, 1),
    ];
    for (value, pairs) in expected {
        assert_eq!(calc_2dices_value_probability(value).units, pairs * 1_000_000);
    }
    assert_eq!(calc_2dices_value_probability(0).units, 0);
    assert_eq!(calc_2dices_value_probability(1).units, 0);
    assert_eq!(calc_2dices_value_probability(13).units, 0);
    assert_eq!(calc_2dices_value_probability(100).units, 0);
}

#[test]
fn all_sums_total_probability_is_one() {
    let all: [u16; 11] = [2, 3, 4, 5, 6, 7, 8, 9, 10, 11, 12];
    let total = calculate_probability_of_2dices_random_values(&all);
    assert_eq!(total.units, PROB_SCALE);
    assert!((total.units as f64 / PROB_SCALE as f64 - 1.0).abs() < 1e-4);
}

#[test]
fn generated_permutation_total_probability_is_one() {
    for _ in 0..20 {
        let nums = gen_2dices_random_values();
        let total = calculate_probability_of_2dices_random_values(&nums);
        assert_eq!(total.units, PROB_SCALE);
        let mut sorted = nums.clone();
        sorted.sort();
        assert_eq!(sorted, [2, 3, 4, 5, 6, 7, 8, 9, 10, 11, 12]);
    }
}

#[test]
fn coverage_entries_reach_targets_and_nest() {
    let targets = [
        Prob { units: 5_000_000 },
        Prob { units: 12_000_000 },
        Prob { units: 30_000_000 },
    ];
    let nums: [u16; 11] = [7, 2, 12, 6, 8, 3, 11, 5, 9, 4, 10];
    let coverage = find_nums_coverage(&targets, &nums).unwrap();
    assert_eq!(coverage.len(), targets.len());
    for (i, entry) in coverage.iter().enumerate() {
        let achieved = calculate_probability_of_2dices_random_values(entry);
        assert!(achieved.units >= targets[i].units);
        if i + 1 < coverage.len() {
            for value in entry {
                assert!(coverage[i + 1].contains(value));
            }
        }
    }
}

#[test]
fn coverage_fails_when_values_run_out() {
    let targets = [Prob { units: 1_000_000 }, Prob { units: 2_000_000 }];
    let nums: [u16; 1] = [2];
    assert!(find_nums_coverage(&targets, &nums).is_none());
}

#[test]
fn coverage_of_empty_targets_is_none() {
    let targets: [Prob; 0] = [];
    let nums: [u16; 11] = [2, 3, 4, 5, 6, 7, 8, 9, 10, 11, 12];
    assert!(find_nums_coverage(&targets, &nums).is_none());
}

#[test]
fn deviation_zero_exactly_on_perfect_match() {
    let targets = [Prob { units: 1_000_000 }, Prob { units: 3_000_000 }];
    let chain = vec![vec![2u16], vec![2u16, 3u16]];
    let deviation = measure_coverage_deviation(&targets, &chain);
    assert_eq!(deviation.units, 0);

    let off_targets = [Prob { units: 1_000_000 }, Prob { units: 2_000_000 }];
    let off = measure_coverage_deviation(&off_targets, &chain);
    assert_eq!(off.units, 1_000_000);
}

#[test]
fn deviation_depends_on_target_order() {
    let chain = vec![vec![2u16], vec![2u16, 3u16]];
    let matched = [Prob { units: 1_000_000 }, Prob { units: 3_000_000 }];
    let swapped = [Prob { units: 3_000_000 }, Prob { units: 1_000_000 }];
    assert_eq!(measure_coverage_deviation(&matched, &chain).units, 0);
    let other = measure_coverage_deviation(&swapped, &chain);
    assert_ne!(other.units, 0);
    assert_eq!(other.units, 2_828_427);
}

#[test]
fn deviation_of_built_chain_matches_squared_errors() {
    let targets = [
        Prob { units: 3_600_000 },
        Prob { units: 10_800_000 },
        Prob { units: 21_600_000 },
    ];
    let nums: [u16; 10] = [2, 3, 4, 5, 6, 7, 8, 9, 10, 11];
    let coverage = find_nums_coverage(&targets, &nums).unwrap();
    // achieved: 6_000_000, 15_000_000, 26_000_000; diffs: 2.4e6, 4.2e6, 4.4e6
    let sum_sq: u64 = 2_400_000u64 * 2_400_000 + 4_200_000u64 * 4_200_000
        + 4_400_000u64 * 4_400_000;
    let deviation = measure_coverage_deviation(&targets, &coverage);
    assert!(deviation.units * deviation.units <= sum_sq);
    assert!((deviation.units + 1) * (deviation.units + 1) > sum_sq);
}

#[test]
fn best_coverage_of_empty_targets_is_full_permutation() {
    let targets: [Prob; 0] = [];
    let result = find_best_coverage(&targets).unwrap();
    assert_eq!(result.len(), 1);
    let mut entry = result[0].clone();
    entry.sort();
    assert_eq!(entry, [2, 3, 4, 5, 6, 7, 8, 9, 10, 11, 12]);
}

#[test]
fn best_coverage_of_too_many_targets_is_none() {
    let targets = [Prob { units: 1_000_000 }; 12];
    assert!(find_best_coverage(&targets).is_none());
}

#[test]
fn best_coverage_of_reachable_targets_succeeds() {
    let targets = [Prob { units: 0 }];
    let result = find_best_coverage(&targets).unwrap();
    assert_eq!(result.len(), 1);
    assert_eq!(result[0].len(), 1);

    let easy = [Prob { units: 3_600_000 }, Prob { units: 21_600_000 }];
    let chains = find_best_coverage(&easy);
    assert!(chains.is_some());
}

#[test]
fn best_coverage_with_no_budget_is_none() {
    let targets = [Prob { units: 0 }];
    assert!(find_best_coverage_with_budget(&targets, 0).is_none());
}

#[test]
fn already_satisfied_target_still_consumes_an_element() {
    // The second target is below the first, so it is already satisfied when
    // its turn comes — yet one more element is consumed before it is matched.
    let targets = [Prob { units: 3_600_000 }, Prob { units: 1_800_000 }];
    let nums: [u16; 11] = [2, 3, 4, 5, 6, 7, 8, 9, 10, 11, 12];
    let coverage = find_nums_coverage(&targets, &nums).unwrap();
    assert_eq!(coverage[0], [2, 3, 4]);
    assert_eq!(coverage[1], [2, 3, 4, 5]);
}

#[test]
fn full_probability_target_needs_every_value() {
    let targets = [Prob { units: PROB_SCALE }];
    let result = find_best_coverage(&targets).unwrap();
    assert_eq!(result.len(), 1);
    let mut entry = result[0].clone();
    entry.sort();
    assert_eq!(entry, [2, 3, 4, 5, 6, 7, 8, 9, 10, 11, 12]);
}

#[test]
fn tolerance_comparison_boundaries() {
    let a = Prob { units: 10_000 };
    assert!(prob_eq(a, Prob { units: 10_000 }));
    assert!(prob_eq(a, Prob { units: 13_599 }));
    assert!(!prob_eq(a, Prob { units: 13_600 }));
    assert!(prob_eq(a, Prob { units: 6_401 }));
    assert!(!prob_eq(a, Prob { units: 6_400 }));

    assert!(!prob_lt(a, Prob { units: 13_599 }));
    assert!(prob_lt(a, Prob { units: 13_600 }));
    assert!(!prob_lt(Prob { units: 13_600 }, a));
}
