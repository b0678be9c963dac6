use advent_puzzles::expense_report::{day01, day01_from_combinations, Day01Error};

#[test]
fn pair_summing_to_2020() {
    let report = vec![1721, 979, 366, 299, 675, 1456];
    assert_eq!(day01(&report, 2), Ok(514579));
}

#[test]
fn triple_summing_to_2020() {
    let report = vec![1721, 979, 366, 299, 675, 1456];
    assert_eq!(day01(&report, 3), Ok(241861950));
}

#[test]
fn no_combination_sums_to_2020() {
    assert_eq!(day01(&vec![1, 2, 3], 2), Err(Day01Error::NoUniqueCombination));
}

#[test]
fn several_combinations_sum_to_2020() {
    assert_eq!(
        day01(&vec![1010, 1010, 1010], 2),
        Err(Day01Error::NoUniqueCombination)
    );
}

#[test]
fn explicit_candidates_single_match() {
    let combs = vec![vec![2020], vec![5], vec![1000, 1019]];
    assert_eq!(day01_from_combinations(&combs), Ok(2020));
}

#[test]
fn explicit_candidates_product_overflow() {
    // sums to 2020 but the product falls outside i32
    let combs = vec![vec![2000000000, -1999997980]];
    assert_eq!(
        day01_from_combinations(&combs),
        Err(Day01Error::ProductOverflow)
    );
}

#[test]
fn explicit_candidates_zero_product() {
    let combs = vec![vec![0, 2020]];
    assert_eq!(day01_from_combinations(&combs), Ok(0));
}
