use art_dice::dice::standard::{d10, d4, d6, d8};
use art_dice::dice::{Die, DieSide, DieSymbol};
use art_dice::rolls::{RollCollectionPolicy, RollCompareResult, RollProbabilities, RollTarget};

fn get_odds(results: &RollProbabilities, targets: &[RollTarget]) -> f64 {
    if results.total() == 0 {
        return 0.0;
    }
    (results.occurrences_meeting(targets) as f64) / (results.total() as f64)
}

fn win_odds(compare: &RollCompareResult) -> f64 {
    if compare.total() == 0 {
        return 0.0;
    }
    (compare.wins() as f64) / (compare.total() as f64)
}

fn tie_odds(compare: &RollCompareResult) -> f64 {
    if compare.total() == 0 {
        return 0.0;
    }
    (compare.ties() as f64) / (compare.total() as f64)
}

fn loss_odds(compare: &RollCompareResult) -> f64 {
    if compare.total() == 0 {
        return 0.0;
    }
    (compare.losses() as f64) / (compare.total() as f64)
}

fn test_results_exactly(
    results: &RollProbabilities,
    symbols: &[DieSymbol],
    count: usize,
    expected: f64,
) {
    let target = RollTarget::exactly_n_of(count, symbols);
    let odds = get_odds(results, &vec![target]);
    assert_eq!(odds, expected);
}

#[test]
fn tests_one_d4() {
    let symbols = d4().unique_symbols();
    let policy = RollCollectionPolicy::collect_all(&symbols);
    let results = RollProbabilities::new(&vec![d4()], &policy).unwrap();
    assert_eq!(results.total(), 4);

    test_results_exactly(&results, &symbols, 1, 0.25);
    test_results_exactly(&results, &symbols, 2, 0.25);
    test_results_exactly(&results, &symbols, 3, 0.25);
    test_results_exactly(&results, &symbols, 4, 0.25);
}

#[test]
fn tests_two_d4s() {
    let symbols = d4().unique_symbols();
    let policy = RollCollectionPolicy::collect_all(&symbols);
    let results = RollProbabilities::new(&vec![d4(), d4()], &policy).unwrap();
    assert_eq!(results.total(), 16);

    test_results_exactly(&results, &symbols, 1, 0.0);
    test_results_exactly(&results, &symbols, 2, 0.0625);
    test_results_exactly(&results, &symbols, 3, 0.125);
    test_results_exactly(&results, &symbols, 4, 0.1875);
    test_results_exactly(&results, &symbols, 5, 0.25);
    test_results_exactly(&results, &symbols, 6, 0.1875);
    test_results_exactly(&results, &symbols, 7, 0.125);
    test_results_exactly(&results, &symbols, 8, 0.0625);
}

#[test]
fn tests_d4_and_d8() {
    let symbols = d4().unique_symbols();
    let policy = RollCollectionPolicy::collect_all(&symbols);
    let results = RollProbabilities::new(&vec![d4(), d8()], &policy).unwrap();
    assert_eq!(results.total(), 32);

    test_results_exactly(&results, &symbols, 1, 0.0);
    test_results_exactly(&results, &symbols, 2, 0.03125);
    test_results_exactly(&results, &symbols, 3, 0.0625);
    test_results_exactly(&results, &symbols, 4, 0.09375);
    test_results_exactly(&results, &symbols, 5, 0.125);
    test_results_exactly(&results, &symbols, 6, 0.125);
    test_results_exactly(&results, &symbols, 7, 0.125);
    test_results_exactly(&results, &symbols, 8, 0.125);
    test_results_exactly(&results, &symbols, 9, 0.125);
    test_results_exactly(&results, &symbols, 10, 0.09375);
    test_results_exactly(&results, &symbols, 11, 0.0625);
    test_results_exactly(&results, &symbols, 12, 0.03125);
}

#[test]
fn tests_three_d4s() {
    let symbols = d4().unique_symbols();
    let policy = RollCollectionPolicy::collect_all(&symbols);
    let results = RollProbabilities::new(&vec![d4(), d4(), d4()], &policy).unwrap();

    assert_eq!(results.total(), 4 * 4 * 4);
    test_results_exactly(&results, &symbols, 7, 0.1875);
}

#[test]
fn tests_four_through_ten() {
    let symbols = d4().unique_symbols();
    let policy = RollCollectionPolicy::collect_all(&symbols);
    let results = RollProbabilities::new(&vec![d4(), d6(), d8(), d10()], &policy).unwrap();

    assert_eq!(results.total(), 4 * 6 * 8 * 10);
}

#[test]
// anydice.com
// output [highest 2 of 3d4]
fn tests_three_d4s_highest_two() {
    let symbols = d4().unique_symbols();
    let policy = RollCollectionPolicy::take_highest_n_of(2, &symbols);
    let results = RollProbabilities::new(&vec![d4(), d4(), d4()], &policy).unwrap();

    assert_eq!(results.total(), 4 * 4 * 4);
    test_results_exactly(&results, &symbols, 2, 0.015625);
    test_results_exactly(&results, &symbols, 3, 0.046875);
    test_results_exactly(&results, &symbols, 4, 0.109375);
    test_results_exactly(&results, &symbols, 5, 0.1875);
    test_results_exactly(&results, &symbols, 6, 0.25);
    test_results_exactly(&results, &symbols, 7, 0.234375);
    test_results_exactly(&results, &symbols, 8, 0.15625);
}

#[test]
// anydice.com
// output [lowest 2 of 3d4]
fn tests_three_d4s_lowest_two() {
    let symbols = d4().unique_symbols();
    let policy = RollCollectionPolicy::take_lowest_n_of(2, &symbols);
    let results = RollProbabilities::new(&vec![d4(), d4(), d4()], &policy).unwrap();

    assert_eq!(results.total(), 4 * 4 * 4);
    test_results_exactly(&results, &symbols, 2, 0.15625);
    test_results_exactly(&results, &symbols, 3, 0.234375);
    test_results_exactly(&results, &symbols, 4, 0.25);
    test_results_exactly(&results, &symbols, 5, 0.1875);
    test_results_exactly(&results, &symbols, 6, 0.109375);
    test_results_exactly(&results, &symbols, 7, 0.046875);
    test_results_exactly(&results, &symbols, 8, 0.015625);
}

#[test]
// anydice.com
// output [lowest 1 of 3d4]
fn tests_three_d4s_remove_highest_two() {
    let symbols = d4().unique_symbols();
    let policy = RollCollectionPolicy::remove_highest_n_of(2, &symbols);
    let results = RollProbabilities::new(&vec![d4(), d4(), d4()], &policy).unwrap();

    assert_eq!(results.total(), 4 * 4 * 4);
    test_results_exactly(&results, &symbols, 1, 0.578125);
    test_results_exactly(&results, &symbols, 2, 0.296875);
    test_results_exactly(&results, &symbols, 3, 0.109375);
    test_results_exactly(&results, &symbols, 4, 0.015625);
}

#[test]
// anydice.com
// output [highest 1 of 3d4]
fn tests_three_d4s_remove_lowest_two() {
    let symbols = d4().unique_symbols();
    let policy = RollCollectionPolicy::remove_lowest_n_of(2, &symbols);
    let results = RollProbabilities::new(&vec![d4(), d4(), d4()], &policy).unwrap();

    assert_eq!(results.total(), 4 * 4 * 4);
    test_results_exactly(&results, &symbols, 1, 0.015625);
    test_results_exactly(&results, &symbols, 2, 0.109375);
    test_results_exactly(&results, &symbols, 3, 0.296875);
    test_results_exactly(&results, &symbols, 4, 0.578125);
}

#[test]
fn one_d4_compare_two_d4() {
    let symbols = d4().unique_symbols();
    let policy = RollCollectionPolicy::collect_all(&symbols);
    let results1 = RollProbabilities::new(&vec![d4()], &policy).unwrap();
    let results2 = RollProbabilities::new(&vec![d4(), d4()], &policy).unwrap();

    let compare = results1.roll_against(&results2);

    assert_eq!(win_odds(&compare), 4.0 / 64.0);
    assert_eq!(tie_odds(&compare), 6.0 / 64.0);
    assert_eq!(loss_odds(&compare), 54.0 / 64.0);
}

#[test]
fn two_d4_compare_two_d4() {
    let symbols = d4().unique_symbols();
    let policy = RollCollectionPolicy::collect_all(&symbols);
    let results1 = RollProbabilities::new(&vec![d4(), d4()], &policy).unwrap();
    let results2 = RollProbabilities::new(&vec![d4(), d4()], &policy).unwrap();

    let compare = results1.roll_against(&results2);

    assert_eq!(win_odds(&compare), 106.0 / 256.0);
    assert_eq!(tie_odds(&compare), 44.0 / 256.0);
    assert_eq!(loss_odds(&compare), 106.0 / 256.0);
}

#[test]
fn one_d8_compare_two_d4() {
    let symbols = d4().unique_symbols();
    let policy = RollCollectionPolicy::collect_all(&symbols);
    let results1 = RollProbabilities::new(&vec![d8()], &policy).unwrap();
    let results2 = RollProbabilities::new(&vec![d4(), d4()], &policy).unwrap();

    let compare = results1.roll_against(&results2);

    assert_eq!(win_odds(&compare), 48.0 / 128.0);
    assert_eq!(tie_odds(&compare), 16.0 / 128.0);
    assert_eq!(loss_odds(&compare), 64.0 / 128.0);
}

#[test]
fn two_custom_d4_multiple_targets() {
    let a_symbol = DieSymbol::new("A").unwrap();
    let b_symbol = DieSymbol::new("B").unwrap();
    let both_symbols = vec![a_symbol.clone(), b_symbol.clone()];
    let sides = vec![
        DieSide::new(vec![a_symbol.clone()]),
        DieSide::new(vec![b_symbol.clone()]),
        DieSide::new(vec![a_symbol.clone(), b_symbol.clone()]),
        DieSide::new(vec![]),
    ];
    let custom_d4 = Die::new(sides).unwrap();
    let policy = RollCollectionPolicy::collect_all(&both_symbols);
    let results =
        RollProbabilities::new(&vec![custom_d4.clone(), custom_d4.clone()], &policy).unwrap();

    let a_symbol_vec = vec![a_symbol.clone()];
    let b_symbol_vec = vec![b_symbol.clone()];

    let target_exactly_one_a = RollTarget::exactly_n_of(1, &a_symbol_vec);
    let target_at_least_one_b = RollTarget::at_least_n_of(1, &b_symbol_vec);

    assert_eq!(results.total(), 4 * 4);
    let results_exactly_one_a = get_odds(&results, &vec![target_exactly_one_a.clone()]);
    assert_eq!(results_exactly_one_a, 8.0 / 16.0);
    let results_at_least_one_b = get_odds(&results, &vec![target_at_least_one_b.clone()]);
    assert_eq!(results_at_least_one_b, 12.0 / 16.0);
    let results_exactly_one_a_and_at_least_one_b =
        get_odds(&results, &vec![target_exactly_one_a, target_at_least_one_b]);
    assert_eq!(results_exactly_one_a_and_at_least_one_b, 6.0 / 16.0);
}

fn symbol(name: &str) -> DieSymbol {
    DieSymbol::new(name).unwrap()
}

fn names(symbols: &[DieSymbol]) -> Vec<String> {
    symbols.iter().map(|s| s.name().clone()).collect()
}

fn side(names: &[&str]) -> DieSide {
    DieSide::new(names.iter().map(|n| symbol(n)).collect())
}

#[test]
fn new_rejects_an_empty_pool() {
    let symbols = vec![symbol("Pip")];
    let policy = RollCollectionPolicy::collect_all(&symbols);
    let none: Vec<Die> = vec![];
    let error = RollProbabilities::new(&none, &policy).err().unwrap();
    assert_eq!(error, "must include at least one die");
    let keep = RollCollectionPolicy::take_highest_n_of(3, &symbols);
    let error = RollProbabilities::new(&none, &keep).err().unwrap();
    assert_eq!(error, "must include at least one die");
}

#[test]
fn new_rejects_a_policy_that_names_too_many_dice() {
    let symbols = vec![symbol("Pip")];
    let dice = vec![d4(), d4()];
    let message = "policy names more dice than the pool has";
    let policy = RollCollectionPolicy::take_highest_n_of(3, &symbols);
    assert_eq!(RollProbabilities::new(&dice, &policy).err().unwrap(), message);
    let policy = RollCollectionPolicy::take_lowest_n_of(3, &symbols);
    assert_eq!(RollProbabilities::new(&dice, &policy).err().unwrap(), message);
    let policy = RollCollectionPolicy::remove_highest_n_of(3, &symbols);
    assert_eq!(RollProbabilities::new(&dice, &policy).err().unwrap(), message);
    let policy = RollCollectionPolicy::remove_lowest_n_of(3, &symbols);
    assert_eq!(RollProbabilities::new(&dice, &policy).err().unwrap(), message);
}

#[test]
fn policy_may_name_every_die_or_none() {
    let symbols = vec![symbol("Pip")];
    let dice = vec![d4(), d4()];
    let all = RollCollectionPolicy::take_highest_n_of(2, &symbols);
    let results = RollProbabilities::new(&dice, &all).unwrap();
    test_results_exactly(&results, &symbols, 5, 0.25);
    let all = RollCollectionPolicy::take_lowest_n_of(2, &symbols);
    let results = RollProbabilities::new(&dice, &all).unwrap();
    test_results_exactly(&results, &symbols, 5, 0.25);
    let none = RollCollectionPolicy::remove_highest_n_of(2, &symbols);
    let results = RollProbabilities::new(&dice, &none).unwrap();
    assert_eq!(results.total(), 16);
    assert_eq!(results.len(), 1);
    test_results_exactly(&results, &symbols, 0, 1.0);
    let none = RollCollectionPolicy::take_highest_n_of(0, &symbols);
    let results = RollProbabilities::new(&dice, &none).unwrap();
    test_results_exactly(&results, &symbols, 0, 1.0);
    let every = RollCollectionPolicy::remove_lowest_n_of(0, &symbols);
    let results = RollProbabilities::new(&dice, &every).unwrap();
    test_results_exactly(&results, &symbols, 8, 0.0625);
}

#[test]
fn policy_reports_the_dice_it_names() {
    let symbols = vec![symbol("Pip")];
    assert_eq!(RollCollectionPolicy::collect_all(&symbols).dice_named(), 0);
    assert_eq!(RollCollectionPolicy::take_highest_n_of(2, &symbols).dice_named(), 2);
    assert_eq!(RollCollectionPolicy::take_lowest_n_of(3, &symbols).dice_named(), 3);
    assert_eq!(RollCollectionPolicy::remove_highest_n_of(4, &symbols).dice_named(), 4);
    assert_eq!(RollCollectionPolicy::remove_lowest_n_of(5, &symbols).dice_named(), 5);
}

#[test]
fn joint_roll_count_is_the_product_of_the_sides() {
    assert_eq!(RollProbabilities::joint_roll_count(&[]), Some(1));
    assert_eq!(RollProbabilities::joint_roll_count(&[d4()]), Some(4));
    assert_eq!(RollProbabilities::joint_roll_count(&[d4(), d6(), d8(), d10()]), Some(1920));
}

#[test]
fn joint_roll_count_sees_what_does_not_fit() {
    let mut dice: Vec<Die> = Vec::new();
    for _ in 0..63 {
        dice.push(d4());
    }
    assert_eq!(RollProbabilities::joint_roll_count(&dice), None);
    let mut dice: Vec<Die> = Vec::new();
    for _ in 0..15 {
        dice.push(d4());
    }
    assert_eq!(RollProbabilities::joint_roll_count(&dice), Some(1 << 30));
}

#[test]
fn collect_all_keeps_only_the_symbols_of_the_policy() {
    let a = side(&["A", "X", "A"]);
    let b = side(&["X"]);
    let c = side(&["B", "A"]);
    let wanted = vec![symbol("A"), symbol("B")];
    let policy = RollCollectionPolicy::collect_all(&wanted);
    let collected = RollProbabilities::collect_symbols(&[&a, &b, &c], &policy).unwrap();
    assert_eq!(names(&collected), vec!["A", "A", "B", "A"]);
}

#[test]
fn sides_are_ranked_by_the_symbols_of_the_policy_they_show() {
    let low = side(&["A", "X", "X", "X"]);
    let high = side(&["B", "B", "B"]);
    let mid = side(&["A", "B"]);
    let wanted = vec![symbol("A"), symbol("B")];
    let roll = [&low, &high, &mid];
    let policy = RollCollectionPolicy::collect_all(&wanted);
    let collected = RollProbabilities::collect_symbols(&roll, &policy).unwrap();
    assert_eq!(names(&collected), vec!["B", "B", "B", "A", "B", "A"]);
    let policy = RollCollectionPolicy::take_highest_n_of(1, &wanted);
    let collected = RollProbabilities::collect_symbols(&roll, &policy).unwrap();
    assert_eq!(names(&collected), vec!["B", "B", "B"]);
    let policy = RollCollectionPolicy::take_highest_n_of(2, &wanted);
    let collected = RollProbabilities::collect_symbols(&roll, &policy).unwrap();
    assert_eq!(names(&collected), vec!["B", "B", "B", "A", "B"]);
    let policy = RollCollectionPolicy::take_lowest_n_of(1, &wanted);
    let collected = RollProbabilities::collect_symbols(&roll, &policy).unwrap();
    assert_eq!(names(&collected), vec!["A"]);
    let policy = RollCollectionPolicy::take_lowest_n_of(2, &wanted);
    let collected = RollProbabilities::collect_symbols(&roll, &policy).unwrap();
    assert_eq!(names(&collected), vec!["A", "B", "A"]);
    let policy = RollCollectionPolicy::remove_highest_n_of(1, &wanted);
    let collected = RollProbabilities::collect_symbols(&roll, &policy).unwrap();
    assert_eq!(names(&collected), vec!["A", "B", "A"]);
    let policy = RollCollectionPolicy::remove_highest_n_of(3, &wanted);
    let collected = RollProbabilities::collect_symbols(&roll, &policy).unwrap();
    assert_eq!(collected.len(), 0);
    let policy = RollCollectionPolicy::remove_lowest_n_of(1, &wanted);
    let collected = RollProbabilities::collect_symbols(&roll, &policy).unwrap();
    assert_eq!(names(&collected), vec!["B", "B", "B", "A", "B"]);
    let policy = RollCollectionPolicy::remove_lowest_n_of(3, &wanted);
    let collected = RollProbabilities::collect_symbols(&roll, &policy).unwrap();
    assert_eq!(collected.len(), 0);
}

#[test]
fn collecting_rejects_a_policy_that_names_too_many_dice() {
    let first = side(&["A"]);
    let second = side(&["B"]);
    let wanted = vec![symbol("A"), symbol("B")];
    let roll = [&first, &second];
    let message = "policy names more dice than the pool has";
    let policy = RollCollectionPolicy::take_highest_n_of(3, &wanted);
    assert_eq!(RollProbabilities::collect_symbols(&roll, &policy).unwrap_err(), message);
    let policy = RollCollectionPolicy::take_lowest_n_of(3, &wanted);
    assert_eq!(RollProbabilities::collect_symbols(&roll, &policy).unwrap_err(), message);
    let policy = RollCollectionPolicy::remove_highest_n_of(3, &wanted);
    assert_eq!(RollProbabilities::collect_symbols(&roll, &policy).unwrap_err(), message);
    let policy = RollCollectionPolicy::remove_lowest_n_of(3, &wanted);
    assert_eq!(RollProbabilities::collect_symbols(&roll, &policy).unwrap_err(), message);
    let policy = RollCollectionPolicy::collect_all(&wanted);
    assert!(RollProbabilities::collect_symbols(&[], &policy).unwrap().is_empty());
    let policy = RollCollectionPolicy::take_lowest_n_of(1, &wanted);
    assert_eq!(RollProbabilities::collect_symbols(&[], &policy).unwrap_err(), message);
}

#[test]
fn sides_that_show_equally_much_keep_the_order_of_the_dice() {
    let first = side(&["A"]);
    let second = side(&["B"]);
    let third = side(&["C"]);
    let wanted = vec![symbol("A"), symbol("B"), symbol("C")];
    let roll = [&first, &second, &third];
    let policy = RollCollectionPolicy::collect_all(&wanted);
    let collected = RollProbabilities::collect_symbols(&roll, &policy).unwrap();
    assert_eq!(names(&collected), vec!["A", "B", "C"]);
    let policy = RollCollectionPolicy::take_highest_n_of(1, &wanted);
    let collected = RollProbabilities::collect_symbols(&roll, &policy).unwrap();
    assert_eq!(names(&collected), vec!["A"]);
    let policy = RollCollectionPolicy::take_lowest_n_of(1, &wanted);
    let collected = RollProbabilities::collect_symbols(&roll, &policy).unwrap();
    assert_eq!(names(&collected), vec!["C"]);
    let policy = RollCollectionPolicy::remove_highest_n_of(1, &wanted);
    let collected = RollProbabilities::collect_symbols(&roll, &policy).unwrap();
    assert_eq!(names(&collected), vec!["B", "C"]);
    let policy = RollCollectionPolicy::remove_lowest_n_of(2, &wanted);
    let collected = RollProbabilities::collect_symbols(&roll, &policy).unwrap();
    assert_eq!(names(&collected), vec!["A"]);
}

#[test]
fn ties_in_rank_are_broken_before_lower_sides() {
    let blank = side(&[]);
    let one_a = side(&["A"]);
    let two = side(&["B", "B"]);
    let one_c = side(&["C"]);
    let wanted = vec![symbol("A"), symbol("B"), symbol("C")];
    let roll = [&blank, &one_a, &two, &one_c];
    let policy = RollCollectionPolicy::take_highest_n_of(2, &wanted);
    let collected = RollProbabilities::collect_symbols(&roll, &policy).unwrap();
    assert_eq!(names(&collected), vec!["B", "B", "A"]);
    let policy = RollCollectionPolicy::take_lowest_n_of(2, &wanted);
    let collected = RollProbabilities::collect_symbols(&roll, &policy).unwrap();
    assert_eq!(names(&collected), vec!["C"]);
}

#[test]
fn symbols_outside_the_policy_never_reach_an_outcome() {
    let a = symbol("A");
    let b = symbol("B");
    let sides = vec![
        DieSide::new(vec![a.clone()]),
        DieSide::new(vec![b.clone(), b.clone()]),
    ];
    let die = Die::new(sides).unwrap();
    let only_a = vec![a.clone()];
    let only_b = vec![b.clone()];
    let policy = RollCollectionPolicy::collect_all(&only_a);
    let results = RollProbabilities::new(&vec![die.clone(), die.clone()], &policy).unwrap();
    assert_eq!(results.total(), 4);
    assert_eq!(results.occurrences_meeting(&[RollTarget::at_least_n_of(1, &only_b)]), 0);
    assert_eq!(results.occurrences_meeting(&[RollTarget::exactly_n_of(0, &only_a)]), 1);
    assert_eq!(results.occurrences_meeting(&[RollTarget::exactly_n_of(1, &only_a)]), 2);
    assert_eq!(results.occurrences_meeting(&[RollTarget::exactly_n_of(2, &only_a)]), 1);
}

#[test]
fn every_joint_roll_is_counted_once() {
    let a = symbol("A");
    let b = symbol("B");
    let c = symbol("C");
    let first = Die::new(vec![side(&["A"]), side(&["B"])]).unwrap();
    let second = Die::new(vec![side(&["A"]), side(&["B"]), side(&["C"])]).unwrap();
    let wanted = vec![a.clone(), b.clone(), c.clone()];
    let policy = RollCollectionPolicy::collect_all(&wanted);
    let results = RollProbabilities::new(&vec![first, second], &policy).unwrap();
    assert_eq!(results.total(), 6);
    assert_eq!(results.len(), 5);
    let one = |s: &DieSymbol, n: usize| {
        let list = vec![s.clone()];
        results.occurrences_meeting(&[RollTarget::exactly_n_of(n, &list)])
    };
    assert_eq!(one(&a, 2), 1);
    assert_eq!(one(&b, 2), 1);
    assert_eq!(one(&c, 1), 2);
    assert_eq!(one(&a, 1), 3);
    assert_eq!(one(&b, 1), 3);
    let a_list = vec![a.clone()];
    let b_list = vec![b.clone()];
    let both = [RollTarget::exactly_n_of(1, &a_list), RollTarget::exactly_n_of(1, &b_list)];
    assert_eq!(results.occurrences_meeting(&both), 2);
    let mut rows = 0;
    for i in 0..results.len() {
        rows += results.occurrences_at(i);
        assert_eq!(results.outcome_at(i).total_count(), 2);
    }
    assert_eq!(rows, 6);
}

#[test]
fn no_targets_are_met_by_every_roll() {
    let symbols = vec![symbol("Pip")];
    let policy = RollCollectionPolicy::collect_all(&symbols);
    let results = RollProbabilities::new(&vec![d4(), d6()], &policy).unwrap();
    assert_eq!(results.occurrences_meeting(&[]), 24);
    assert_eq!(get_odds(&results, &[]), 1.0);
}

#[test]
fn targets_compare_as_they_say() {
    let symbols = vec![symbol("Pip")];
    let policy = RollCollectionPolicy::collect_all(&symbols);
    let results = RollProbabilities::new(&vec![d4(), d4()], &policy).unwrap();
    assert_eq!(results.occurrences_meeting(&[RollTarget::exactly_n_of(3, &symbols)]), 2);
    assert_eq!(results.occurrences_meeting(&[RollTarget::at_least_n_of(6, &symbols)]), 6);
    assert_eq!(results.occurrences_meeting(&[RollTarget::at_most_n_of(5, &symbols)]), 10);
    assert_eq!(get_odds(&results, &[RollTarget::exactly_n_of(3, &symbols)]), 0.125);
    assert_eq!(get_odds(&results, &[RollTarget::at_least_n_of(6, &symbols)]), 0.375);
    assert_eq!(get_odds(&results, &[RollTarget::at_most_n_of(5, &symbols)]), 0.625);
    let between = [RollTarget::at_least_n_of(4, &symbols), RollTarget::at_most_n_of(6, &symbols)];
    assert_eq!(results.occurrences_meeting(&between), 10);
    let never = [RollTarget::at_least_n_of(6, &symbols), RollTarget::at_most_n_of(5, &symbols)];
    assert_eq!(results.occurrences_meeting(&never), 0);
}

#[test]
fn a_symbol_listed_twice_counts_twice() {
    let pip = symbol("Pip");
    let symbols = vec![pip.clone()];
    let twice = vec![pip.clone(), pip.clone()];
    let policy = RollCollectionPolicy::collect_all(&symbols);
    let results = RollProbabilities::new(&vec![d4()], &policy).unwrap();
    assert_eq!(results.occurrences_meeting(&[RollTarget::exactly_n_of(4, &twice)]), 1);
    assert_eq!(results.occurrences_meeting(&[RollTarget::exactly_n_of(3, &twice)]), 0);
    assert_eq!(results.occurrences_meeting(&[RollTarget::at_least_n_of(5, &twice)]), 2);
}

#[test]
fn exact_targets_share_the_table_between_them() {
    let symbols = vec![symbol("Pip")];
    let policy = RollCollectionPolicy::take_highest_n_of(2, &symbols);
    let results = RollProbabilities::new(&vec![d4(), d6(), d4()], &policy).unwrap();
    let mut met = 0;
    let mut odds = 0.0;
    for n in 0..=10 {
        let target = [RollTarget::exactly_n_of(n, &symbols)];
        met += results.occurrences_meeting(&target);
        odds += get_odds(&results, &target);
    }
    assert_eq!(met, results.total());
    assert_eq!(met, 4 * 6 * 4);
    assert_eq!(odds, 1.0);
    for n in 1..=10 {
        let high = results.occurrences_meeting(&[RollTarget::at_least_n_of(n, &symbols)]);
        let low = results.occurrences_meeting(&[RollTarget::at_most_n_of(n - 1, &symbols)]);
        assert_eq!(high + low, results.total());
    }
}

#[test]
fn a_table_against_itself_wins_as_often_as_it_loses() {
    let symbols = vec![symbol("Pip")];
    let policy = RollCollectionPolicy::collect_all(&symbols);
    let results = RollProbabilities::new(&vec![d4(), d6()], &policy).unwrap();
    let compare = results.roll_against(&results);
    assert_eq!(compare.wins(), compare.losses());
    assert_eq!(compare.total(), 24 * 24);
    assert_eq!(compare.wins() + compare.ties() + compare.losses(), compare.total());
    let mut equal = 0;
    for value in 2..=10 {
        let same = results.occurrences_meeting(&[RollTarget::exactly_n_of(value, &symbols)]);
        equal += same * same;
    }
    assert_eq!(compare.ties(), equal);
    assert_eq!(tie_odds(&compare), equal as f64 / 576.0);
    assert_eq!(win_odds(&compare), loss_odds(&compare));
}

#[test]
fn rolling_the_other_way_round_swaps_wins_and_losses() {
    let symbols = vec![symbol("Pip")];
    let policy = RollCollectionPolicy::collect_all(&symbols);
    let one = RollProbabilities::new(&vec![d8()], &policy).unwrap();
    let two = RollProbabilities::new(&vec![d4(), d4()], &policy).unwrap();
    let forth = one.roll_against(&two);
    let back = two.roll_against(&one);
    assert_eq!(forth.wins(), 48);
    assert_eq!(forth.ties(), 16);
    assert_eq!(forth.losses(), 64);
    assert_eq!(forth.total(), 128);
    assert_eq!(back.wins(), 64);
    assert_eq!(back.ties(), 16);
    assert_eq!(back.losses(), 48);
}

#[test]
fn values_count_every_collected_symbol() {
    let wanted = vec![symbol("A"), symbol("B")];
    let policy = RollCollectionPolicy::collect_all(&wanted);
    let mixed = Die::new(vec![side(&["A", "B"]), side(&["B"])]).unwrap();
    let plain = Die::new(vec![side(&["A"]), side(&["A", "A", "A"])]).unwrap();
    let one = RollProbabilities::new(&vec![mixed], &policy).unwrap();
    let two = RollProbabilities::new(&vec![plain], &policy).unwrap();
    let compare = one.roll_against(&two);
    assert_eq!(compare.wins(), 1);
    assert_eq!(compare.ties(), 1);
    assert_eq!(compare.losses(), 2);
}

#[test]
fn compare_result_keeps_its_counts() {
    let compare = RollCompareResult::new(3, 1, 4);
    assert_eq!(compare.wins(), 3);
    assert_eq!(compare.ties(), 1);
    assert_eq!(compare.losses(), 4);
    assert_eq!(compare.total(), 8);
    assert_eq!(win_odds(&compare), 0.375);
    assert_eq!(tie_odds(&compare), 0.125);
    assert_eq!(loss_odds(&compare), 0.5);
    let empty = RollCompareResult::new(0, 0, 0);
    assert_eq!(empty.total(), 0);
    assert_eq!(win_odds(&empty), 0.0);
    assert_eq!(tie_odds(&empty), 0.0);
    assert_eq!(loss_odds(&empty), 0.0);
}

#[test]
fn one_d8_compare_one_d4() {
    let symbols = vec![symbol("Pip")];
    let policy = RollCollectionPolicy::collect_all(&symbols);
    let d8_result = RollProbabilities::new(&vec![d8()], &policy).unwrap();
    let d4_result = RollProbabilities::new(&vec![d4()], &policy).unwrap();
    let compare = d8_result.roll_against(&d4_result);
    assert_eq!(win_odds(&compare), 0.6875);
    assert_eq!(tie_odds(&compare), 0.125);
    assert_eq!(loss_odds(&compare), 0.1875);
}
