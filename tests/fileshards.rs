use fileshards::dominance::{create_pair_candidates, distinct_sorted, pick_winner, remove_all_matches, solve_stable};
use fileshards::driver::{solve_block, solve_lines, BlockError, RunError, Strategy};
use fileshards::fragment::{is_fragment, length_class, lex_less_str, satisfies_remove_requirements};
use fileshards::slots::{create_combinations, resolve_repeated, solve_classified, Slot, SlotTable};

fn strings(v: &[&str]) -> Vec<String> {
    v.iter().map(|s| s.to_string()).collect()
}

#[test]
fn length_classes() {
    assert_eq!(length_class(0), (0, 0));
    assert_eq!(length_class(4), (0, 1));
    assert_eq!(length_class(6), (2, 1));
    assert_eq!(length_class(13), (1, 1));
    assert_eq!(length_class(9), (1, 0));
}

#[test]
fn fragment_lines() {
    assert!(is_fragment("0110"));
    assert!(is_fragment(""));
    assert!(!is_fragment("102"));
    assert!(!is_fragment("01 0"));
}

#[test]
fn classified_slot_zero_scenario() {
    let fragments = strings(&["1100", "11001100"]);
    assert_eq!(solve_classified(&fragments), Some("110011001100".to_string()));
}

#[test]
fn slot_zero_rules() {
    let mut t = SlotTable::new();
    t.feed("1100".to_string());
    assert_eq!(t.slots[0], Slot { high: Some("1100".to_string()), low: None });
    t.feed("11001100".to_string());
    assert_eq!(t.slots[0], Slot { high: Some("11001100".to_string()), low: Some("1100".to_string()) });
    t.feed("1111000011110000".to_string());
    assert_eq!(t.slots[0].high, Some("1111000011110000".to_string()));
    assert_eq!(t.slots[0].low, Some("1100".to_string()));
    t.feed("".to_string());
    assert_eq!(t.slots[0].low, Some("".to_string()));
    let mut u = SlotTable::new();
    u.feed("0000".to_string());
    u.feed("1111".to_string());
    assert_eq!(u.slots[0], Slot { high: Some("0000".to_string()), low: Some("1111".to_string()) });
}

#[test]
fn high_and_low_roles() {
    let mut t = SlotTable::new();
    t.feed("1".to_string());
    t.feed("101010101".to_string());
    t.feed("1".to_string());
    assert_eq!(t.slots[1].high, Some("101010101".to_string()));
    t.feed("0000000".to_string());
    t.feed("111".to_string());
    assert_eq!(t.slots[3].high, Some("111".to_string()));
    t.feed("00000".to_string());
    t.feed("0000000000000".to_string());
    assert_eq!(t.slots[3].low, Some("00000".to_string()));
    assert_eq!(t.slots[1].low, Some("0000000".to_string()));
    assert_eq!(t.slots[4], Slot { high: None, low: None });
}

#[test]
fn repeated_fragment_changes_nothing() {
    for f in ["1100", "101", "10101", "110011001100", "1"] {
        let mut once = SlotTable::new();
        once.feed(f.to_string());
        let mut twice = SlotTable::new();
        twice.feed(f.to_string());
        twice.feed(f.to_string());
        assert_eq!(once, twice);
    }
}

#[test]
fn slot_combinations() {
    let lone = Slot { high: Some("10".to_string()), low: None };
    assert_eq!(create_combinations(&lone), strings(&["1010"]));
    let full = Slot { high: Some("10".to_string()), low: Some("0".to_string()) };
    assert_eq!(create_combinations(&full), strings(&["100", "010"]));
    let low_only = Slot { high: None, low: Some("0".to_string()) };
    assert!(create_combinations(&low_only).is_empty());
    assert!(create_combinations(&Slot { high: None, low: None }).is_empty());
}

#[test]
fn repeated_resolver_scans_from_the_end() {
    assert_eq!(resolve_repeated(strings(&["a", "b", "a", "b", "c"])), Some("b".to_string()));
    assert_eq!(resolve_repeated(strings(&["a", "b", "c"])), None);
    assert_eq!(resolve_repeated(Vec::new()), None);
}

#[test]
fn single_odd_fragment_is_unsolvable() {
    let fragments = strings(&["101"]);
    assert_eq!(solve_classified(&fragments), None);
    assert_eq!(solve_stable(&fragments), None);
    assert_eq!(solve_block(Strategy::Classified, &fragments, 4), Err(BlockError::Unsolvable { block: 4 }));
    assert_eq!(solve_block(Strategy::Stable, &fragments, 4), Err(BlockError::Unsolvable { block: 4 }));
    assert_eq!(solve_stable(&Vec::new()), None);
    assert_eq!(solve_classified(&Vec::new()), None);
}

#[test]
fn dominance_relation() {
    assert!(satisfies_remove_requirements("1111000011110000", "11110000"));
    assert!(!satisfies_remove_requirements("11110000", "1111000011110000"));
    assert!(satisfies_remove_requirements("1111", "111100001111"));
    assert!(!satisfies_remove_requirements("111100001111", "1111"));
    assert!(!satisfies_remove_requirements("1111", "0000"));
    assert!(!satisfies_remove_requirements("1111", "11110"));
}

#[test]
fn dominated_fragments_are_removed() {
    let mut low = strings(&["1111", "111100001111", "11"]);
    remove_all_matches(&mut low);
    assert_eq!(low, strings(&["1111", "11"]));
    let mut low_later = strings(&["111100001111", "11", "1111"]);
    remove_all_matches(&mut low_later);
    assert_eq!(low_later, strings(&["11", "1111"]));
    let mut high = strings(&["1111000011110000", "11110000", "111111111111111111111111"]);
    remove_all_matches(&mut high);
    assert_eq!(high, strings(&["111111111111111111111111"]));
    let mut chain = strings(&["1", "111111111", "11111111111111111"]);
    remove_all_matches(&mut chain);
    assert_eq!(chain, strings(&["11111111111111111"]));
    let mut later_dominator = strings(&["11110000", "1111000011110000"]);
    remove_all_matches(&mut later_dominator);
    assert_eq!(later_dominator, strings(&["1111000011110000"]));
    let mut unrelated = strings(&["1", "11", "111"]);
    remove_all_matches(&mut unrelated);
    assert_eq!(unrelated, strings(&["1", "11", "111"]));
}

#[test]
fn repeats_are_dropped_and_sorted() {
    let v = strings(&["10", "01", "10", "11", "01"]);
    assert_eq!(distinct_sorted(&v), strings(&["01", "10", "11"]));
    let w = strings(&["0000", "1", "00", "", "000000", "1"]);
    assert_eq!(distinct_sorted(&w), strings(&["", "00", "0000", "000000", "1"]));
}

#[test]
fn lexicographic_order() {
    assert!(lex_less_str("", "0"));
    assert!(lex_less_str("00", "0000"));
    assert!(lex_less_str("0111", "1"));
    assert!(lex_less_str("01010", "011"));
    assert!(!lex_less_str("011", "01010"));
    assert!(!lex_less_str("101", "101"));
    assert!(!lex_less_str("1", ""));
}

#[test]
fn pair_candidates_in_order() {
    let v = strings(&["1100", "0011", "101"]);
    assert_eq!(create_pair_candidates(&v), strings(&["11001100", "00111100", "11000011", "00110011"]));
    let w = strings(&["10101", "011"]);
    assert_eq!(create_pair_candidates(&w), strings(&["01110101", "10101011"]));
}

#[test]
fn most_voted_candidate_wins() {
    assert_eq!(pick_winner(&strings(&["a", "b", "c", "b", "c", "b"])), Some("b".to_string()));
    assert_eq!(pick_winner(&strings(&["a", "b", "b", "a"])), Some("a".to_string()));
    assert_eq!(pick_winner(&strings(&["b", "a"])), Some("a".to_string()));
    assert_eq!(pick_winner(&strings(&["c", "b", "c", "b", "a"])), Some("b".to_string()));
    assert_eq!(pick_winner(&Vec::new()), None);
}

#[test]
fn stable_rebuilds_equal_halves() {
    let half = "10110001";
    let fragments = strings(&[half, half]);
    assert_eq!(solve_stable(&fragments), Some("1011000110110001".to_string()));
    assert_eq!(solve_classified(&fragments), None);
}

#[test]
fn stable_votes_over_pairs() {
    let fragments = strings(&["1", "0000", "1111111", "00", "000000"]);
    assert_eq!(solve_stable(&fragments), Some("00000000".to_string()));
    let unique = strings(&["111", "01010", "111", "10101", "011"]);
    assert_eq!(solve_stable(&unique), Some("01010011".to_string()));
}

#[test]
fn stable_ignores_arrival_order_and_repeats() {
    let a = strings(&["1111", "0000"]);
    let b = strings(&["0000", "1111", "0000"]);
    assert_eq!(solve_stable(&a), Some("00000000".to_string()));
    assert_eq!(solve_stable(&b), Some("00000000".to_string()));
    let c = strings(&["11110000", "1111000011110000"]);
    let d = strings(&["1111000011110000", "11110000"]);
    assert_eq!(solve_stable(&c), solve_stable(&d));
    assert_eq!(solve_stable(&c), Some("11110000111100001111000011110000".to_string()));
}

#[test]
fn invalid_fragment_only_fails_its_block() {
    let lines = strings(&["2", "", "1", "102", "", "1100", "11001100"]);
    let out = solve_lines(Strategy::Stable, &lines).unwrap();
    assert_eq!(out.len(), 2);
    assert_eq!(out[0], Err(BlockError::InvalidFragment { block: 1, line: 2 }));
    assert_eq!(out[1], Ok("11001100".to_string()));
    let out = solve_lines(Strategy::Classified, &lines).unwrap();
    assert_eq!(out[1], Ok("110011001100".to_string()));
}

#[test]
fn malformed_count_aborts() {
    assert_eq!(solve_lines(Strategy::Stable, &strings(&["abc", "", "1100"])), Err(RunError::MalformedCount));
    assert_eq!(solve_lines(Strategy::Stable, &Vec::new()), Err(RunError::MalformedCount));
    assert_eq!(solve_lines(Strategy::Stable, &strings(&["-1"])), Err(RunError::MalformedCount));
    assert_eq!(
        solve_lines(Strategy::Stable, &strings(&["99999999999999999999999"])),
        Err(RunError::MalformedCount)
    );
}

#[test]
fn missing_separator_aborts() {
    assert_eq!(solve_lines(Strategy::Stable, &strings(&["1", "0101"])), Err(RunError::MissingSeparator));
}

#[test]
fn missing_blocks_are_unsolvable() {
    let out = solve_lines(Strategy::Stable, &strings(&["+3", "", "1100"])).unwrap();
    assert_eq!(
        out,
        vec![
            Ok("11001100".to_string()),
            Err(BlockError::Unsolvable { block: 2 }),
            Err(BlockError::Unsolvable { block: 3 }),
        ]
    );
    assert_eq!(solve_lines(Strategy::Classified, &strings(&["0"])).unwrap(), vec![]);
}
