use advent_puzzles::password_rules::{
    db_entries_from_input, is_good_entry_part1, is_good_entry_part2, is_valid_entry_line,
    n_good_part1, n_good_part2, unpack_db_entry,
};

#[test]
fn unpack_simple_entry() {
    let e = unpack_db_entry("1-3 a: abcde");
    assert_eq!(e.min, 1);
    assert_eq!(e.max, 3);
    assert_eq!(e.character, 'a');
    assert_eq!(e.password, "abcde".to_string());
}

#[test]
fn unpack_trims_password_and_reads_wide_counts() {
    let e = unpack_db_entry("12-30 z:  zzzz ");
    assert_eq!(e.min, 12);
    assert_eq!(e.max, 30);
    assert_eq!(e.character, 'z');
    assert_eq!(e.password, "zzzz".to_string());
}

#[test]
fn valid_line_checks() {
    assert!(is_valid_entry_line("1-3 a: abcde"));
    assert!(is_valid_entry_line("2-9 c: ccccccccc"));
    assert!(!is_valid_entry_line("no colon here"));
    assert!(!is_valid_entry_line("1-3 a"));
    assert!(!is_valid_entry_line("a-3 b: pw"));
    assert!(!is_valid_entry_line("13 a: pw"));
    assert!(!is_valid_entry_line("1-3: pw"));
    // a count above the widest representable value is refused
    assert!(!is_valid_entry_line("99999999999-3 a: pw"));
}

#[test]
fn part1_policy_examples() {
    assert!(is_good_entry_part1(&unpack_db_entry("1-3 a: abcde")));
    assert!(!is_good_entry_part1(&unpack_db_entry("1-3 b: cdefg")));
    assert!(is_good_entry_part1(&unpack_db_entry("2-9 c: ccccccccc")));
}

#[test]
fn part2_policy_examples() {
    assert!(is_good_entry_part2(&unpack_db_entry("1-3 a: abcde")));
    assert!(!is_good_entry_part2(&unpack_db_entry("1-3 b: cdefg")));
    assert!(!is_good_entry_part2(&unpack_db_entry("2-9 c: ccccccccc")));
}

#[test]
fn counting_good_entries() {
    let lines = vec![
        "1-3 a: abcde".to_string(),
        "1-3 b: cdefg".to_string(),
        "2-9 c: ccccccccc".to_string(),
    ];
    let entries = db_entries_from_input(&lines);
    assert_eq!(entries.len(), 3);
    assert_eq!(n_good_part1(&entries), 2);
    assert_eq!(n_good_part2(&entries), 1);
}

#[test]
fn empty_password_range_check() {
    // min above max leaves no acceptable count
    let e = unpack_db_entry("3-1 a: aa");
    assert!(!is_good_entry_part1(&e));
}
