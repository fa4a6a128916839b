use zeilen_angabe::compress::{compress, format_zeilen_fuer_kommando};
use zeilen_angabe::selection::{sort_dedup, sort_numbers};
use zeilen_angabe::zeilen_parser::{parse_zeilen_angabe_to_numbers, resolve_all, ZeilenParser};

fn resolve(token: &str) -> Vec<i64> {
    resolve_all(&vec![token])
}

#[test]
fn range_names_its_numbers() {
    assert_eq!(resolve("3-8"), vec![3, 4, 5, 6, 7, 8]);
    assert_eq!(resolve("4-4"), vec![4]);
}

#[test]
fn variant_marker_is_set_aside() {
    assert_eq!(resolve("v2-5"), vec![2, 3, 4, 5]);
    assert_eq!(resolve("V7"), vec![7]);
    assert_eq!(resolve("v(4,2)"), vec![4, 2]);
    assert_eq!(resolve("vv1"), Vec::<i64>::new());
}

#[test]
fn generator_token_names_its_integers_in_order() {
    assert_eq!(resolve("(1,3,5)"), vec![1, 3, 5]);
    assert_eq!(resolve("[5,1,5]"), vec![5, 1, 5]);
}

#[test]
fn decorative_character_may_stand_before_a_generator() {
    assert_eq!(resolve("x(1,2)"), vec![1, 2]);
    assert_eq!(resolve("#[3]"), vec![3]);
    assert_eq!(resolve("1(1,2)"), Vec::<i64>::new());
    assert_eq!(resolve("-(1,2)"), Vec::<i64>::new());
}

#[test]
fn reversed_range_names_nothing() {
    assert_eq!(resolve("8-3"), Vec::<i64>::new());
}

#[test]
fn single_number_names_itself() {
    assert_eq!(resolve("12"), vec![12]);
    assert_eq!(resolve("-3"), vec![-3]);
    assert_eq!(resolve("+4"), vec![4]);
    assert_eq!(resolve("007"), vec![7]);
}

#[test]
fn range_needs_exactly_one_dash() {
    assert_eq!(resolve("-3-5"), Vec::<i64>::new());
    assert_eq!(resolve("3--5"), Vec::<i64>::new());
    assert_eq!(resolve("0--0"), Vec::<i64>::new());
    assert_eq!(resolve("1-2-3"), Vec::<i64>::new());
    assert_eq!(resolve("3-+5"), vec![3, 4, 5]);
}

#[test]
fn plus_joined_terms_are_not_expanded() {
    assert_eq!(resolve("1+2"), Vec::<i64>::new());
    assert_eq!(resolve("1-3+5"), Vec::<i64>::new());
}

#[test]
fn what_is_no_number_names_nothing() {
    assert_eq!(resolve(""), Vec::<i64>::new());
    assert_eq!(resolve("abc"), Vec::<i64>::new());
    assert_eq!(resolve(" 3"), Vec::<i64>::new());
    assert_eq!(resolve("1/2"), Vec::<i64>::new());
    assert_eq!(resolve("(1,3.5)"), Vec::<i64>::new());
}

#[test]
fn range_reaches_the_greatest_i64() {
    assert_eq!(
        resolve("9223372036854775805-9223372036854775807"),
        vec![i64::MAX - 2, i64::MAX - 1, i64::MAX]
    );
    assert_eq!(resolve("1-9223372036854775808"), Vec::<i64>::new());
}

#[test]
fn tokens_are_resolved_one_after_the_other() {
    assert_eq!(resolve_all(&vec!["3-4", "", "1", "(4,9)"]), vec![3, 4, 1, 4, 9]);
    assert_eq!(resolve_all(&Vec::new()), Vec::<i64>::new());
}

#[test]
fn selection_is_sorted_and_without_repetition() {
    assert_eq!(parse_zeilen_angabe_to_numbers("3,1,3,2"), Some(vec![1, 2, 3]));
    assert_eq!(parse_zeilen_angabe_to_numbers("5-7,6-8,(1,7)"), Some(vec![1, 5, 6, 7, 8]));
    assert_eq!(parse_zeilen_angabe_to_numbers("1,3-5,(7,9)"), Some(vec![1, 3, 4, 5, 7, 9]));
}

#[test]
fn selection_of_nothing_is_empty() {
    assert_eq!(parse_zeilen_angabe_to_numbers(""), Some(vec![]));
    assert_eq!(parse_zeilen_angabe_to_numbers(",,"), Some(vec![]));
    assert_eq!(parse_zeilen_angabe_to_numbers(",1,"), Some(vec![1]));
}

#[test]
fn selection_is_read_as_it_stands_without_trimming() {
    assert_eq!(parse_zeilen_angabe_to_numbers(" 1,2 "), Some(vec![]));
    assert_eq!(parse_zeilen_angabe_to_numbers(" (1,2) "), Some(vec![1, 2]));
}

#[test]
fn parser_sets_whitespace_around_the_input_aside() {
    assert_eq!(ZeilenParser::parse_to_numbers("  1,3-5  "), vec![1, 3, 4, 5]);
    assert_eq!(ZeilenParser::parse_to_numbers("   "), Vec::<i64>::new());
    assert_eq!(ZeilenParser::parse_to_numbers(""), Vec::<i64>::new());
    assert_eq!(ZeilenParser::parse_to_numbers("v1,v2-5"), vec![1, 2, 3, 4, 5]);
}

#[test]
fn fractions_are_read_between_commas() {
    assert_eq!(ZeilenParser::parse_bruch_to_numbers("1/2"), vec![(1, 2)]);
    assert_eq!(
        ZeilenParser::parse_bruch_to_numbers(" 1/2, -3/4 ,1/2-3/4, 5, 7/x, 8/+9 "),
        vec![(1, 2), (-3, 4), (8, 9)]
    );
    assert_eq!(ZeilenParser::parse_bruch_to_numbers(""), Vec::<(i64, i64)>::new());
    assert_eq!(ZeilenParser::parse_bruch_to_numbers("(1/2,3/4)"), Vec::<(i64, i64)>::new());
}

#[test]
fn sort_dedup_sorts_and_removes_repetitions() {
    assert_eq!(sort_dedup(vec![3, 1, 3, 2, 1]), vec![1, 2, 3]);
    assert_eq!(sort_dedup(vec![]), Vec::<i64>::new());
    assert_eq!(sort_dedup(vec![i64::MAX, i64::MIN, 0, i64::MIN]), vec![i64::MIN, 0, i64::MAX]);
}

#[test]
fn sort_dedup_twice_is_sort_dedup_once() {
    for list in [vec![], vec![4], vec![3, 1, 3, 2, 1], vec![9, 8, 7, 7, 8, 9, -1]] {
        let once = sort_dedup(list);
        assert_eq!(sort_dedup(once.clone()), once);
    }
}

#[test]
fn sort_numbers_keeps_repetitions() {
    assert_eq!(sort_numbers(vec![3, 1, 3, 2, 1]), vec![1, 1, 2, 3, 3]);
}

#[test]
fn compress_groups_runs() {
    assert_eq!(compress(&[1, 3, 4, 5, 7, 9]), "1,3-5,7,9");
    assert_eq!(compress(&[1, 2]), "1-2");
    assert_eq!(compress(&[1, 2, 3, 4, 5, 6, 7, 8, 9, 10, 11]), "1-11");
    assert_eq!(compress(&[5]), "5");
    assert_eq!(compress(&[]), "");
}

#[test]
fn compress_takes_the_numbers_as_they_stand() {
    assert_eq!(compress(&[3, 2, 1]), "3,2,1");
    assert_eq!(compress(&[1, 1, 2]), "1,1-2");
    assert_eq!(compress(&[-3, -2, 0, 1]), "-3--2,0-1");
}

#[test]
fn compress_reaches_the_bounds_of_i64() {
    assert_eq!(
        compress(&[i64::MIN, i64::MAX - 1, i64::MAX]),
        "-9223372036854775808,9223372036854775806-9223372036854775807"
    );
}

#[test]
fn format_for_command_sorts_first() {
    assert_eq!(format_zeilen_fuer_kommando(&[5, 3, 4, 1]), "1,3-5");
    assert_eq!(format_zeilen_fuer_kommando(&[2, 1, 1]), "1,1-2");
    assert_eq!(format_zeilen_fuer_kommando(&[]), "");
}

#[test]
fn compressed_selection_reads_back_as_itself() {
    let selections: [Vec<i64>; 6] = [
        vec![],
        vec![1],
        vec![1, 3, 4, 5, 7, 9],
        vec![0, 1, 2, 10, 20, 21],
        vec![-5, 2, 3],
        vec![i64::MAX - 1, i64::MAX],
    ];
    for selection in selections {
        let written = compress(&selection);
        assert_eq!(parse_zeilen_angabe_to_numbers(&written), Some(selection));
    }
}

#[test]
fn run_that_begins_below_zero_does_not_read_back() {
    assert_eq!(compress(&[-3, -2]), "-3--2");
    assert_eq!(parse_zeilen_angabe_to_numbers("-3--2"), Some(vec![]));
}
