use zeilen_angabe::outcome::{mismatch_message, validate_and_process_zeilenangabe, Outcome};
use zeilen_angabe::patterns::Patterns;
use zeilen_angabe::rows::{row_warning, validate_row_numbers};

fn patterns() -> Patterns {
    match Patterns::new() {
        Ok(p) => p,
        Err(e) => panic!("pattern did not compile: {:?}", e),
    }
}

#[test]
fn selection_within_the_table_is_accepted_whole() {
    match validate_and_process_zeilenangabe(&patterns(), "1,3-5,(7,9)", 10) {
        Outcome::Rows(rows) => {
            assert_eq!(rows.expanded, vec![1, 3, 4, 5, 7, 9]);
            assert_eq!(rows.check.valid, vec![1, 3, 4, 5, 7, 9]);
            assert_eq!(rows.check.rejected, Vec::<i64>::new());
            assert_eq!(rows.compressed, "1,3-5,7,9");
        }
        _ => panic!("not read as rows"),
    }
}

#[test]
fn rows_beyond_the_table_are_rejected_with_a_warning_each() {
    match validate_and_process_zeilenangabe(&patterns(), "1,3-5,(7,9)", 5) {
        Outcome::Rows(rows) => {
            assert_eq!(rows.expanded, vec![1, 3, 4, 5, 7, 9]);
            assert_eq!(rows.check.valid, vec![1, 3, 4, 5]);
            assert_eq!(rows.check.rejected, vec![7, 9]);
            assert_eq!(rows.compressed, "1,3-5");
            let warnings: Vec<String> =
                rows.check.rejected.iter().map(|index| row_warning(*index, 5)).collect();
            assert_eq!(
                warnings,
                vec![
                    "⚠️  Zeile 7 existiert nicht (max: 5)".to_string(),
                    "⚠️  Zeile 9 existiert nicht (max: 5)".to_string(),
                ]
            );
        }
        _ => panic!("not read as rows"),
    }
}

#[test]
fn abc_is_a_pattern_mismatch() {
    assert!(matches!(
        validate_and_process_zeilenangabe(&patterns(), "abc", 10),
        Outcome::PatternMismatch(_)
    ));
}

#[test]
fn empty_line_means_all_rows() {
    assert!(matches!(validate_and_process_zeilenangabe(&patterns(), "", 10), Outcome::AllRows));
    assert!(matches!(
        validate_and_process_zeilenangabe(&patterns(), " \t\n", 10),
        Outcome::AllRows
    ));
}

#[test]
fn line_is_trimmed_before_it_is_read() {
    match validate_and_process_zeilenangabe(&patterns(), "  2-3 \n", 10) {
        Outcome::Rows(rows) => assert_eq!(rows.check.valid, vec![2, 3]),
        _ => panic!("not read as rows"),
    }
}

#[test]
fn fractions_select_no_rows() {
    assert!(matches!(
        validate_and_process_zeilenangabe(&patterns(), "1/2,3/4-5/6", 10),
        Outcome::Fractions
    ));
}

#[test]
fn line_of_both_kinds_is_a_pattern_mismatch() {
    assert!(matches!(
        validate_and_process_zeilenangabe(&patterns(), "1,1/2", 10),
        Outcome::PatternMismatch(_)
    ));
}

#[test]
fn generator_with_a_decimal_is_a_pattern_mismatch() {
    assert!(matches!(
        validate_and_process_zeilenangabe(&patterns(), "1,(2,3.5)", 10),
        Outcome::PatternMismatch(_)
    ));
}

#[test]
fn plus_joined_token_is_accepted_and_names_nothing() {
    match validate_and_process_zeilenangabe(&patterns(), "1+2,4", 10) {
        Outcome::Rows(rows) => {
            assert_eq!(rows.expanded, vec![4]);
            assert_eq!(rows.compressed, "4");
        }
        _ => panic!("not read as rows"),
    }
}

#[test]
fn row_is_valid_from_one_to_the_bound() {
    let check = validate_row_numbers(&[0, 1, 5, 6, -3, 5], 5);
    assert_eq!(check.valid, vec![1, 5, 5]);
    assert_eq!(check.rejected, vec![0, 6, -3]);
}

#[test]
fn no_row_is_valid_in_an_empty_table() {
    let check = validate_row_numbers(&[1, 2], 0);
    assert_eq!(check.valid, Vec::<i64>::new());
    assert_eq!(check.rejected, vec![1, 2]);
    let check = validate_row_numbers(&[], 7);
    assert_eq!(check.valid, Vec::<i64>::new());
    assert_eq!(check.rejected, Vec::<i64>::new());
}

#[test]
fn warning_names_the_row_and_the_bound() {
    assert_eq!(row_warning(12, 10), "⚠️  Zeile 12 existiert nicht (max: 10)");
    assert_eq!(row_warning(-1, 0), "⚠️  Zeile -1 existiert nicht (max: 0)");
}

#[test]
fn mismatch_holds_the_message_for_the_trimmed_line() {
    match validate_and_process_zeilenangabe(&patterns(), "  abc,1 \n", 10) {
        Outcome::PatternMismatch(message) => assert_eq!(message, "Ungültige Eingabe: 'abc,1'"),
        _ => panic!("not a mismatch"),
    }
}

#[test]
fn mismatch_message_quotes_the_line() {
    assert_eq!(mismatch_message("abc"), "Ungültige Eingabe: 'abc'");
    assert_eq!(mismatch_message(""), "Ungültige Eingabe: ''");
    assert_eq!(mismatch_message("ä'→"), "Ungültige Eingabe: 'ä'→'");
}
