use zeilen_angabe::autocomplete::SimpleAutocomplete;
use zeilen_angabe::csv_data::{
    contains_word, count_matching_rows, format_csv_row, get_all_row_numbers_for_pair, CsvData,
};
use zeilen_angabe::csv_parser::CsvParser;
use zeilen_angabe::text::{chars_of, string_of};
use zeilen_angabe::word_index::WordIndex;

fn words(list: &[&str]) -> Vec<String> {
    list.iter().map(|w| w.to_string()).collect()
}

const TABLE: &str = "Alpha;one, two;1\n('Beta', 'alpha');two;2\r\n\nbad line\n  ;x;3\n();y;4\nAlpha;three (a, b), one;5;extra";

#[test]
fn first_column_is_one_word_or_words_in_parentheses() {
    assert_eq!(CsvParser::parse_first_column_all("Gamma"), words(&["Gamma"]));
    assert_eq!(CsvParser::parse_first_column_all("  Gamma Delta "), words(&["Gamma Delta"]));
    assert_eq!(CsvParser::parse_first_column_all("('Alpha', 'Beta')"), words(&["Alpha", "Beta"]));
    assert_eq!(CsvParser::parse_first_column_all("(a, b)"), words(&["a", "b"]));
    assert_eq!(CsvParser::parse_first_column_all("('a b', ' c ')"), words(&["a b", "c"]));
}

#[test]
fn first_column_passes_over_a_comma_in_quotes() {
    assert_eq!(CsvParser::parse_first_column_all("('a,b')"), words(&["ab"]));
}

#[test]
fn first_column_edge_cases() {
    assert_eq!(CsvParser::parse_first_column_all(""), words(&[""]));
    assert_eq!(CsvParser::parse_first_column_all("()"), Vec::<String>::new());
    assert_eq!(CsvParser::parse_first_column_all("("), words(&["("]));
    assert_eq!(CsvParser::parse_first_column_all("('')"), Vec::<String>::new());
    assert_eq!(CsvParser::parse_first_column_all("('open)"), words(&["open"]));
    assert_eq!(CsvParser::parse_first_column_all("(a'b'c)"), words(&["ab", "c"]));
}

#[test]
fn second_column_is_cut_at_commas_outside_parentheses() {
    assert_eq!(CsvParser::parse_second_column("x, y (a, b), z"), words(&["x", "y (a, b)", "z"]));
    assert_eq!(CsvParser::parse_second_column("a,,b, ,c"), words(&["a", "b", "c"]));
    assert_eq!(CsvParser::parse_second_column(""), Vec::<String>::new());
    assert_eq!(CsvParser::parse_second_column(" one "), words(&["one"]));
}

#[test]
fn second_column_counts_parentheses_from_zero() {
    assert_eq!(CsvParser::parse_second_column(")a,b"), words(&[")a", "b"]));
    assert_eq!(CsvParser::parse_second_column("(a,b"), words(&["(a,b"]));
    assert_eq!(CsvParser::parse_second_column("((a,b),c),d"), words(&["((a,b),c)", "d"]));
}

#[test]
fn rows_are_read_line_by_line() {
    let rows = CsvParser::parse_rows(TABLE);
    assert_eq!(
        rows,
        vec![
            (words(&["Alpha"]), words(&["one", "two"]), "1".to_string()),
            (words(&["Beta", "alpha"]), words(&["two"]), "2".to_string()),
            (words(&[""]), words(&["x"]), "3".to_string()),
            (words(&["Alpha"]), words(&["three (a, b)", "one"]), "5".to_string()),
        ]
    );
    assert_eq!(CsvParser::parse_rows(""), vec![]);
    assert_eq!(
        CsvParser::parse_rows("a;b"),
        vec![(words(&["a"]), words(&["b"]), String::new())]
    );
}

#[test]
fn table_is_indexed_by_its_first_column() {
    let (index, firsts, rows) = CsvParser::load_all_data(TABLE);
    assert_eq!(rows.len(), 4);
    assert_eq!(firsts, words(&["", "Alpha", "alpha", "Beta"]));
    assert_eq!(index.keys(), &firsts);
    assert_eq!(index.get("Alpha"), Some(&words(&["one", "three (a, b)", "two"])));
    assert_eq!(index.get("alpha"), Some(&words(&["two"])));
    assert_eq!(index.get("ALPHA"), None);
}

#[test]
fn table_answers_for_both_columns() {
    let data = CsvData::new(TABLE);
    assert_eq!(data.raw_data.len(), 4);
    assert_eq!(data.all_first_columns, words(&["", "Alpha", "alpha", "Beta"]));
    assert_eq!(data.all_second_columns, words(&["one", "three (a, b)", "two", "x"]));
    assert_eq!(data.get_seconds_for_first("Beta"), Some(&words(&["two"])));
    assert_eq!(data.get_seconds_for_first("Gamma"), None);
    assert_eq!(data.find_seconds_for_first("Alpha"), words(&["one", "three (a, b)", "two"]));
    assert_eq!(data.find_seconds_for_first("Gamma"), Vec::<String>::new());
    assert_eq!(data.find_firsts_for_second("two"), words(&["Alpha", "alpha", "Beta"]));
    assert_eq!(data.find_firsts_for_second("one"), words(&["Alpha"]));
    assert_eq!(data.find_firsts_for_second("none"), Vec::<String>::new());
}

#[test]
fn numbers_of_a_pair_come_in_the_order_of_the_rows() {
    let data = CsvData::new(TABLE);
    assert_eq!(data.find_numbers_for_pair("Alpha", "one"), words(&["1", "5"]));
    assert_eq!(data.find_numbers_for_pair("Beta", "two"), words(&["2"]));
    assert_eq!(data.find_numbers_for_pair("Beta", "one"), Vec::<String>::new());
    assert_eq!(get_all_row_numbers_for_pair("Alpha", "one", &data), vec![1, 4]);
    assert_eq!(get_all_row_numbers_for_pair("alpha", "two", &data), vec![2]);
    assert_eq!(get_all_row_numbers_for_pair("Alpha", "x", &data), Vec::<i64>::new());
}

#[test]
fn matching_rows_are_counted_among_the_numbers_given() {
    let data = CsvData::new(TABLE);
    assert_eq!(count_matching_rows("Alpha", "one", &[1, 2, 3, 4, 5, 0, -1, 1], &data), 3);
    assert_eq!(count_matching_rows("Alpha", "one", &[], &data), 0);
    assert_eq!(count_matching_rows("Beta", "two", &[i64::MAX, i64::MIN, 2], &data), 1);
}

#[test]
fn row_is_shown_with_arrows() {
    assert_eq!(format_csv_row(&words(&["Beta", "alpha"]), &words(&["two"]), "2"), "(Beta, alpha) → two → 2");
    assert_eq!(format_csv_row(&words(&["a"]), &words(&["x", "y", "z"]), ""), "a → (x, y, z) → ");
    assert_eq!(format_csv_row(&[], &words(&["x"]), "n"), "() → x → n");
}

#[test]
fn word_is_found_as_it_is_written() {
    assert!(contains_word(&words(&["a", "b"]), "b"));
    assert!(!contains_word(&words(&["a", "b"]), "B"));
    assert!(!contains_word(&Vec::new(), ""));
}

#[test]
fn index_keeps_its_words_in_order_and_once() {
    let mut index = WordIndex::new();
    index.add_pair("b", "2");
    index.add_pair("a", "z");
    index.add_pair("b", "1");
    index.add_pair("b", "2");
    index.add_key("C");
    index.add_key("a");
    assert_eq!(index.keys(), &words(&["a", "b", "C"]));
    assert_eq!(index.get("b"), Some(&words(&["1", "2"])));
    assert_eq!(index.get("C"), Some(&Vec::new()));
    assert_eq!(index.get("c"), None);
}

#[test]
fn suggestions_hold_what_was_typed_without_regard_to_case() {
    let auto = SimpleAutocomplete::new(words(&["Apple", "banana", "Cherry", "apricot", "GRAPE"]));
    assert_eq!(auto.get_suggestions(" AP "), words(&["Apple", "apricot", "GRAPE"]));
    assert_eq!(auto.get_suggestions("an"), words(&["banana"]));
    assert_eq!(auto.get_suggestions("x"), Vec::<String>::new());
    assert_eq!(auto.get_suggestions("  "), words(&["Apple", "banana", "Cherry", "apricot", "GRAPE"]));
}

#[test]
fn suggestions_are_twenty_five_at_most() {
    let items: Vec<String> = (0..40).map(|n| format!("item {}", n)).collect();
    let auto = SimpleAutocomplete::new(items.clone());
    assert_eq!(auto.get_suggestions(""), items[..25].to_vec());
    assert_eq!(auto.get_suggestions("ITEM"), items[..25].to_vec());
    let with_three: Vec<String> = items.iter().filter(|i| i.contains('3')).cloned().collect();
    assert_eq!(auto.get_suggestions("3"), with_three);
}

#[test]
fn completion_is_the_highlighted_suggestion() {
    let auto = SimpleAutocomplete::new(words(&["Apple"]));
    assert_eq!(auto.get_completion("ap", Some("Apple".to_string())), Some("Apple".to_string()));
    assert_eq!(auto.get_completion("ap", None), None);
}

#[test]
fn autocomplete_of_the_table_suggests_its_words() {
    let data = CsvData::new(TABLE);
    assert_eq!(data.get_first_level_autocomplete().get_suggestions("alp"), words(&["Alpha", "alpha"]));
    match data.get_second_level_autocomplete("Alpha") {
        Some(auto) => assert_eq!(auto.get_suggestions("T"), words(&["three (a, b)", "two"])),
        None => panic!("no suggestions for a word of the table"),
    }
    assert!(data.get_second_level_autocomplete("Gamma").is_none());
}

#[test]
fn characters_and_strings_convert_both_ways() {
    let chars = chars_of("aä→b");
    assert_eq!(chars, vec!['a', 'ä', '→', 'b']);
    assert_eq!(string_of(&chars, 1, 3), "ä→");
    assert_eq!(string_of(&chars, 2, 2), "");
}

#[test]
fn whitespace_is_what_the_standard_library_takes_for_it() {
    for code in 0..=0x10FFFFu32 {
        if let Some(c) = char::from_u32(code) {
            let column = format!("{}x{}", c, c);
            let trimmed = CsvParser::parse_first_column_all(&column) == words(&["x"]);
            assert_eq!(trimmed, c.is_whitespace(), "U+{:04X}", code);
        }
    }
}

#[test]
fn words_are_ordered_as_the_standard_library_orders_their_lower_case() {
    let list = ["b", "B", "a", "ab", "", "Z", "ä", "Ä", "z", "aB", "→", "a ", "A"];
    let mut index = WordIndex::new();
    for word in list {
        index.add_key(word);
    }
    let keys = index.keys().clone();
    assert_eq!(keys.len(), list.len());
    for pair in keys.windows(2) {
        assert!(pair[0].to_lowercase() <= pair[1].to_lowercase(), "{:?}", pair);
    }
}

#[test]
fn word_lists_of_the_table_hold_each_word_once_and_in_order() {
    let table = "b;z, a\nB;y\na;Z, z\nb;a\nA;x";
    let (index, firsts, _) = CsvParser::load_all_data(table);
    assert_eq!(firsts, words(&["a", "A", "b", "B"]));
    assert_eq!(index.get("b"), Some(&words(&["a", "z"])));
    assert_eq!(index.get("a"), Some(&words(&["Z", "z"])));
    let data = CsvData::new(table);
    assert_eq!(data.all_first_columns, firsts);
    assert_eq!(data.all_second_columns, words(&["a", "x", "y", "z", "Z"]));
}
