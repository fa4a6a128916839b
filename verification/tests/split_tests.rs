use zeilen_angabe::split::{
    has_unmatched_closing_bracket_ahead, split_with_bracket_balance, split_with_lookahead,
    split_with_lookahead_optimized,
};

fn chars(text: &str) -> Vec<char> {
    text.chars().collect()
}

#[test]
fn tokenizer_splits_at_top_level_commas() {
    assert_eq!(split_with_bracket_balance("1,2,3"), vec!["1", "2", "3"]);
    assert_eq!(split_with_bracket_balance("(1,2),3"), vec!["(1,2)", "3"]);
    assert_eq!(split_with_bracket_balance("[1,2,(3,4)],5"), vec!["[1,2,(3,4)]", "5"]);
    assert_eq!(split_with_bracket_balance(""), vec![""]);
}

#[test]
fn tokenizer_keeps_empty_tokens() {
    assert_eq!(split_with_bracket_balance(","), vec!["", ""]);
    assert_eq!(split_with_bracket_balance(",1,"), vec!["", "1", ""]);
    assert_eq!(split_with_bracket_balance("1,,2"), vec!["1", "", "2"]);
}

#[test]
fn tokenizer_without_comma_gives_the_whole_text() {
    assert_eq!(split_with_bracket_balance(" 12 "), vec![" 12 "]);
    assert_eq!(split_with_bracket_balance("(1,2,3)"), vec!["(1,2,3)"]);
}

#[test]
fn tokenizer_counts_each_bracket_family_alone() {
    assert_eq!(split_with_bracket_balance("(1,[2,{3,4}],5),6"), vec!["(1,[2,{3,4}],5)", "6"]);
    assert_eq!(split_with_bracket_balance("(1],2"), vec!["(1],2"]);
}

#[test]
fn tokenizer_stops_splitting_after_a_stray_closing_bracket() {
    assert_eq!(split_with_bracket_balance("a),b"), vec!["a),b"]);
    assert_eq!(split_with_bracket_balance("1,a),b,c"), vec!["1", "a),b,c"]);
    assert_eq!(split_with_bracket_balance("a],[b,c],d"), vec!["a],[b", "c],d"]);
}

#[test]
fn tokenizer_does_not_split_inside_an_open_bracket() {
    assert_eq!(split_with_bracket_balance("(1,2"), vec!["(1,2"]);
}

#[test]
fn tokenizer_handles_text_beyond_ascii() {
    assert_eq!(split_with_bracket_balance("ä,(ö,ü),→"), vec!["ä", "(ö,ü)", "→"]);
}

#[test]
fn tokens_joined_by_commas_give_the_text_back() {
    for text in ["1,2,3", "(1,2),3", ",,", "a),b", "", "[1,2,(3,4)],5"] {
        assert_eq!(split_with_bracket_balance(text).join(","), text);
    }
}

#[test]
fn the_three_splitters_agree() {
    let cases = [
        ("1,2,3", vec!["1", "2", "3"]),
        ("(1,2),3", vec!["(1,2)", "3"]),
        ("[1,2],3", vec!["[1,2]", "3"]),
        ("{1,2},3", vec!["{1,2}", "3"]),
        ("(1,2),[3,4],5", vec!["(1,2)", "[3,4]", "5"]),
        ("a,b,c", vec!["a", "b", "c"]),
        ("", vec![""]),
        ("(a,b),c,(d,e)", vec!["(a,b)", "c", "(d,e)"]),
        ("[1,2,(3,4)],5", vec!["[1,2,(3,4)]", "5"]),
        ("1,(2,3),4", vec!["1", "(2,3)", "4"]),
        ("(1,2,3)", vec!["(1,2,3)"]),
    ];
    for (input, expected) in cases {
        assert_eq!(split_with_lookahead(input), expected);
        assert_eq!(split_with_bracket_balance(input), expected);
        assert_eq!(split_with_lookahead_optimized(input), expected);
    }
}

#[test]
fn unmatched_closing_bracket_is_found_before_the_first_separator() {
    assert!(has_unmatched_closing_bracket_ahead(&chars("2),3")));
    assert!(has_unmatched_closing_bracket_ahead(&chars("]")));
    assert!(has_unmatched_closing_bracket_ahead(&chars("(a)}")));
    assert!(has_unmatched_closing_bracket_ahead(&chars("(1,2)),3")));
}

#[test]
fn unmatched_closing_bracket_is_not_looked_for_behind_a_separator() {
    assert!(!has_unmatched_closing_bracket_ahead(&chars("")));
    assert!(!has_unmatched_closing_bracket_ahead(&chars("3")));
    assert!(!has_unmatched_closing_bracket_ahead(&chars("(2),3)")));
    assert!(!has_unmatched_closing_bracket_ahead(&chars("2,3)")));
    assert!(!has_unmatched_closing_bracket_ahead(&chars("(1,2)")));
    assert!(!has_unmatched_closing_bracket_ahead(&chars("(1")));
}
