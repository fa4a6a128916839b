use zeilen_angabe::classifier::{
    accepts_all, is_zeilen_angabe, is_zeilen_angabe_between_kommas,
    is_zeilen_angabe_between_kommas_optimized, is_zeilen_bruch_angabe,
    is_zeilen_bruch_angabe_between_kommas, is_zeilen_bruch_or_ganz_zahl_angabe,
    token_holds_generator, token_is_integer,
};
use zeilen_angabe::outcome::{classify, Classification};
use zeilen_angabe::patterns::{PatternError, Patterns, ZEILEN_BRUCH_PATTERN, ZEILEN_PATTERN};
use zeilen_angabe::split::split_with_bracket_balance;

fn patterns() -> Patterns {
    match Patterns::new() {
        Ok(p) => p,
        Err(e) => panic!("pattern did not compile: {:?}", e),
    }
}

#[test]
fn test_split_functions() {
    assert_eq!(split_with_bracket_balance("1,2,3"), vec!["1", "2", "3"]);
    assert_eq!(split_with_bracket_balance("(1,2),3"), vec!["(1,2)", "3"]);
    assert_eq!(split_with_bracket_balance("[1,2],3"), vec!["[1,2]", "3"]);
    assert_eq!(split_with_bracket_balance("{1,2},3"), vec!["{1,2}", "3"]);
    assert_eq!(split_with_bracket_balance(""), vec![""]);
}

#[test]
fn test_is_zeilen_bruch_angabe_between_kommas() {
    let p = patterns();
    assert!(is_zeilen_bruch_angabe_between_kommas(&p, "1/2"));
    assert!(is_zeilen_bruch_angabe_between_kommas(&p, "-3/4"));
    assert!(is_zeilen_bruch_angabe_between_kommas(&p, "1/2-3/4"));
    assert!(!is_zeilen_bruch_angabe_between_kommas(&p, "abc"));
}

#[test]
fn test_is_zeilen_angabe() {
    let p = patterns();
    assert!(is_zeilen_angabe(&p, "1,2,3"));
    assert!(is_zeilen_angabe(&p, "1-10,20-30"));
    assert!(is_zeilen_angabe(&p, "(1,2,3),[4,5]"));
    assert!(!is_zeilen_angabe(&p, "abc,def"));
}

#[test]
fn strict_integer_mode_accepts_the_forms_of_rows() {
    let p = patterns();
    assert!(is_zeilen_angabe(&p, "1,2,3"));
    assert!(is_zeilen_angabe(&p, "3-8,12"));
    assert!(is_zeilen_angabe(&p, "v1,v2-5"));
    assert!(is_zeilen_angabe(&p, "(1,3,5)"));
    assert!(!is_zeilen_angabe(&p, "abc"));
    assert!(!is_zeilen_angabe(&p, "1.5,2"));
}

#[test]
fn strict_fraction_mode_accepts_fractions() {
    let p = patterns();
    assert!(is_zeilen_bruch_angabe(&p, "1/2"));
    assert!(is_zeilen_bruch_angabe(&p, "-3/4"));
    assert!(is_zeilen_bruch_angabe(&p, "1/2-3/4"));
    assert!(is_zeilen_bruch_angabe(&p, "1/2,3/4-5/6"));
    assert!(!is_zeilen_bruch_angabe(&p, "abc"));
    assert!(!is_zeilen_bruch_angabe(&p, "1,2"));
}

#[test]
fn empty_tokens_pass_beside_a_token_that_is_not_empty() {
    let p = patterns();
    assert!(is_zeilen_angabe(&p, "1,"));
    assert!(is_zeilen_angabe(&p, ",1"));
    assert!(is_zeilen_angabe(&p, "1,,2"));
    assert!(!is_zeilen_angabe(&p, ""));
    assert!(!is_zeilen_angabe(&p, ","));
    assert!(is_zeilen_bruch_angabe(&p, "1/2,"));
    assert!(!is_zeilen_bruch_angabe(&p, ",,"));
    assert!(!is_zeilen_angabe(&p, "abc,"));
}

#[test]
fn mixed_mode_takes_either_kind_but_no_empty_token() {
    let p = patterns();
    assert!(is_zeilen_bruch_or_ganz_zahl_angabe(&p, "1,1/2"));
    assert!(is_zeilen_bruch_or_ganz_zahl_angabe(&p, "1/2,(3,4)"));
    assert!(is_zeilen_bruch_or_ganz_zahl_angabe(&p, "1,2"));
    assert!(!is_zeilen_bruch_or_ganz_zahl_angabe(&p, "1,,2"));
    assert!(!is_zeilen_bruch_or_ganz_zahl_angabe(&p, ""));
    assert!(!is_zeilen_bruch_or_ganz_zahl_angabe(&p, "1,abc"));
}

#[test]
fn integer_token_matches_the_pattern_or_holds_a_generator() {
    let p = patterns();
    for token in ["1", "-1", "v1", "v-1", "1-5", "v2-5", "1+2", "1-3+4+5", "[2,4,6]", "x(1,2)"] {
        assert!(is_zeilen_angabe_between_kommas(&p, token), "{}", token);
        assert!(is_zeilen_angabe_between_kommas_optimized(&p, token), "{}", token);
    }
    for token in ["", "V1", "1-", "--1", "1--2", "1.5", " 1", "1 ", "1(2,3)", "v(1,2)", "-(1)", "(1,3.5)", "1\n"] {
        assert!(!is_zeilen_angabe_between_kommas(&p, token), "{}", token);
        assert!(!is_zeilen_angabe_between_kommas_optimized(&p, token), "{}", token);
    }
}

#[test]
fn fraction_token_matches_the_pattern() {
    let p = patterns();
    for token in ["1/2", "-3/4", "1/2-3/4", "1/2+3/4", "1/2-3/4+5/6+7/8"] {
        assert!(is_zeilen_bruch_angabe_between_kommas(&p, token), "{}", token);
    }
    for token in ["", "1", "1/", "/2", "1/-2", "1/2-", "v1/2", "1/2 ", "(1/2)", "1/2-3"] {
        assert!(!is_zeilen_bruch_angabe_between_kommas(&p, token), "{}", token);
    }
}

#[test]
fn digits_are_the_ascii_digits() {
    let p = patterns();
    assert!(!is_zeilen_angabe(&p, "١٢"));
    assert!(!is_zeilen_bruch_angabe(&p, "١/٢"));
}

#[test]
fn generator_may_stand_behind_one_leading_character() {
    assert!(token_holds_generator("(1,2)"));
    assert!(token_holds_generator(" [1] "));
    assert!(token_holds_generator("x(1,2)"));
    assert!(token_holds_generator("V(1,2)"));
    assert!(token_holds_generator("ä{3}"));
    assert!(!token_holds_generator("v(1,2)"));
    assert!(!token_holds_generator("1(1,2)"));
    assert!(!token_holds_generator("-(1,2)"));
    assert!(!token_holds_generator("xy(1,2)"));
    assert!(!token_holds_generator(""));
    assert!(!token_holds_generator("x"));
}

#[test]
fn token_is_integer_where_the_pattern_matched_or_a_generator_stands() {
    assert!(token_is_integer(true, "whatever"));
    assert!(token_is_integer(false, "(1,2)"));
    assert!(!token_is_integer(false, "12"));
}

#[test]
fn accepts_all_lets_empty_tokens_pass_beside_others() {
    assert!(accepts_all(&vec![true, false, true], &vec!["1", "", "2"]));
    assert!(!accepts_all(&vec![true, false, true], &vec!["1", "x", "2"]));
    assert!(!accepts_all(&vec![false, false], &vec!["", ""]));
    assert!(accepts_all(&vec![], &vec![]));
    assert!(accepts_all(&vec![true], &vec![""]));
}

#[test]
fn accepts_all_takes_a_token_without_a_verdict_as_not_accepted() {
    assert!(!accepts_all(&vec![true], &vec!["1", "2"]));
    assert!(accepts_all(&vec![true], &vec!["1", ""]));
    assert!(!accepts_all(&vec![], &vec!["", "x"]));
    assert!(accepts_all(&vec![true, true, true], &vec!["1"]));
}

#[test]
fn classification_takes_the_first_mode_that_accepts() {
    let p = patterns();
    assert_eq!(classify(&p, "1,3-5,(7,9)"), Classification::StrictInteger);
    assert_eq!(classify(&p, "1/2,3/4-5/6"), Classification::StrictFraction);
    assert_eq!(classify(&p, "1,1/2"), Classification::Mixed);
    assert_eq!(classify(&p, "abc"), Classification::Invalid);
    assert_eq!(classify(&p, ""), Classification::Invalid);
    assert_eq!(classify(&p, "1,,2"), Classification::StrictInteger);
}

#[test]
fn abc_matches_neither_mode() {
    let p = patterns();
    assert!(!is_zeilen_angabe(&p, "abc"));
    assert!(!is_zeilen_bruch_angabe(&p, "abc"));
    assert_eq!(classify(&p, "abc"), Classification::Invalid);
}

#[test]
fn patterns_are_those_that_compiled() {
    let p = Patterns::from_compiled(
        regex::Regex::new(ZEILEN_BRUCH_PATTERN),
        regex::Regex::new(ZEILEN_PATTERN),
    );
    match p {
        Ok(p) => {
            assert!(p.matches_fraction("1/2"));
            assert!(!p.matches_fraction("12"));
            assert!(p.matches_integer("12"));
            assert!(!p.matches_integer("1/2"));
        }
        Err(e) => panic!("{:?}", e),
    }
}

#[test]
fn pattern_error_names_the_pattern_that_did_not_compile() {
    let broken = || regex::Regex::new("(");
    assert!(matches!(
        Patterns::from_compiled(broken(), regex::Regex::new(ZEILEN_PATTERN)),
        Err(PatternError::Fraction)
    ));
    assert!(matches!(
        Patterns::from_compiled(regex::Regex::new(ZEILEN_BRUCH_PATTERN), broken()),
        Err(PatternError::Integer)
    ));
    assert!(matches!(Patterns::from_compiled(broken(), broken()), Err(PatternError::Fraction)));
}

#[test]
fn patterns_compile() {
    assert!(Patterns::new().is_ok());
    assert!(regex::Regex::new(ZEILEN_BRUCH_PATTERN).is_ok());
    assert!(regex::Regex::new(ZEILEN_PATTERN).is_ok());
}
