use zeilen_angabe::token_kind::{token_kind, TokenKind};

#[test]
fn number_and_range_are_integer_ranges() {
    assert_eq!(token_kind("7"), TokenKind::IntegerRange { start: 7, end: None });
    assert_eq!(token_kind("-7"), TokenKind::IntegerRange { start: -7, end: None });
    assert_eq!(token_kind("3-8"), TokenKind::IntegerRange { start: 3, end: Some(8) });
    assert_eq!(token_kind("8-3"), TokenKind::IntegerRange { start: 8, end: Some(3) });
}

#[test]
fn marker_makes_a_variant_range() {
    assert_eq!(token_kind("v2-5"), TokenKind::VariantRange { start: 2, end: Some(5) });
    assert_eq!(token_kind("V7"), TokenKind::VariantRange { start: 7, end: None });
    assert_eq!(token_kind("v-7"), TokenKind::VariantRange { start: -7, end: None });
}

#[test]
fn generator_is_one_with_or_without_something_before_it() {
    assert_eq!(token_kind("(1,3,5)"), TokenKind::Generator(vec![1, 3, 5]));
    assert_eq!(token_kind("v(4,2)"), TokenKind::Generator(vec![4, 2]));
    assert_eq!(token_kind("x[1]"), TokenKind::Generator(vec![1]));
    assert_eq!(token_kind("(1,3.5)"), TokenKind::Invalid);
}

#[test]
fn fraction_and_range_of_fractions_are_fraction_ranges() {
    assert_eq!(token_kind("1/2"), TokenKind::FractionRange { start: (1, 2), end: None });
    assert_eq!(token_kind("-3/4"), TokenKind::FractionRange { start: (-3, 4), end: None });
    assert_eq!(
        token_kind("1/2-3/4"),
        TokenKind::FractionRange { start: (1, 2), end: Some((3, 4)) }
    );
    assert_eq!(
        token_kind("-1/2-3/4"),
        TokenKind::FractionRange { start: (-1, 2), end: Some((3, 4)) }
    );
    assert_eq!(
        token_kind("1/-2--3/4"),
        TokenKind::FractionRange { start: (1, -2), end: Some((-3, 4)) }
    );
}

#[test]
fn what_is_none_of_these_is_invalid() {
    for token in ["", "abc", "1+2", "1/2-3", "v1/2", "1/2-3/4-5/6", "1/", "/", "1/2/3", "-", "v", " 1"] {
        assert_eq!(token_kind(token), TokenKind::Invalid, "{:?}", token);
    }
}
