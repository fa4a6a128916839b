use zeilen_angabe::generator::{str_as_generator_to_list_of_num_strs, str_as_generator_to_vec_i64};
use zeilen_angabe::numbers::decimal_string;

#[test]
fn generator_gives_its_integers_as_written() {
    assert_eq!(str_as_generator_to_vec_i64("(1,3,5)"), Some(vec![1, 3, 5]));
    assert_eq!(str_as_generator_to_vec_i64("[5,3,5]"), Some(vec![5, 3, 5]));
    assert_eq!(str_as_generator_to_vec_i64("{7}"), Some(vec![7]));
}

#[test]
fn generator_with_a_decimal_is_none() {
    assert_eq!(str_as_generator_to_vec_i64("(1,3.5)"), None);
    assert_eq!(str_as_generator_to_vec_i64("(1.0)"), None);
}

#[test]
fn generator_sets_whitespace_aside() {
    assert_eq!(str_as_generator_to_vec_i64("  ( 1 ,\t2 , 3 )  "), Some(vec![1, 2, 3]));
    assert_eq!(str_as_generator_to_vec_i64("(1, 2 3)"), None);
}

#[test]
fn generator_takes_signs_and_leading_zeros() {
    assert_eq!(str_as_generator_to_vec_i64("(+5,-3,007,-0)"), Some(vec![5, -3, 7, 0]));
    assert_eq!(str_as_generator_to_vec_i64("(--3)"), None);
    assert_eq!(str_as_generator_to_vec_i64("(+)"), None);
    assert_eq!(str_as_generator_to_vec_i64("(-)"), None);
}

#[test]
fn generator_needs_its_own_closing_bracket() {
    assert_eq!(str_as_generator_to_vec_i64("(1,2]"), None);
    assert_eq!(str_as_generator_to_vec_i64("[1,2}"), None);
    assert_eq!(str_as_generator_to_vec_i64("(1,2"), None);
    assert_eq!(str_as_generator_to_vec_i64("1,2)"), None);
    assert_eq!(str_as_generator_to_vec_i64("("), None);
    assert_eq!(str_as_generator_to_vec_i64("<1,2>"), None);
}

#[test]
fn generator_with_an_empty_piece_is_none() {
    assert_eq!(str_as_generator_to_vec_i64("()"), None);
    assert_eq!(str_as_generator_to_vec_i64("(1,)"), None);
    assert_eq!(str_as_generator_to_vec_i64("(,1)"), None);
    assert_eq!(str_as_generator_to_vec_i64("(1,,2)"), None);
    assert_eq!(str_as_generator_to_vec_i64(""), None);
    assert_eq!(str_as_generator_to_vec_i64("   "), None);
}

#[test]
fn generator_does_not_nest() {
    assert_eq!(str_as_generator_to_vec_i64("(1,(2,3))"), None);
}

#[test]
fn generator_holds_what_an_i64_holds() {
    assert_eq!(
        str_as_generator_to_vec_i64("(9223372036854775807,-9223372036854775808)"),
        Some(vec![i64::MAX, i64::MIN])
    );
    assert_eq!(str_as_generator_to_vec_i64("(9223372036854775808)"), None);
    assert_eq!(str_as_generator_to_vec_i64("(-9223372036854775809)"), None);
    assert_eq!(str_as_generator_to_vec_i64("(00000000000000000000000000012)"), Some(vec![12]));
    assert_eq!(str_as_generator_to_vec_i64("(99999999999999999999999999999)"), None);
}

#[test]
fn generator_takes_ascii_digits_only() {
    assert_eq!(str_as_generator_to_vec_i64("(١,٢)"), None);
}

#[test]
fn generator_as_strings_is_written_in_base_ten() {
    assert_eq!(
        str_as_generator_to_list_of_num_strs("(+5, -3 ,007)"),
        Some(vec!["5".to_string(), "-3".to_string(), "7".to_string()])
    );
    assert_eq!(str_as_generator_to_list_of_num_strs("(1,3.5)"), None);
    assert_eq!(str_as_generator_to_list_of_num_strs(""), None);
}

#[test]
fn decimal_string_writes_every_i64() {
    assert_eq!(decimal_string(0), "0");
    assert_eq!(decimal_string(7), "7");
    assert_eq!(decimal_string(10), "10");
    assert_eq!(decimal_string(-1), "-1");
    assert_eq!(decimal_string(1234567890), "1234567890");
    assert_eq!(decimal_string(i64::MAX), "9223372036854775807");
    assert_eq!(decimal_string(i64::MIN), "-9223372036854775808");
}

#[test]
fn integer_literals_are_read_as_the_standard_library_reads_them() {
    let samples = [
        "0", "-0", "+0", "1", "-1", "+1", "00", "-007", "+0012", "12345678901234567890",
        "9223372036854775807", "9223372036854775808", "-9223372036854775808",
        "-9223372036854775809", "+9223372036854775807", "92233720368547758070", "", "+", "-",
        "+-1", "-+1", "--1", "1-", "1+", "1 2", "1_000", "0x10", "1e3", "1.0", ".5", "٣", "１",
        "a", "1a", "a1", "−1",
    ];
    for sample in samples {
        let expected: Option<Vec<i64>> = sample.parse::<i64>().ok().map(|n| vec![n]);
        assert_eq!(str_as_generator_to_vec_i64(&format!("({})", sample)), expected, "{:?}", sample);
    }
}

#[test]
fn decimal_string_is_what_the_standard_library_writes() {
    let mut n: i64 = 1;
    for _ in 0..63 {
        for k in [n - 1, n, n + 1, -n, -n - 1, 1 - n] {
            assert_eq!(decimal_string(k), k.to_string());
        }
        n *= 2;
    }
    let mut p: i64 = 1;
    for _ in 0..18 {
        for k in [p - 1, p, p + 1, -p] {
            assert_eq!(decimal_string(k), k.to_string());
        }
        p *= 10;
    }
}
