use digit_group::{custom_group, groupify_integer, FormatGroup, GroupDirection, GroupError};

#[test]
fn u64_si() {
    let x: u64 = 1234567891234;
    let s = x.to_string().format_si('.').unwrap();
    assert_eq!(s, "1 234 567 891 234");
}

#[test]
fn i64_si_negative() {
    let x: i64 = -1234567891234;
    let s = x.to_string().format_si('.').unwrap();
    assert_eq!(s, "-1 234 567 891 234");
}

#[test]
fn f64_si_negative() {
    let x: f64 = -123456789.1234567;
    let s = x.to_string().format_si('.').unwrap();
    assert_eq!(s, "-123 456 789.123 456 7");
}

#[test]
fn f64_si() {
    let x: f64 = 123456789.1234567;
    let s = x.to_string().format_si('.').unwrap();
    assert_eq!(s, "123 456 789.123 456 7");
}

#[test]
fn f64_commas() {
    let x: f64 = -123456789.123456;
    let s = x.to_string().format_commas().unwrap();
    assert_eq!(s, "-123,456,789.123456");
}

#[test]
fn f64_custom() {
    let x: f64 = -123456789.123456;
    let s = x.to_string().format_custom(',', ':', 2, 3, false).unwrap();
    assert_eq!(s, "-1:234:567:89,123456");
}

#[test]
fn custom_standalone() {
    let x: f64 = -123456789.123456;
    let formatted = format!("{:.*}", 8, x);
    let s = custom_group(&formatted, '.', ',', 3, 3, false).unwrap();
    assert_eq!(s, "-123,456,789.12345600");
}

#[test]
fn china() {
    let x: f64 = 1234567.89;
    let s = x.to_string().format_custom('.', ',', 4, 3, false).unwrap();
    assert_eq!(s, "123,4567.89");
}

#[test]
fn india() {
    let x: f64 = 1234567.89;
    let s = x.to_string().format_custom('.', ',', 3, 2, false).unwrap();
    assert_eq!(s, "12,34,567.89");
}

#[test]
fn commas_integer_only() {
    assert_eq!(custom_group("123456789", '.', ',', 3, 3, false).unwrap(), "123,456,789");
}

#[test]
fn si_fraction_grouped() {
    assert_eq!(custom_group("123456789.01234", '.', ' ', 3, 3, true).unwrap(), "123 456 789.012 34");
}

#[test]
fn custom_mark_and_sizes() {
    assert_eq!(custom_group("123456789.01", '#', ':', 4, 2, false).unwrap(), "1:23:45:6789#01");
}

#[test]
fn zero_group_size_is_rejected() {
    assert_eq!(custom_group("123456", '.', ',', 3, 0, false), Err(GroupError::InvalidGroupSize));
    assert_eq!(custom_group("123456", '.', ',', 0, 3, false), Err(GroupError::InvalidGroupSize));
}

#[test]
fn two_points_are_rejected() {
    assert_eq!(custom_group("1.2.3", '.', ',', 3, 3, false), Err(GroupError::MalformedNumber));
}

#[test]
fn empty_and_short_inputs() {
    assert_eq!(custom_group("", '.', ',', 3, 3, false).unwrap(), "");
    assert_eq!(custom_group("-", '.', ',', 3, 3, false).unwrap(), "-");
    assert_eq!(custom_group("123", '.', ',', 3, 3, false).unwrap(), "123");
    assert_eq!(custom_group("-1234", '.', ',', 3, 3, false).unwrap(), "-1,234");
    assert_eq!(custom_group(".5", ',', ' ', 3, 3, true).unwrap(), ",5");
}

#[test]
fn grouper_directions() {
    let d: Vec<char> = "-1234567".chars().collect();
    let r: String = groupify_integer(&d, ',', 3, 3, GroupDirection::RightToLeft).into_iter().collect();
    assert_eq!(r, "-1,234,567");
    let f: Vec<char> = "1234567".chars().collect();
    let r: String = groupify_integer(&f, ' ', 3, 2, GroupDirection::LeftToRight).into_iter().collect();
    assert_eq!(r, "123 45 67");
}

#[test]
fn round_trip_restores_number() {
    let s = "-123456789.0123456";
    let g = custom_group(s, ',', ' ', 3, 2, true).unwrap();
    assert_eq!(g, "-12 34 56 789,012 34 56");
    let back: String = g.chars().filter(|c| *c != ' ').map(|c| if c == ',' { '.' } else { c }).collect();
    assert_eq!(back, s);
}

#[test]
fn sign_stays_in_front_once() {
    let g = custom_group("-1234567.5", '.', ',', 2, 2, true).unwrap();
    assert_eq!(g, "-1,23,45,67.5");
    assert_eq!(g.matches('-').count(), 1);
}

#[test]
fn first_group_has_first_size_digits() {
    assert_eq!(custom_group("1234567", '.', ',', 5, 3, false).unwrap(), "12,34567");
    assert_eq!(custom_group("12345", '.', ',', 5, 3, false).unwrap(), "12345");
    assert_eq!(custom_group("0.1234567", '.', ',', 5, 3, true).unwrap(), "0.12345,67");
}

#[test]
fn later_groups_have_group_size_digits() {
    assert_eq!(custom_group("12345678901", '.', ',', 1, 4, false).unwrap(), "12,3456,7890,1");
    assert_eq!(custom_group("0.12345678901", '.', ',', 1, 4, true).unwrap(), "0.1,2345,6789,01");
}

#[test]
fn fitting_number_is_unchanged() {
    assert_eq!(custom_group("-123.456789", '.', ',', 9, 3, false).unwrap(), "-123.456789");
}
