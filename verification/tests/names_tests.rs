use seglog::names::{idx_name, log_name, parse_log_name, parse_u64};

#[test]
fn file_names_carry_the_padded_base() {
    assert_eq!(log_name(0), "00000000000000000000.log");
    assert_eq!(idx_name(0), "00000000000000000000.index");
    assert_eq!(log_name(88), "00000000000000000088.log");
    assert_eq!(idx_name(88), "00000000000000000088.index");
    assert_eq!(log_name(u64::MAX), "18446744073709551615.log");
}

#[test]
fn log_names_parse_back_to_their_base() {
    assert_eq!(parse_log_name("00000000000000000000.log"), Some(0));
    assert_eq!(parse_log_name("00000000000000000088.log"), Some(88));
    assert_eq!(parse_log_name(&log_name(123456789)), Some(123456789));
}

#[test]
fn foreign_names_do_not_parse() {
    assert_eq!(parse_log_name("00000000000000000000.index"), None);
    assert_eq!(parse_log_name("segment-a.log"), None);
    assert_eq!(parse_log_name(".log"), None);
    assert_eq!(parse_log_name("log"), None);
    assert_eq!(parse_log_name(""), None);
}

#[test]
fn short_decimal_stems_parse_too() {
    assert_eq!(parse_log_name("7.log"), Some(7));
}

#[test]
fn decimal_parsing_bounds() {
    assert_eq!(parse_u64("0"), Some(0));
    assert_eq!(parse_u64("18446744073709551615"), Some(u64::MAX));
    assert_eq!(parse_u64("18446744073709551616"), None, "one past u64::MAX");
    assert_eq!(parse_u64(""), None);
    assert_eq!(parse_u64("12a"), None);
}
