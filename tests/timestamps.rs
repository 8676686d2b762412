use ssurlss::ident::{generate_id, id_length};
use ssurlss::timestamp::{get_now, parse_timeslice, timestamp_from_str};

#[test]
fn timeslice_reads_digits() {
    assert_eq!(parse_timeslice("2024-05-06 07:08", 0, 4), 2024);
    assert_eq!(parse_timeslice("2024-05-06 07:08", 5, 7), 5);
    assert_eq!(parse_timeslice("2024-05-06 07:08", 14, 16), 8);
}

#[test]
fn timeslice_accepts_plus_sign() {
    assert_eq!(parse_timeslice("+12", 0, 3), 12);
}

#[test]
fn timeslice_non_number_is_zero() {
    assert_eq!(parse_timeslice("20x4-05", 0, 4), 0);
    assert_eq!(parse_timeslice("+", 0, 1), 0);
    assert_eq!(parse_timeslice("abc", 1, 1), 0);
}

#[test]
fn timeslice_out_of_range_is_zero() {
    assert_eq!(parse_timeslice("2024", 0, 7), 0);
    assert_eq!(parse_timeslice("2024", 3, 2), 0);
}

#[test]
fn timeslice_overflow_is_zero() {
    assert_eq!(parse_timeslice("99999999999999999999", 0, 20), 0);
    assert_eq!(parse_timeslice("18446744073709551615", 0, 20), u64::MAX);
}

#[test]
fn timestamp_formula() {
    let t = timestamp_from_str(String::from("2024-05-06 07:08"));
    assert_eq!(t, 54 * 31_557_600 + 5 * 2_629_800 + 6 * 86_400 + 7 * 3_600);
    assert_eq!(t, 1_717_803_000);
}

#[test]
fn timestamp_minute_field_offset() {
    let t = timestamp_from_str(String::from("1970-00-00 00xxx12"));
    assert_eq!(t, 12 * 60);
}

#[test]
fn timestamp_one_year_after_epoch() {
    assert_eq!(timestamp_from_str(String::from("1971-00-00 00:00")), 31_557_600);
}

#[test]
fn timestamp_of_garbage_is_zero() {
    assert_eq!(timestamp_from_str(String::from("tomorrow")), 0);
    assert_eq!(timestamp_from_str(String::new()), 0);
}

#[test]
fn timestamp_year_before_epoch_counts_zero() {
    assert_eq!(timestamp_from_str(String::from("1900-01-00 00:00")), 2_629_800);
}

#[test]
fn clock_is_after_epoch() {
    let now = get_now().unwrap();
    assert!(now > 1_600_000_000);
}

#[test]
fn id_length_tiers() {
    assert_eq!(id_length(0), 1);
    assert_eq!(id_length(50), 1);
    assert_eq!(id_length(51), 2);
    assert_eq!(id_length(52), 2);
    assert_eq!(id_length(2702), 2);
    assert_eq!(id_length(2703), 3);
    assert_eq!(id_length(u64::MAX), 12);
}

#[test]
fn generated_id_is_letters_of_tier_length() {
    let a = generate_id(0);
    assert_eq!(a.chars().count(), 1);
    let b = generate_id(100);
    assert_eq!(b.chars().count(), 2);
    assert!(b.chars().all(|c| c.is_ascii_alphabetic()));
}
