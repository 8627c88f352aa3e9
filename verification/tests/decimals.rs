use seine_engine::decimal::{dec_cmp, dec_fits, dec_normalize, dec_order_sign, dec_parse, dec_rescale, scale_up};
use std::cmp::Ordering;

#[test]
fn parse_plain_and_signed_decimals() {
    assert_eq!(dec_parse("12.345"), Some((12345, 3)));
    assert_eq!(dec_parse("-0.50"), Some((-50, 2)));
    assert_eq!(dec_parse("+7"), Some((7, 0)));
    assert_eq!(dec_parse("007.10"), Some((710, 2)));
    assert_eq!(dec_parse("0"), Some((0, 0)));
}

#[test]
fn parse_rejects_malformed_text() {
    assert_eq!(dec_parse(""), None);
    assert_eq!(dec_parse("-"), None);
    assert_eq!(dec_parse("1."), None);
    assert_eq!(dec_parse(".5"), None);
    assert_eq!(dec_parse("1.2.3"), None);
    assert_eq!(dec_parse("1e5"), None);
    assert_eq!(dec_parse(" 1"), None);
    assert_eq!(dec_parse("--1"), None);
}

#[test]
fn parse_rejects_values_outside_i128() {
    assert_eq!(dec_parse("170141183460469231731687303715884105727"), Some((i128::MAX, 0)));
    assert_eq!(dec_parse("170141183460469231731687303715884105728"), None);
    assert_eq!(dec_parse("-170141183460469231731687303715884105728"), Some((i128::MIN, 0)));
}

#[test]
fn rescale_widens_exactly_and_narrows_half_away_from_zero() {
    assert_eq!(dec_rescale(15, 1, 3), Some((1500, 3)));
    assert_eq!(dec_rescale(125, 2, 1), Some((13, 1)));
    assert_eq!(dec_rescale(-125, 2, 1), Some((-13, 1)));
    assert_eq!(dec_rescale(124, 2, 1), Some((12, 1)));
    assert_eq!(dec_rescale(-124, 2, 1), Some((-12, 1)));
    assert_eq!(dec_rescale(5, 1, 0), Some((1, 0)));
    assert_eq!(dec_rescale(4, 1, 0), Some((0, 0)));
    assert_eq!(dec_rescale(7, 2, 2), Some((7, 2)));
    assert_eq!(dec_rescale(i128::MAX, 0, 1), None);
}

#[test]
fn precision_checks() {
    assert!(dec_fits(99999, 5));
    assert!(!dec_fits(100000, 5));
    assert!(dec_fits(-99999, 5));
    assert!(!dec_fits(-100000, 5));
    assert!(dec_fits(0, 1));
}

#[test]
fn normalize_strips_trailing_zeros() {
    assert_eq!(dec_normalize(110, 2), (11, 1));
    assert_eq!(dec_normalize(1000, 3), (1, 0));
    assert_eq!(dec_normalize(1000, 0), (1000, 0));
    assert_eq!(dec_normalize(0, 5), (0, 0));
    assert_eq!(dec_normalize(-2500, 2), (-25, 0));
    assert_eq!(dec_normalize(123, 2), (123, 2));
}

#[test]
fn three_way_decimal_order() {
    assert_eq!(dec_cmp(110, 2, 11, 1), Ordering::Equal);
    assert_eq!(dec_cmp(1, 0, 99, 2), Ordering::Greater);
    assert_eq!(dec_cmp(-1, 0, 1, 5), Ordering::Less);
    assert_eq!(dec_order_sign(5, 1, 1, 0), -1);
    assert_eq!(dec_order_sign(i128::MAX, 0, i128::MAX, 1), 1);
    assert_eq!(dec_order_sign(i128::MIN, 0, -1, 30), -1);
}

#[test]
fn scaling_up_by_powers_of_ten() {
    assert_eq!(scale_up(12, 3), Some(12000));
    assert_eq!(scale_up(-4, 2), Some(-400));
    assert_eq!(scale_up(1, 38), Some(100000000000000000000000000000000000000));
    assert_eq!(scale_up(2, 38), None);
    assert_eq!(scale_up(0, 200), Some(0));
}

#[test]
fn widening_then_narrowing_is_exact() {
    for (u, s, t) in [(15i128, 1u8, 3u8), (-7, 0, 5), (123456789, 4, 20), (0, 2, 2)] {
        let (w, ws) = dec_rescale(u, s, t).unwrap();
        assert_eq!(dec_rescale(w, ws, s), Some((u, s)));
    }
}
