use btclib::difficulty::{clamp_adjusted_target, is_adjustment_defined, adjust_target, is_adjustment_text_acceptable};
use btclib::types::Timestamp;
use btclib::u256::U256;

fn dec(u: &U256) -> String {
    String::from_utf8(u.to_decimal()).unwrap()
}

fn ts(secs: i64) -> Timestamp {
    Timestamp { secs, nanos: 0 }
}

#[test]
fn integer_part_of_text_within_bounds() {
    let current = U256::from_u64(1000);
    assert_eq!(clamp_adjusted_target(current, b"980.4"), U256::from_u64(980));
    assert_eq!(clamp_adjusted_target(current, b"1200"), U256::from_u64(1200));
}

#[test]
fn text_below_a_quarter_gives_a_quarter() {
    let current = U256::from_u64(1000);
    assert_eq!(clamp_adjusted_target(current, b"98.0"), U256::from_u64(250));
    assert_eq!(clamp_adjusted_target(current, b".5"), U256::from_u64(250));
}

#[test]
fn text_above_four_times_gives_four_times() {
    let current = U256::from_u64(1000);
    assert_eq!(clamp_adjusted_target(current, b"9800.5"), U256::from_u64(4000));
}

#[test]
fn result_is_capped_at_easiest_target() {
    let current = btclib::min_target();
    let text = U256::from_limbs([u64::MAX; 4]).to_decimal();
    assert_eq!(clamp_adjusted_target(current, &text), btclib::min_target());
}

#[test]
fn unreadable_text_is_not_acceptable() {
    let current = U256::from_u64(1000);
    assert!(is_adjustment_text_acceptable(current, b"980.4"));
    assert!(!is_adjustment_text_acceptable(current, b"-980"));
    assert!(!is_adjustment_text_acceptable(current, b"98E+1"));
    assert!(!is_adjustment_text_acceptable(
        U256::from_limbs([u64::MAX; 4]),
        b"0x10"
    ));
    // four times the current target would leave 256 bits
    let max = U256::from_limbs([u64::MAX; 4]);
    assert!(!is_adjustment_text_acceptable(max, &max.to_decimal()));
    assert!(is_adjustment_text_acceptable(max, b"5"));
    assert!(is_adjustment_text_acceptable(U256::from_limbs([u64::MAX; 4]), b"0"));
}

#[test]
fn bigdecimal_scales_target_by_elapsed_time() {
    let t = btclib::min_target();
    assert!(is_adjustment_defined(&ts(0), &ts(490), t));
    assert_eq!(
        dec(&adjust_target(&ts(0), &ts(490), t)),
        "1731510123482816642991631550728060145510934218938106578959174077266767379"
    );
    let small = U256::from_u64(1000);
    assert_eq!(adjust_target(&ts(0), &ts(600), small), U256::from_u64(1200));
    assert_eq!(adjust_target(&ts(0), &ts(501), small), U256::from_u64(1002));
    assert_eq!(adjust_target(&ts(0), &Timestamp { secs: 500, nanos: 999_999_999 }, small), U256::from_u64(1000));
}

#[test]
fn negative_elapsed_time_is_not_defined() {
    assert!(!is_adjustment_defined(&ts(100), &ts(0), U256::from_u64(1000)));
}
