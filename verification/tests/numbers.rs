use btclib::types::{Timestamp, NANOS_PER_SECOND};
use btclib::u256::U256;

fn dec(u: &U256) -> String {
    String::from_utf8(u.to_decimal()).unwrap()
}

#[test]
fn decimal_of_small_values() {
    assert_eq!(dec(&U256::zero()), "0");
    assert_eq!(dec(&U256::from_u64(7)), "7");
    assert_eq!(dec(&U256::from_u64(12345)), "12345");
    assert_eq!(dec(&U256::from_u64(u64::MAX)), "18446744073709551615");
}

#[test]
fn decimal_of_largest_value() {
    let max = U256::from_limbs([u64::MAX; 4]);
    assert_eq!(
        dec(&max),
        "115792089237316195423570985008687907853269984665640564039457584007913129639935"
    );
}

#[test]
fn min_target_is_two_to_the_240_minus_one() {
    let t = btclib::min_target();
    assert_eq!(t.limbs(), [u64::MAX, u64::MAX, u64::MAX, 0x0000_FFFF_FFFF_FFFF]);
    assert_eq!(
        dec(&t),
        "1766847064778384329583297500742918515827483896875618958121606201292619775"
    );
}

#[test]
fn decimal_text_reads_back() {
    for v in [
        U256::zero(),
        U256::from_u64(42),
        btclib::min_target(),
        U256::from_limbs([u64::MAX; 4]),
        U256::from_limbs([1, 2, 3, 4]),
    ] {
        let text = v.to_decimal();
        let back = U256::from_decimal(&text).unwrap();
        assert_eq!(back, v);
    }
}

#[test]
fn decimal_parsing_edge_cases() {
    assert_eq!(U256::from_decimal(b""), Some(U256::zero()));
    assert_eq!(U256::from_decimal(b"000123"), Some(U256::from_u64(123)));
    assert_eq!(U256::from_decimal(b"12a"), None);
    assert_eq!(U256::from_decimal(b"-1"), None);
    assert_eq!(U256::from_decimal(b"1.5"), None);
    assert_eq!(
        U256::from_decimal(
            b"115792089237316195423570985008687907853269984665640564039457584007913129639936"
        ),
        None
    );
    assert_eq!(
        U256::from_decimal(
            b"115792089237316195423570985008687907853269984665640564039457584007913129639935"
        ),
        Some(U256::from_limbs([u64::MAX; 4]))
    );
}

#[test]
fn comparisons_follow_the_numbers() {
    let a = U256::from_limbs([5, 0, 0, 1]);
    let b = U256::from_limbs([0, 0, 0, 2]);
    assert!(a.lt(&b));
    assert!(!b.lt(&a));
    assert!(a.le(&a));
    assert_eq!(a, U256::from_limbs([5, 0, 0, 1]));
    assert_ne!(a, b);
    assert_eq!(a.min(b), a);
    assert_eq!(b.min(a), a);
}

#[test]
fn quarter_and_quadruple() {
    let v = U256::from_limbs([3, 1, 0, 0]);
    assert_eq!(v.div4(), U256::from_limbs([0x4000_0000_0000_0000, 0, 0, 0]));
    assert_eq!(v.mul4(), U256::from_limbs([12, 4, 0, 0]));
    let t = btclib::min_target();
    assert_eq!(
        dec(&t.div4()),
        "441711766194596082395824375185729628956870974218904739530401550323154943"
    );
    assert_eq!(t.mul4().limbs(), [u64::MAX - 3, u64::MAX, u64::MAX, 0x0003_FFFF_FFFF_FFFF]);
}

#[test]
fn small_division_and_multiplication() {
    let v = U256::from_limbs([7, 0, 0, 1]);
    let (q, r) = v.div_rem_small(10);
    assert_eq!(r, (7 + 6) % 10); // 2^192 = ...6 (mod 10)
    let (p, carry) = q.mul_add_small(10, r);
    assert_eq!(p, v);
    assert_eq!(carry, 0);
    let max = U256::from_limbs([u64::MAX; 4]);
    let (p, carry) = max.mul_add_small(2, 1);
    assert_eq!(p, max);
    assert_eq!(carry, 1);
}

#[test]
fn digest_meets_target_when_not_above_it() {
    let t = U256::from_u64(100);
    assert!(btclib::types::Hash(U256::from_u64(100)).matches_target(t));
    assert!(btclib::types::Hash(U256::from_u64(99)).matches_target(t));
    assert!(!btclib::types::Hash(U256::from_u64(101)).matches_target(t));
    assert_eq!(btclib::types::Hash::zero().as_u256(), U256::zero());
}

#[test]
fn whole_seconds_round_toward_zero() {
    let a = Timestamp { secs: 10, nanos: 500_000_000 };
    let b = Timestamp { secs: 12, nanos: 0 };
    assert_eq!(b.whole_seconds_since(&a), 1);
    assert_eq!(a.whole_seconds_since(&b), -1);
    assert_eq!(a.whole_seconds_since(&a), 0);
    assert_eq!(b.as_nanos(), 12 * NANOS_PER_SECOND);
    assert!(a.is_not_after(&b));
    assert!(!b.is_not_after(&a));
    assert!(a.is_not_after(&a));
}
