use vstd::prelude::*;

use crate::types::{div_toward_zero, Timestamp};
use crate::u256::{
    all_digits, decimal_digits, digits_value, lemma_decimal_digits_value, parse_decimal, u256_bound, U256,
};

verus! {

/// The text that `bigdecimal` prints for `target * (seconds / ideal_seconds)`,
/// where `target` is the number written in decimal by `target_digits`.
pub uninterp spec fn scaled_target_text(target_digits: Seq<u8>, seconds: i128, ideal_seconds: u64) -> Seq<u8>;

/// Calls `bigdecimal`: `BigDecimal::parse_bytes(target_digits, 10)`, then
/// `target * (BigDecimal::from(seconds) / BigDecimal::from(ideal_seconds))`,
/// rendered with `BigDecimal`'s `Display` and returned as bytes.
///
/// The text is named. Parsing a nonempty string of ASCII digits always
/// succeeds (`from_str_radix` hands it to `BigInt` with scale 0), and only such
/// strings are admitted: other texts can carry exponents whose scale overflows
/// in the multiplication, and division by zero panics. When `seconds` is not
/// negative and `seconds / ideal_seconds` has at most three decimal places, the
/// quotient is exact (the division stops when the remainder is zero, far
/// within the default precision of 100 digits) with a scale of at most 3, the
/// product keeps that scale, and `Display` (with the default exponent
/// thresholds) prints it as plain digits with at most one decimal point, so the
/// digits before the point are the product rounded down. Other inputs may print
/// with a sign or in exponent notation; their text is left unstated.
#[verifier::external_body]
fn bigdecimal_scaled_target(target_digits: &[u8], seconds: i128, ideal_seconds: u64) -> (r: Option<Vec<u8>>)
    requires
        ideal_seconds != 0,
        target_digits@.len() > 0,
        all_digits(target_digits@),
    ensures
        r is Some,
        r matches Some(text) ==> text@ == scaled_target_text(target_digits@, seconds, ideal_seconds),
        r matches Some(text) ==> (seconds >= 0 && (seconds * 1000) % (ideal_seconds as int) == 0 ==> {
            &&& integer_part(text@).len() > 0
            &&& all_digits(integer_part(text@))
            &&& digits_value(integer_part(text@)) == digits_value(target_digits@) * seconds / (
            ideal_seconds as int)
        }),
{
    let target = bigdecimal::BigDecimal::parse_bytes(target_digits, 10)?;
    let ratio = bigdecimal::BigDecimal::from(seconds) / bigdecimal::BigDecimal::from(ideal_seconds);
    Some((target * ratio).to_string().into_bytes())
}

/// The index of the first `.` in `s`, or its length when there is none.
pub open spec fn first_dot(s: Seq<u8>) -> int
    decreases s.len(),
{
    if s.len() == 0 {
        0
    } else if s[0] == 46 {
        0
    } else {
        1 + first_dot(s.drop_first())
    }
}

/// What comes before the first `.` of a decimal text.
pub open spec fn integer_part(s: Seq<u8>) -> Seq<u8> {
    s.take(first_dot(s))
}

proof fn lemma_first_dot(s: Seq<u8>, i: int)
    requires
        0 <= i <= s.len(),
        forall|j: int| 0 <= j < i ==> s[j] != 46,
        i == s.len() || s[i] == 46,
    ensures
        first_dot(s) == i,
    decreases i,
{
    if i > 0 {
        assert(s[0] != 46);
        let t = s.drop_first();
        assert forall|j: int| 0 <= j < i - 1 implies t[j] != 46 by {
            assert(t[j] == s[j + 1]);
        }
        if i < s.len() {
            assert(t[i - 1] == s[i]);
        }
        lemma_first_dot(t, i - 1);
    }
}

/// The integer part of the scaled text reads as a 256-bit number, and, where
/// that number is not below a quarter of `current`, four times `current`
/// stays below 2^256.
pub open spec fn adjustment_text_acceptable(current: nat, text: Seq<u8>) -> bool {
    match parse_decimal(integer_part(text)) {
        Some(new) => new < current / 4 || current * 4 < u256_bound(),
        None => false,
    }
}

/// The new target: the integer part of the scaled text, kept within a quarter
/// and four times `current`, then capped at the easiest target.
pub open spec fn adjusted_target_value(current: nat, text: Seq<u8>) -> nat {
    clamped_target(current, parse_decimal(integer_part(text)).unwrap() as int)
}

/// A candidate target `new` kept within a quarter and four times `current`,
/// then capped at the easiest target.
pub open spec fn clamped_target(current: nat, new: int) -> nat {
    let clamped: int = if new < current / 4 {
        (current / 4) as int
    } else if new > current * 4 {
        (current * 4) as int
    } else {
        new
    };
    if crate::spec_min_target() < clamped {
        crate::spec_min_target()
    } else {
        clamped as nat
    }
}

/// The seconds that a span of blocks took, rounded toward zero.
pub open spec fn elapsed_seconds(start: Timestamp, end: Timestamp) -> int {
    div_toward_zero(end.total_nanos() - start.total_nanos(), 1_000_000_000)
}

/// Seconds a full adjustment interval should take: 50 blocks of 10 seconds.
pub open spec fn ideal_interval_seconds() -> u64 {
    (crate::DIFFICULTY_UPDATE_INTERVAL * crate::IDEAL_BLOCK_TIME) as u64
}

/// The target scaled by `seconds` over the ideal interval, rounded down.
pub open spec fn scaled_target_value(target: nat, seconds: int) -> int {
    target * seconds / (ideal_interval_seconds() as int)
}

/// Over a non-negative elapsed time, retargeting completes when the scaled
/// target fits in 256 bits and, unless it is below a quarter of the target,
/// four times the target does too.
pub open spec fn scaled_adjustment_defined(target: nat, seconds: int) -> bool {
    let new = scaled_target_value(target, seconds);
    new < u256_bound() && (new < target / 4 || target * 4 < u256_bound())
}

/// Over a non-negative elapsed time, the new target: the scaled target, kept
/// within a quarter and four times the target, capped at the easiest target.
pub open spec fn scaled_adjusted_target(target: nat, seconds: int) -> nat {
    clamped_target(target, scaled_target_value(target, seconds))
}

/// The text `bigdecimal` prints for the target scaled by the time the
/// interval from `start` to `end` took, over the ideal time.
pub open spec fn adjustment_text(start: Timestamp, end: Timestamp, target: nat) -> Seq<u8> {
    scaled_target_text(
        decimal_digits(target),
        elapsed_seconds(start, end) as i128,
        ideal_interval_seconds(),
    )
}

/// Retargeting over the interval from `start` to `end` completes.
pub open spec fn adjustment_defined(start: Timestamp, end: Timestamp, target: nat) -> bool {
    adjustment_text_acceptable(target, adjustment_text(start, end, target))
}

/// The target after retargeting over the interval from `start` to `end`.
pub open spec fn adjusted_target(start: Timestamp, end: Timestamp, target: nat) -> nat {
    adjusted_target_value(target, adjustment_text(start, end, target))
}

proof fn lemma_multiple_of_ideal(seconds: int)
    ensures
        (seconds * 1000) % (ideal_interval_seconds() as int) == 0,
{
    assert(seconds * 1000 == (seconds * 2) * 500);
    vstd::arithmetic::div_mod::lemma_mod_multiples_basic(seconds * 2, 500);
}

/// The bytes of `text` before its first `.`.
fn copy_integer_part(text: &[u8]) -> (r: Vec<u8>)
    ensures
        r@ == integer_part(text@),
{
    let n = text.len();
    let mut out: Vec<u8> = Vec::new();
    let mut i: usize = 0;
    while i < n && text[i] != 46
        invariant
            i <= n,
            n == text@.len(),
            out@ == text@.take(i as int),
            forall|j: int| 0 <= j < i ==> text@[j] != 46,
        decreases n - i,
    {
        out.push(text[i]);
        proof {
            assert(text@.take(i + 1) =~= text@.take(i as int).push(text@[i as int]));
        }
        i = i + 1;
    }
    proof {
        lemma_first_dot(text@, i as int);
    }
    out
}

/// Whether the scaled text is acceptable for `current`: its integer part
/// reads as a 256-bit number and the bounds of the clamp can be formed.
pub fn is_adjustment_text_acceptable(current: U256, scaled_text: &[u8]) -> (r: bool)
    ensures
        r == adjustment_text_acceptable(current@, scaled_text@),
{
    let digits = copy_integer_part(scaled_text);
    match U256::from_decimal(&digits) {
        Some(new) => {
            let quarter = current.div4();
            if new.lt(&quarter) {
                true
            } else {
                let (product, carry) = current.mul_add_small(4, 0);
                proof {
                    product.lemma_value_bound();
                    assert((carry == 0) == (current@ * 4 < u256_bound())) by (nonlinear_arith)
                        requires
                            product@ + carry * u256_bound() == current@ * 4 + 0,
                            product@ < u256_bound(),
                    ;
                }
                carry == 0
            }
        },
        None => false,
    }
}

/// Turns the scaled text into the new target: its integer part, kept within
/// a quarter and four times `current`, then capped at the easiest target.
pub fn clamp_adjusted_target(current: U256, scaled_text: &[u8]) -> (r: U256)
    requires
        adjustment_text_acceptable(current@, scaled_text@),
    ensures
        r@ == adjusted_target_value(current@, scaled_text@),
{
    let digits = copy_integer_part(scaled_text);
    let new = match U256::from_decimal(&digits) {
        Some(v) => v,
        None => {
            return current;
        },
    };
    let quarter = current.div4();
    let clamped = if new.lt(&quarter) {
        quarter
    } else {
        let four_times = current.mul4();
        if four_times.lt(&new) {
            four_times
        } else {
            new
        }
    };
    clamped.min(crate::min_target())
}

/// Whether retargeting over the interval from `start` to `end` completes.
pub fn is_adjustment_defined(start: &Timestamp, end: &Timestamp, target: U256) -> (r: bool)
    ensures
        r == adjustment_defined(*start, *end, target@),
        elapsed_seconds(*start, *end) >= 0 ==> r == scaled_adjustment_defined(
            target@,
            elapsed_seconds(*start, *end),
        ),
{
    let seconds = end.whole_seconds_since(start);
    let digits = target.to_decimal();
    proof {
        lemma_decimal_digits_value(target@);
        lemma_multiple_of_ideal(seconds as int);
    }
    match bigdecimal_scaled_target(
        digits.as_slice(),
        seconds,
        crate::DIFFICULTY_UPDATE_INTERVAL * crate::IDEAL_BLOCK_TIME,
    ) {
        Some(text) => is_adjustment_text_acceptable(target, text.as_slice()),
        None => false,
    }
}

/// The target after retargeting over the interval from `start` to `end`.
pub fn adjust_target(start: &Timestamp, end: &Timestamp, target: U256) -> (r: U256)
    requires
        adjustment_defined(*start, *end, target@),
    ensures
        r@ == adjusted_target(*start, *end, target@),
        elapsed_seconds(*start, *end) >= 0 ==> r@ == scaled_adjusted_target(
            target@,
            elapsed_seconds(*start, *end),
        ),
{
    let seconds = end.whole_seconds_since(start);
    let digits = target.to_decimal();
    proof {
        lemma_decimal_digits_value(target@);
        lemma_multiple_of_ideal(seconds as int);
    }
    match bigdecimal_scaled_target(
        digits.as_slice(),
        seconds,
        crate::DIFFICULTY_UPDATE_INTERVAL * crate::IDEAL_BLOCK_TIME,
    ) {
        Some(text) => clamp_adjusted_target(target, text.as_slice()),
        None => target,
    }
}

} // verus!
