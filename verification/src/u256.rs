use vstd::prelude::*;
use vstd::arithmetic::div_mod::lemma_fundamental_div_mod_converse;

verus! {

/// 2^64, the base of one limb.
pub open spec fn limb_base() -> nat {
    0x1_0000_0000_0000_0000
}

/// 2^256, one past the largest value a `U256` holds.
pub open spec fn u256_bound() -> nat {
    limb_base() * limb_base() * limb_base() * limb_base()
}

/// An unsigned 256-bit integer made of four 64-bit limbs, least significant first.
#[derive(Clone, Copy, Debug, PartialEq, Eq, Structural)]
pub struct U256 {
    pub l0: u64,
    pub l1: u64,
    pub l2: u64,
    pub l3: u64,
}

impl View for U256 {
    type V = nat;

    open spec fn view(&self) -> nat {
        self.value()
    }
}

/// A byte is an ASCII decimal digit.
pub open spec fn is_digit(b: u8) -> bool {
    48 <= b <= 57
}

/// Every byte of `s` is an ASCII decimal digit.
pub open spec fn all_digits(s: Seq<u8>) -> bool {
    forall|i: int| 0 <= i < s.len() ==> is_digit(#[trigger] s[i])
}

/// The number that a string of decimal digits denotes (0 for the empty string).
pub open spec fn digits_value(s: Seq<u8>) -> nat
    decreases s.len(),
{
    if s.len() == 0 {
        0
    } else {
        digits_value(s.drop_last()) * 10 + (s.last() - 48) as nat
    }
}

/// Reading decimal text as a 256-bit number: only digits are accepted (the
/// empty text reads as 0) and the value must stay below 2^256.
pub open spec fn parse_decimal(s: Seq<u8>) -> Option<nat> {
    if all_digits(s) && digits_value(s) < u256_bound() {
        Some(digits_value(s))
    } else {
        None
    }
}

/// The decimal digits of `n`, most significant first, without leading zeros.
pub open spec fn decimal_digits(n: nat) -> Seq<u8>
    decreases n,
{
    if n < 10 {
        seq![(n + 48) as u8]
    } else {
        decimal_digits(n / 10).push((n % 10 + 48) as u8)
    }
}

proof fn lemma_lex(a: int, x: int, b: int, y: int)
    requires
        0 <= a < limb_base(),
        0 <= b < limb_base(),
    ensures
        (a + limb_base() * x < b + limb_base() * y) <==> (x < y || (x == y && a < b)),
        (a + limb_base() * x == b + limb_base() * y) <==> (x == y && a == b),
{
    let base = limb_base();
    assert((a + base * x < b + base * y) <==> (x < y || (x == y && a < b))) by (nonlinear_arith)
        requires
            0 <= a < base,
            0 <= b < base,
    ;
    assert((a + base * x == b + base * y) <==> (x == y && a == b)) by (nonlinear_arith)
        requires
            0 <= a < base,
            0 <= b < base,
    ;
}

proof fn lemma_limb_bound(a: int, x: int, bound: int)
    requires
        0 <= a < limb_base(),
        x < bound,
    ensures
        a + limb_base() * x < limb_base() * bound,
{
    let base = limb_base();
    assert(a + base * x < base * bound) by (nonlinear_arith)
        requires
            0 <= a < base,
            x < bound,
    ;
}

proof fn lemma_small_is_low_limb(a: int, x: int)
    requires
        0 <= a < limb_base(),
        0 <= x,
        a + limb_base() * x < limb_base(),
    ensures
        x == 0,
{
    let base = limb_base();
    assert(x == 0) by (nonlinear_arith)
        requires
            0 <= a < base,
            0 <= x,
            a + base * x < base,
    ;
}

proof fn lemma_div_step(l: int, v: int, d: int, big_q: int, big_r: int, q: int, r: int)
    requires
        0 <= l < limb_base(),
        0 < d,
        0 <= big_r < d,
        0 <= r,
        v == d * big_q + big_r,
        big_r * limb_base() + l == d * q + r,
        r < d,
    ensures
        l + limb_base() * v == d * (q + limb_base() * big_q) + r,
        q < limb_base(),
{
    let base = limb_base();
    assert(l + base * v == d * (q + base * big_q) + r) by (nonlinear_arith)
        requires
            v == d * big_q + big_r,
            big_r * base + l == d * q + r,
    ;
    assert(q < base) by (nonlinear_arith)
        requires
            0 <= l < base,
            0 <= big_r < d,
            0 <= r,
            big_r * base + l == d * q + r,
            0 < d,
    ;
}

proof fn lemma_mul_step(l: int, h: int, m: int, c: int, p: int, c2: int)
    requires
        l * m + c == p + limb_base() * c2,
    ensures
        c + (l + limb_base() * h) * m == p + limb_base() * (c2 + h * m),
{
    let base = limb_base();
    assert(c + (l + base * h) * m == p + base * (c2 + h * m)) by (nonlinear_arith)
        requires
            l * m + c == p + base * c2,
    ;
}

impl U256 {
    /// The number the four limbs denote.
    pub open spec fn value(self) -> nat {
        self.l0 as nat + limb_base() * (self.l1 as nat + limb_base() * (self.l2 as nat
            + limb_base() * (self.l3 as nat)))
    }

    /// Every `U256` is below 2^256.
    pub proof fn lemma_value_bound(self)
        ensures
            self@ < u256_bound(),
    {
        let b = limb_base();
        lemma_limb_bound(self.l2 as int, self.l3 as int, b as int);
        lemma_limb_bound(self.l1 as int, self.l2 as int + b * self.l3, (b * b) as int);
        assert(b * (b * b) == b * b * b) by (nonlinear_arith);
        lemma_limb_bound(self.l0 as int, self.l1 as int + b * (self.l2 as int + b * self.l3), (b * b * b) as int);
        assert(b * (b * b * b) == u256_bound()) by (nonlinear_arith)
            requires
                b == limb_base(),
        ;
    }

    /// Two `U256` are the same value exactly when their limbs agree.
    pub proof fn lemma_value_injective(self, other: U256)
        ensures
            (self@ == other@) <==> (self == other),
    {
        let b = limb_base();
        lemma_lex(self.l2 as int, self.l3 as int, other.l2 as int, other.l3 as int);
        lemma_lex(
            self.l1 as int,
            self.l2 as int + b * self.l3,
            other.l1 as int,
            other.l2 as int + b * other.l3,
        );
        lemma_lex(
            self.l0 as int,
            self.l1 as int + b * (self.l2 as int + b * self.l3),
            other.l0 as int,
            other.l1 as int + b * (other.l2 as int + b * other.l3),
        );
    }

    /// The value zero.
    pub fn zero() -> (r: U256)
        ensures
            r@ == 0,
    {
        U256 { l0: 0, l1: 0, l2: 0, l3: 0 }
    }

    /// A value that fits in 64 bits.
    pub fn from_u64(x: u64) -> (r: U256)
        ensures
            r@ == x,
    {
        U256 { l0: x, l1: 0, l2: 0, l3: 0 }
    }

    /// A value given by its limbs, least significant first.
    pub fn from_limbs(limbs: [u64; 4]) -> (r: U256)
        ensures
            r.l0 == limbs[0],
            r.l1 == limbs[1],
            r.l2 == limbs[2],
            r.l3 == limbs[3],
    {
        U256 { l0: limbs[0], l1: limbs[1], l2: limbs[2], l3: limbs[3] }
    }

    /// The limbs, least significant first.
    pub fn limbs(&self) -> (r: [u64; 4])
        ensures
            r[0] == self.l0,
            r[1] == self.l1,
            r[2] == self.l2,
            r[3] == self.l3,
    {
        [self.l0, self.l1, self.l2, self.l3]
    }

    /// `self < other`.
    pub fn lt(&self, other: &U256) -> (r: bool)
        ensures
            r == (self@ < other@),
    {
        let ghost b = limb_base();
        proof {
            lemma_lex(self.l2 as int, self.l3 as int, other.l2 as int, other.l3 as int);
            lemma_lex(
                self.l1 as int,
                self.l2 as int + b * self.l3,
                other.l1 as int,
                other.l2 as int + b * other.l3,
            );
            lemma_lex(
                self.l0 as int,
                self.l1 as int + b * (self.l2 as int + b * self.l3),
                other.l0 as int,
                other.l1 as int + b * (other.l2 as int + b * other.l3),
            );
        }
        if self.l3 != other.l3 {
            self.l3 < other.l3
        } else if self.l2 != other.l2 {
            self.l2 < other.l2
        } else if self.l1 != other.l1 {
            self.l1 < other.l1
        } else {
            self.l0 < other.l0
        }
    }

    /// `self <= other`.
    pub fn le(&self, other: &U256) -> (r: bool)
        ensures
            r == (self@ <= other@),
    {
        !other.lt(self)
    }

    /// The smaller of the two (either one when they are equal).
    pub fn min(self, other: U256) -> (r: U256)
        ensures
            r@ == (if other@ < self@ { other@ } else { self@ }),
    {
        if other.lt(&self) {
            other
        } else {
            self
        }
    }

    /// Quotient and remainder of division by a nonzero 64-bit divisor.
    pub fn div_rem_small(&self, d: u64) -> (r: (U256, u64))
        requires
            d > 0,
        ensures
            r.0@ == self@ / (d as nat),
            r.1 == self@ % (d as nat),
    {
        let ghost b = limb_base();
        let base: u128 = 0x1_0000_0000_0000_0000;
        let dd = d as u128;
        let cur3 = self.l3 as u128;
        let q3 = cur3 / dd;
        let r3 = cur3 % dd;
        assert(q3 < b) by (nonlinear_arith)
            requires
                cur3 < b,
                q3 == cur3 / dd,
                dd > 0,
        ;
        let cur2 = r3 * base + self.l2 as u128;
        let q2 = cur2 / dd;
        let r2 = cur2 % dd;
        proof {
            vstd::arithmetic::div_mod::lemma_fundamental_div_mod(cur3 as int, dd as int);
            vstd::arithmetic::div_mod::lemma_mod_pos_bound(cur3 as int, dd as int);
            vstd::arithmetic::div_mod::lemma_fundamental_div_mod(cur2 as int, dd as int);
            vstd::arithmetic::div_mod::lemma_mod_pos_bound(cur2 as int, dd as int);
            lemma_div_step(self.l2 as int, self.l3 as int, dd as int, q3 as int, r3 as int, q2 as int, r2 as int);
        }
        let cur1 = r2 * base + self.l1 as u128;
        let q1 = cur1 / dd;
        let r1 = cur1 % dd;
        proof {
            vstd::arithmetic::div_mod::lemma_fundamental_div_mod(cur1 as int, dd as int);
            vstd::arithmetic::div_mod::lemma_mod_pos_bound(cur1 as int, dd as int);
            lemma_div_step(
                self.l1 as int,
                self.l2 as int + b * self.l3,
                dd as int,
                q2 as int + b * q3,
                r2 as int,
                q1 as int,
                r1 as int,
            );
        }
        let cur0 = r1 * base + self.l0 as u128;
        let q0 = cur0 / dd;
        let r0 = cur0 % dd;
        proof {
            vstd::arithmetic::div_mod::lemma_fundamental_div_mod(cur0 as int, dd as int);
            vstd::arithmetic::div_mod::lemma_mod_pos_bound(cur0 as int, dd as int);
            lemma_div_step(
                self.l0 as int,
                self.l1 as int + b * (self.l2 as int + b * self.l3),
                dd as int,
                q1 as int + b * (q2 as int + b * q3),
                r1 as int,
                q0 as int,
                r0 as int,
            );
        }
        let q = U256 { l0: q0 as u64, l1: q1 as u64, l2: q2 as u64, l3: q3 as u64 };
        proof {
            assert(self@ == dd * q@ + r0);
            assert(self@ == q@ * dd + r0) by (nonlinear_arith)
                requires
                    self@ == dd * q@ + r0,
            ;
            lemma_fundamental_div_mod_converse(self@ as int, dd as int, q@ as int, r0 as int);
        }
        (q, r0 as u64)
    }

    /// `self * m + a`, as a 256-bit result and the carry out of the top limb.
    pub fn mul_add_small(&self, m: u64, a: u64) -> (r: (U256, u64))
        ensures
            r.0@ + r.1 * u256_bound() == self@ * m + a,
    {
        let ghost b = limb_base();
        let base: u128 = 0x1_0000_0000_0000_0000;
        let mm = m as u128;
        assert((self.l0 as u128) * mm + (a as u128) < limb_base() * limb_base())
            by (nonlinear_arith)
            requires
                self.l0 < b,
                mm < b,
                a < b,
                b == limb_base(),
        ;
        let cur0 = (self.l0 as u128) * mm + (a as u128);
        let p0 = cur0 % base;
        let c0 = cur0 / base;
        assert(c0 < b) by (nonlinear_arith)
            requires
                cur0 < limb_base() * limb_base(),
                c0 == cur0 / base,
                base == b,
                b == limb_base(),
        ;
        assert((self.l1 as u128) * mm + c0 < limb_base() * limb_base())
            by (nonlinear_arith)
            requires
                self.l1 < b,
                mm < b,
                c0 < b,
                b == limb_base(),
        ;
        let cur1 = (self.l1 as u128) * mm + c0;
        let p1 = cur1 % base;
        let c1 = cur1 / base;
        assert(c1 < b) by (nonlinear_arith)
            requires
                cur1 < limb_base() * limb_base(),
                c1 == cur1 / base,
                base == b,
                b == limb_base(),
        ;
        assert((self.l2 as u128) * mm + c1 < limb_base() * limb_base())
            by (nonlinear_arith)
            requires
                self.l2 < b,
                mm < b,
                c1 < b,
                b == limb_base(),
        ;
        let cur2 = (self.l2 as u128) * mm + c1;
        let p2 = cur2 % base;
        let c2 = cur2 / base;
        assert(c2 < b) by (nonlinear_arith)
            requires
                cur2 < limb_base() * limb_base(),
                c2 == cur2 / base,
                base == b,
                b == limb_base(),
        ;
        assert((self.l3 as u128) * mm + c2 < limb_base() * limb_base())
            by (nonlinear_arith)
            requires
                self.l3 < b,
                mm < b,
                c2 < b,
                b == limb_base(),
        ;
        let cur3 = (self.l3 as u128) * mm + c2;
        let p3 = cur3 % base;
        let c3 = cur3 / base;
        assert(c3 < b) by (nonlinear_arith)
            requires
                cur3 < limb_base() * limb_base(),
                c3 == cur3 / base,
                base == b,
                b == limb_base(),
        ;
        proof {
            vstd::arithmetic::div_mod::lemma_fundamental_div_mod(cur0 as int, base as int);
            vstd::arithmetic::div_mod::lemma_fundamental_div_mod(cur1 as int, base as int);
            vstd::arithmetic::div_mod::lemma_fundamental_div_mod(cur2 as int, base as int);
            vstd::arithmetic::div_mod::lemma_fundamental_div_mod(cur3 as int, base as int);
            assert(cur0 == p0 + b * c0) by (nonlinear_arith)
                requires
                    cur0 == base * (cur0 / base) + cur0 % base,
                    p0 == cur0 % base,
                    c0 == cur0 / base,
                    base == b,
            ;
            assert(cur1 == p1 + b * c1) by (nonlinear_arith)
                requires
                    cur1 == base * (cur1 / base) + cur1 % base,
                    p1 == cur1 % base,
                    c1 == cur1 / base,
                    base == b,
            ;
            assert(cur2 == p2 + b * c2) by (nonlinear_arith)
                requires
                    cur2 == base * (cur2 / base) + cur2 % base,
                    p2 == cur2 % base,
                    c2 == cur2 / base,
                    base == b,
            ;
            assert(cur3 == p3 + b * c3) by (nonlinear_arith)
                requires
                    cur3 == base * (cur3 / base) + cur3 % base,
                    p3 == cur3 % base,
                    c3 == cur3 / base,
                    base == b,
            ;
            let h3 = self.l3 as int;
            let h2 = self.l2 as int + b * h3;
            let h1 = self.l1 as int + b * h2;
            lemma_mul_step(self.l0 as int, h1, m as int, a as int, p0 as int, c0 as int);
            lemma_mul_step(self.l1 as int, h2, m as int, c0 as int, p1 as int, c1 as int);
            lemma_mul_step(self.l2 as int, h3, m as int, c1 as int, p2 as int, c2 as int);
            assert(c2 + h3 * m == p3 + b * c3);
            assert(self@ * m + a == p0 + b * (p1 + b * (p2 + b * (p3 + b * c3)))) by (nonlinear_arith)
                requires
                    a + (self.l0 + b * h1) * m == p0 + b * (c0 + h1 * m),
                    c0 + (self.l1 + b * h2) * m == p1 + b * (c1 + h2 * m),
                    c1 + (self.l2 + b * h3) * m == p2 + b * (c2 + h3 * m),
                    c2 + h3 * m == p3 + b * c3,
                    h1 == self.l1 + b * h2,
                    h2 == self.l2 + b * h3,
                    self@ == self.l0 + b * h1,
            ;
            assert(p0 + b * (p1 + b * (p2 + b * (p3 + b * c3))) == (p0 + b * (p1 + b * (p2 + b
                * p3))) + c3 * u256_bound()) by (nonlinear_arith)
                requires
                    b == limb_base(),
            ;
        }
        (U256 { l0: p0 as u64, l1: p1 as u64, l2: p2 as u64, l3: p3 as u64 }, c3 as u64)
    }

    /// Floor division by four.
    pub fn div4(&self) -> (r: U256)
        ensures
            r@ == self@ / 4,
    {
        self.div_rem_small(4).0
    }

    /// Multiplication by four, which must not leave 256 bits.
    pub fn mul4(&self) -> (r: U256)
        requires
            self@ * 4 < u256_bound(),
        ensures
            r@ == self@ * 4,
    {
        let (p, c) = self.mul_add_small(4, 0);
        proof {
            p.lemma_value_bound();
            assert(c == 0) by (nonlinear_arith)
                requires
                    p@ + c * u256_bound() == self@ * 4,
                    self@ * 4 < u256_bound(),
            ;
        }
        p
    }
}


/// The decimal numeral of a number is all digits and reads back as that number.
pub proof fn lemma_decimal_digits_value(n: nat)
    ensures
        all_digits(decimal_digits(n)),
        digits_value(decimal_digits(n)) == n,
        decimal_digits(n).len() > 0,
    decreases n,
{
    vstd::arithmetic::div_mod::lemma_fundamental_div_mod(n as int, 10);
    vstd::arithmetic::div_mod::lemma_mod_pos_bound(n as int, 10);
    if n < 10 {
        let s = decimal_digits(n);
        assert(s.drop_last() =~= Seq::<u8>::empty());
        assert(digits_value(s.drop_last()) == 0);
        assert(s.last() == (n + 48) as u8);
    } else {
        lemma_decimal_digits_value(n / 10);
        let s = decimal_digits(n);
        assert(s.drop_last() =~= decimal_digits(n / 10));
        assert(s.last() == (n % 10 + 48) as u8);
        assert(digits_value(s) == digits_value(decimal_digits(n / 10)) * 10 + n % 10);
        assert(all_digits(s)) by {
            assert forall|i: int| 0 <= i < s.len() implies is_digit(#[trigger] s[i]) by {
                if i < s.len() - 1 {
                    assert(s[i] == decimal_digits(n / 10)[i]);
                }
            }
        }
    }
}

/// Writing a 256-bit number in decimal and reading the text back gives the
/// number again.
pub proof fn lemma_decimal_roundtrip(n: nat)
    requires
        n < u256_bound(),
    ensures
        parse_decimal(decimal_digits(n)) == Some(n),
{
    lemma_decimal_digits_value(n);
}

/// Every prefix of a digit string denotes at most what the whole string denotes.
proof fn lemma_prefix_value_le(s: Seq<u8>, k: int)
    requires
        0 <= k <= s.len(),
    ensures
        digits_value(s.take(k)) <= digits_value(s),
    decreases s.len(),
{
    if k < s.len() {
        lemma_prefix_value_le(s.drop_last(), k);
        assert(s.take(k) =~= s.drop_last().take(k));
    } else {
        assert(s.take(k) =~= s);
    }
}

impl U256 {
    /// The decimal text of the value, as ASCII digits without leading zeros.
    pub fn to_decimal(&self) -> (r: Vec<u8>)
        ensures
            r@ == decimal_digits(self@),
    {
        let ten = U256::from_u64(10);
        let mut cur = *self;
        let mut out: Vec<u8> = Vec::new();
        while !cur.lt(&ten)
            invariant
                decimal_digits(self@) == decimal_digits(cur@) + out@,
                ten@ == 10,
            decreases cur@,
        {
            let (q, r) = cur.div_rem_small(10);
            proof {
                vstd::arithmetic::div_mod::lemma_mod_pos_bound(cur@ as int, 10);
                assert(q@ < cur@) by (nonlinear_arith)
                    requires
                        q@ == cur@ / 10,
                        cur@ >= 10,
                ;
                assert(decimal_digits(cur@) == decimal_digits(q@).push((r + 48) as u8));
                assert(decimal_digits(q@).push((r + 48) as u8) + out@ =~= decimal_digits(q@)
                    + out@.insert(0, (r + 48) as u8));
            }
            out.insert(0, (r + 48) as u8);
            cur = q;
        }
        proof {
            let b = limb_base();
            lemma_small_is_low_limb(
                cur.l0 as int,
                cur.l1 as int + b * (cur.l2 as int + b * cur.l3),
            );
            assert(cur.l1 as int + b * (cur.l2 as int + b * cur.l3) == 0);
            assert(cur@ == cur.l0);
            assert(seq![(cur@ + 48) as u8] + out@ =~= out@.insert(0, (cur.l0 + 48) as u8));
        }
        out.insert(0, (cur.l0 + 48) as u8);
        out
    }

    /// Reads decimal text: only ASCII digits are accepted (empty text reads as
    /// zero), and the value must fit in 256 bits.
    pub fn from_decimal(text: &[u8]) -> (r: Option<U256>)
        ensures
            match r {
                Some(v) => parse_decimal(text@) == Some(v@),
                None => parse_decimal(text@) is None,
            },
    {
        let n = text.len();
        let mut i: usize = 0;
        while i < n
            invariant
                i <= n,
                n == text@.len(),
                forall|j: int| 0 <= j < i ==> is_digit(#[trigger] text@[j]),
            decreases n - i,
        {
            if !(48 <= text[i] && text[i] <= 57) {
                assert(!is_digit(text@[i as int]));
                return None;
            }
            i = i + 1;
        }
        let mut acc = U256::zero();
        let mut k: usize = 0;
        while k < n
            invariant
                k <= n,
                n == text@.len(),
                all_digits(text@),
                acc@ == digits_value(text@.take(k as int)),
            decreases n - k,
        {
            assert(is_digit(text@[k as int]));
            let (p, c) = acc.mul_add_small(10, (text[k] - 48) as u64);
            proof {
                assert(text@.take(k + 1).drop_last() =~= text@.take(k as int));
                assert(text@.take(k + 1).last() == text@[k as int]);
                assert(digits_value(text@.take(k + 1)) == acc@ * 10 + (text[k as int] - 48));
            }
            if c != 0 {
                proof {
                    assert(acc@ * 10 + (text[k as int] - 48) >= u256_bound()) by (nonlinear_arith)
                        requires
                            p@ + c * u256_bound() == acc@ * 10 + (text[k as int] - 48),
                            c >= 1,
                    ;
                    p.lemma_value_bound();
                    lemma_prefix_value_le(text@, k + 1);
                }
                return None;
            }
            assert(p@ == acc@ * 10 + (text[k as int] - 48)) by (nonlinear_arith)
                requires
                    p@ + c * u256_bound() == acc@ * 10 + (text[k as int] - 48),
                    c == 0,
            ;
            acc = p;
            k = k + 1;
        }
        proof {
            assert(text@.take(n as int) =~= text@);
            acc.lemma_value_bound();
        }
        Some(acc)
    }
}

} // verus!
