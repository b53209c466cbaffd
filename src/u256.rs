use vstd::prelude::*;

verus! {

/// 2^64, the weight of one limb.
pub open spec fn limb_base() -> nat {
    18446744073709551616
}

/// 2^256: every amount is below this bound.
pub open spec fn u256_limit() -> nat {
    limb_base() * limb_base() * limb_base() * limb_base()
}

/// The decimal digit characters.
pub open spec fn digit_chars() -> Seq<char> {
    seq!['0', '1', '2', '3', '4', '5', '6', '7', '8', '9']
}

/// The decimal text of `n`: its digits without leading zeros, `0` for zero.
pub open spec fn decimal_text(n: nat) -> Seq<char>
    decreases n,
{
    if n < 10 {
        seq![digit_chars()[n as int]]
    } else {
        decimal_text(n / 10).push(digit_chars()[(n % 10) as int])
    }
}

/// An unsigned 256-bit integer held as four little-endian 64-bit limbs,
/// the same layout as ethers' `U256`.
#[derive(Clone, Copy, Eq, Debug, Hash)]
pub struct U256 {
    pub limbs: [u64; 4],
}

impl View for U256 {
    type V = nat;

    open spec fn view(&self) -> nat {
        self.limbs[0] as nat + limb_base() * (self.limbs[1] as nat + limb_base() * (
        self.limbs[2] as nat + limb_base() * (self.limbs[3] as nat)))
    }
}

/// Every value of four limbs lies below 2^256.
pub proof fn lemma_u256_bounded(a: U256)
    ensures
        a@ < u256_limit(),
{
    let l0 = a.limbs[0] as int;
    let l1 = a.limbs[1] as int;
    let l2 = a.limbs[2] as int;
    let l3 = a.limbs[3] as int;
    let b = limb_base() as int;
    assert(l3 <= b - 1);
    assert(b * l3 <= b * (b - 1)) by (nonlinear_arith)
        requires
            l3 <= b - 1,
            b > 0,
    ;
    assert(l2 + b * l3 <= b * b - 1);
    assert(b * (l2 + b * l3) <= b * (b * b - 1)) by (nonlinear_arith)
        requires
            l2 + b * l3 <= b * b - 1,
            b > 0,
    ;
    assert(l1 + b * (l2 + b * l3) <= b * b * b - 1);
    assert(b * (l1 + b * (l2 + b * l3)) <= b * (b * b * b - 1)) by (nonlinear_arith)
        requires
            l1 + b * (l2 + b * l3) <= b * b * b - 1,
            b > 0,
    ;
    assert(b * (b * b * b - 1) == b * b * b * b - b) by (nonlinear_arith);
}

impl PartialEq for U256 {
    fn eq(&self, other: &U256) -> (r: bool) {
        let r = self.limbs[0] == other.limbs[0] && self.limbs[1] == other.limbs[1] && self.limbs[2]
            == other.limbs[2] && self.limbs[3] == other.limbs[3];
        proof {
            if r {
                assert(self.limbs =~= other.limbs);
            }
        }
        r
    }
}

impl vstd::std_specs::cmp::PartialEqSpecImpl for U256 {
    open spec fn obeys_eq_spec() -> bool {
        true
    }

    open spec fn eq_spec(&self, other: &U256) -> bool {
        self.limbs == other.limbs
    }
}

impl U256 {
    /// Zero.
    pub fn zero() -> (r: U256)
        ensures
            r@ == 0,
    {
        U256 { limbs: [0, 0, 0, 0] }
    }

    /// The value of a `u64`.
    pub fn from_u64(x: u64) -> (r: U256)
        ensures
            r@ == x as nat,
    {
        U256 { limbs: [x, 0, 0, 0] }
    }

    /// The value of a `u128`.
    pub fn from_u128(x: u128) -> (r: U256)
        ensures
            r@ == x as nat,
    {
        let lo = (x % 18446744073709551616) as u64;
        let hi = (x / 18446744073709551616) as u64;
        assert(x == lo as int + limb_base() * hi as int) by (nonlinear_arith)
            requires
                lo == x % 18446744073709551616,
                hi == x / 18446744073709551616,
                limb_base() == 18446744073709551616,
        ;
        U256 { limbs: [lo, hi, 0, 0] }
    }

    /// The value as a `u64`, for a value that fits in one limb.
    pub fn low_u64(&self) -> (r: u64)
        requires
            self@ < limb_base(),
        ensures
            r as nat == self@,
    {
        proof {
            let m = limb_base() as int;
            let rest = self.limbs[1] as int + m * (self.limbs[2] as int + m * (
            self.limbs[3] as int));
            assert(m * rest >= 0) by (nonlinear_arith)
                requires
                    rest >= 0,
                    m > 0,
            ;
            if rest > 0 {
                assert(m * rest >= m) by (nonlinear_arith)
                    requires
                        rest >= 1,
                        m > 0,
                ;
            }
            assert(rest == 0);
            assert(self.limbs[1] as int + m * (self.limbs[2] as int + m * (self.limbs[3] as int))
                == 0);
        }
        self.limbs[0]
    }

    /// The decimal text of the value.
    pub fn to_decimal(&self) -> (r: String)
        ensures
            r@ == decimal_text(self@),
    {
        big_decimal_text(*self)
    }

    /// Whether the value is zero.
    pub fn is_zero(&self) -> (r: bool)
        ensures
            r == (self@ == 0),
    {
        let r = big_is_zero(*self);
        r
    }

    /// Checked multiplication: `None` exactly when the product needs more than 256 bits.
    pub fn checked_mul(&self, other: &U256) -> (r: Option<U256>)
        ensures
            match r {
                Some(c) => self@ * other@ < u256_limit() && c@ == self@ * other@,
                None => self@ * other@ >= u256_limit(),
            },
    {
        big_checked_mul(*self, *other)
    }

    /// Checked addition: `None` exactly when the sum needs more than 256 bits.
    pub fn checked_add(&self, other: &U256) -> (r: Option<U256>)
        ensures
            match r {
                Some(c) => self@ + other@ < u256_limit() && c@ == self@ + other@,
                None => self@ + other@ >= u256_limit(),
            },
    {
        big_checked_add(*self, *other)
    }

    /// Checked integer division: `None` exactly when the divisor is zero.
    pub fn checked_div(&self, other: &U256) -> (r: Option<U256>)
        ensures
            match r {
                Some(c) => other@ != 0 && c@ == self@ / other@,
                None => other@ == 0,
            },
    {
        big_checked_div(*self, *other)
    }

    /// Checked remainder: `None` exactly when the divisor is zero.
    pub fn checked_rem(&self, other: &U256) -> (r: Option<U256>)
        ensures
            match r {
                Some(c) => other@ != 0 && c@ == self@ % other@,
                None => other@ == 0,
            },
    {
        big_checked_rem(*self, *other)
    }

    /// Subtraction that stops at zero.
    pub fn saturating_sub(&self, other: &U256) -> (r: U256)
        ensures
            r@ == if self@ >= other@ {
                (self@ - other@) as nat
            } else {
                0
            },
    {
        big_saturating_sub(*self, *other)
    }

    /// Strict comparison of values.
    pub fn gt(&self, other: &U256) -> (r: bool)
        ensures
            r == (self@ > other@),
    {
        big_gt(*self, *other)
    }

    /// Strict comparison of values.
    pub fn lt(&self, other: &U256) -> (r: bool)
        ensures
            r == (self@ < other@),
    {
        big_gt(*other, *self)
    }
}

/// Relies on the `Display` format of ethers' `U256`: the decimal digits of the value,
/// without leading zeros, and `0` for zero.
#[verifier::external_body]
fn big_decimal_text(a: U256) -> (r: String)
    ensures
        r@ == decimal_text(a@),
{
    format!("{}", ethers::types::U256(a.limbs))
}

/// Relies on ethers' `U256::is_zero`: true exactly for the value zero.
#[verifier::external_body]
fn big_is_zero(a: U256) -> (r: bool)
    ensures
        r == (a@ == 0),
{
    ethers::types::U256(a.limbs).is_zero()
}

/// Relies on ethers' `U256::checked_mul`: the product, or `None` on overflow.
#[verifier::external_body]
fn big_checked_mul(a: U256, b: U256) -> (r: Option<U256>)
    ensures
        match r {
            Some(c) => a@ * b@ < u256_limit() && c@ == a@ * b@,
            None => a@ * b@ >= u256_limit(),
        },
{
    ethers::types::U256(a.limbs).checked_mul(ethers::types::U256(b.limbs)).map(|c| U256 { limbs: c.0 })
}

/// Relies on ethers' `U256::checked_add`: the sum, or `None` on overflow.
#[verifier::external_body]
fn big_checked_add(a: U256, b: U256) -> (r: Option<U256>)
    ensures
        match r {
            Some(c) => a@ + b@ < u256_limit() && c@ == a@ + b@,
            None => a@ + b@ >= u256_limit(),
        },
{
    ethers::types::U256(a.limbs).checked_add(ethers::types::U256(b.limbs)).map(|c| U256 { limbs: c.0 })
}

/// Relies on ethers' `U256::checked_div`: the floored quotient, or `None` for a zero divisor.
#[verifier::external_body]
fn big_checked_div(a: U256, b: U256) -> (r: Option<U256>)
    ensures
        match r {
            Some(c) => b@ != 0 && c@ == a@ / b@,
            None => b@ == 0,
        },
{
    ethers::types::U256(a.limbs).checked_div(ethers::types::U256(b.limbs)).map(|c| U256 { limbs: c.0 })
}

/// Relies on ethers' `U256::checked_rem`: the remainder, or `None` for a zero divisor.
#[verifier::external_body]
fn big_checked_rem(a: U256, b: U256) -> (r: Option<U256>)
    ensures
        match r {
            Some(c) => b@ != 0 && c@ == a@ % b@,
            None => b@ == 0,
        },
{
    ethers::types::U256(a.limbs).checked_rem(ethers::types::U256(b.limbs)).map(|c| U256 { limbs: c.0 })
}

/// Relies on ethers' `U256::saturating_sub`: the difference, or zero when it would be negative.
#[verifier::external_body]
fn big_saturating_sub(a: U256, b: U256) -> (r: U256)
    ensures
        r@ == if a@ >= b@ {
            (a@ - b@) as nat
        } else {
            0
        },
{
    U256 { limbs: ethers::types::U256(a.limbs).saturating_sub(ethers::types::U256(b.limbs)).0 }
}

/// Relies on ethers' `U256` ordering (`PartialOrd`), which compares values.
#[verifier::external_body]
fn big_gt(a: U256, b: U256) -> (r: bool)
    ensures
        r == (a@ > b@),
{
    ethers::types::U256(a.limbs) > ethers::types::U256(b.limbs)
}

} // verus!
