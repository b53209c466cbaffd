use crate::types::{AggregatorError, Result};
use crate::u256::{U256, u256_limit, decimal_text};
use vstd::arithmetic::div_mod::{lemma_fundamental_div_mod, lemma_small_mod};
use vstd::prelude::*;
use vstd::string::StringExecFns;

verus! {

/// `10^n`.
pub open spec fn pow10(n: nat) -> nat
    decreases n,
{
    if n == 0 {
        1
    } else {
        10 * pow10((n - 1) as nat)
    }
}

/// A decimal digit character.
pub open spec fn is_digit(c: char) -> bool {
    '0' <= c && c <= '9'
}

/// The value of a decimal digit character.
pub open spec fn digit_val(c: char) -> nat {
    (c as u32 - 48) as nat
}

/// Every character is a decimal digit.
pub open spec fn all_digits(s: Seq<char>) -> bool {
    forall|i: int| 0 <= i < s.len() ==> is_digit(#[trigger] s[i])
}

/// The value of a string of decimal digits, most significant first.
pub open spec fn digits_value(s: Seq<char>) -> nat
    decreases s.len(),
{
    if s.len() == 0 {
        0
    } else {
        digits_value(s.drop_last()) * 10 + digit_val(s.last())
    }
}

/// `k` zero characters.
pub open spec fn zeros(k: nat) -> Seq<char> {
    Seq::new(k, |i: int| '0')
}

/// `s` without its trailing zero characters.
pub open spec fn trim_zeros(s: Seq<char>) -> Seq<char>
    decreases s.len(),
{
    if s.len() > 0 && s.last() == '0' {
        trim_zeros(s.drop_last())
    } else {
        s
    }
}

/// The decimal text of `n`, left-padded with zeros to at least `w` characters.
pub open spec fn padded_text(n: nat, w: nat) -> Seq<char> {
    let t = decimal_text(n);
    if t.len() >= w {
        t
    } else {
        zeros((w - t.len()) as nat) + t
    }
}

/// The display text of amount `x` of a token with `d` decimals: the integer part, then,
/// when the fraction is not zero, a dot and its digits without trailing zeros.
pub open spec fn amount_text(x: nat, d: nat) -> Seq<char> {
    if x == 0 {
        seq!['0']
    } else {
        let ip = x / pow10(d);
        let rem = x % pow10(d);
        let t = trim_zeros(padded_text(rem, d));
        if rem == 0 || t.len() == 0 {
            decimal_text(ip)
        } else {
            decimal_text(ip) + seq!['.'] + t
        }
    }
}

/// `p` is the position of the only dot of `s`.
pub open spec fn single_dot_at(s: Seq<char>, p: int) -> bool {
    &&& 0 <= p < s.len()
    &&& s[p] == '.'
    &&& !s.take(p).contains('.')
    &&& !s.skip(p + 1).contains('.')
}

/// The position of the only dot of `s`.
pub open spec fn dot_at(s: Seq<char>) -> int {
    choose|p: int| single_dot_at(s, p)
}

/// The digits before the dot, or all of `s` when it has no dot.
pub open spec fn integer_digits(s: Seq<char>) -> Seq<char> {
    if s.contains('.') {
        s.take(dot_at(s))
    } else {
        s
    }
}

/// The digits after the dot, or none when `s` has no dot.
pub open spec fn fraction_digits(s: Seq<char>) -> Seq<char> {
    if s.contains('.') {
        s.skip(dot_at(s) + 1)
    } else {
        Seq::empty()
    }
}

/// Whether `s` is an amount with at most `d` decimals: digits, then optionally one dot
/// and at most `d` more digits.
pub open spec fn amount_syntax_ok(s: Seq<char>, d: nat) -> bool {
    &&& !s.contains('.') || exists|p: int| single_dot_at(s, p)
    &&& integer_digits(s).len() > 0
    &&& all_digits(integer_digits(s))
    &&& s.contains('.') ==> {
        &&& fraction_digits(s).len() <= d
        &&& all_digits(fraction_digits(s))
    }
}

/// The base-unit value of amount text `s` with `d` decimals:
/// `integer · 10^d + fraction` with the fraction right-padded with zeros to `d` digits.
pub open spec fn amount_value(s: Seq<char>, d: nat) -> nat {
    digits_value(integer_digits(s)) * pow10(d) + digits_value(fraction_digits(s)) * pow10(
        (d - fraction_digits(s).len()) as nat,
    )
}

pub proof fn lemma_pow10_positive(n: nat)
    ensures
        pow10(n) >= 1,
    decreases n,
{
    if n > 0 {
        lemma_pow10_positive((n - 1) as nat);
    }
}

pub proof fn lemma_pow10_monotone(a: nat, b: nat)
    requires
        a <= b,
    ensures
        pow10(a) <= pow10(b),
    decreases b,
{
    if a < b {
        lemma_pow10_monotone(a, (b - 1) as nat);
        lemma_pow10_positive((b - 1) as nat);
    }
}

/// `10^n` as a 256-bit integer, or `None` when it needs more than 256 bits.
fn pow10_u256(n: u32) -> (r: Option<U256>)
    ensures
        r is Some <==> pow10(n as nat) < u256_limit(),
        r is Some ==> r->0@ == pow10(n as nat),
{
    let ten = U256::from_u64(10);
    let mut p = U256::from_u64(1);
    let mut i: u32 = 0;
    while i < n
        invariant
            0 <= i <= n,
            p@ == pow10(i as nat),
            ten@ == 10,
        decreases n - i,
    {
        match p.checked_mul(&ten) {
            Some(q) => {
                p = q;
            },
            None => {
                proof {
                    lemma_pow10_monotone((i + 1) as nat, n as nat);
                }
                return None;
            },
        }
        i = i + 1;
    }
    Some(p)
}

/// Zero text of `k` characters.
fn zero_text(k: usize) -> (r: String)
    ensures
        r@ == zeros(k as nat),
{
    let mut s = String::new();
    let mut i: usize = 0;
    while i < k
        invariant
            0 <= i <= k,
            s@ == zeros(i as nat),
        decreases k - i,
    {
        s.append("0");
        proof {
            reveal_strlit("0");
        }
        i = i + 1;
        assert(s@ =~= zeros(i as nat));
    }
    s
}

proof fn lemma_trim_prefix(s: Seq<char>, e: int)
    requires
        0 <= e <= s.len(),
        forall|i: int| e <= i < s.len() ==> s[i] == '0',
        e == 0 || s[e - 1] != '0',
    ensures
        trim_zeros(s) == s.take(e),
    decreases s.len(),
{
    if s.len() > e {
        lemma_trim_prefix(s.drop_last(), e);
        assert(s.drop_last().take(e) =~= s.take(e));
    } else {
        assert(s.take(e) =~= s);
    }
}

/// Formats an amount of base units for display with `decimals` decimals:
/// `1500000000000000000` with 18 decimals is `1.5`.
pub fn format_token_amount(amount: U256, decimals: u8) -> (r: String)
    ensures
        r@ == amount_text(amount@, decimals as nat),
{
    if amount.is_zero() {
        proof {
            reveal_strlit("0");
        }
        return String::from_str("0");
    }
    let ghost d = decimals as nat;
    let (integer_part, remainder) = match pow10_u256(decimals as u32) {
        Some(divisor) => {
            proof {
                lemma_pow10_positive(d);
            }
            let q = match amount.checked_div(&divisor) {
                Some(v) => v,
                None => U256::zero(),
            };
            let m = match amount.checked_rem(&divisor) {
                Some(v) => v,
                None => U256::zero(),
            };
            (q, m)
        },
        None => {
            proof {
                crate::u256::lemma_u256_bounded(amount);
                lemma_small_mod(amount@, pow10(d));
                lemma_fundamental_div_mod(amount@ as int, pow10(d) as int);
                assert(pow10(d) * (amount@ / pow10(d)) == 0);
                assert(amount@ / pow10(d) == 0) by (nonlinear_arith)
                    requires
                        pow10(d) * (amount@ / pow10(d)) == 0,
                        pow10(d) > 0,
                ;
            }
            (U256::zero(), amount)
        },
    };
    assert(integer_part@ == amount@ / pow10(d));
    assert(remainder@ == amount@ % pow10(d));
    let int_text = integer_part.to_decimal();
    if remainder.is_zero() {
        return int_text;
    }
    let rem_text = remainder.to_decimal();
    let rlen = rem_text.as_str().unicode_len();
    let pad = if rlen < decimals as usize {
        decimals as usize - rlen
    } else {
        0
    };
    let mut padded = zero_text(pad);
    padded.append(rem_text.as_str());
    assert(padded@ =~= padded_text(remainder@, d));
    let plen = padded.as_str().unicode_len();
    let mut e: usize = plen;
    let mut done = false;
    while e > 0 && !done
        invariant
            0 <= e <= plen,
            plen == padded@.len(),
            forall|i: int| e <= i < plen ==> padded@[i] == '0',
            done ==> e > 0 && padded@[e - 1] != '0',
        decreases e + (if done {
            0int
        } else {
            1int
        }),
    {
        if padded.as_str().get_char(e - 1) == '0' {
            e = e - 1;
        } else {
            done = true;
        }
    }
    proof {
        lemma_trim_prefix(padded@, e as int);
    }
    if e == 0 {
        return int_text;
    }
    let trimmed = padded.as_str().substring_char(0, e);
    let mut out = int_text;
    out.append(".");
    out.append(trimmed);
    proof {
        reveal_strlit(".");
        assert(trimmed@ =~= padded@.take(e as int));
        assert(out@ =~= decimal_text(integer_part@) + seq!['.'] + trim_zeros(padded_text(remainder@, d)));
    }
    out
}

/// The characters of `s`.
fn chars_of(s: &str) -> (r: Vec<char>)
    ensures
        r@ == s@,
{
    let n = s.unicode_len();
    let mut r: Vec<char> = Vec::new();
    let mut i: usize = 0;
    while i < n
        invariant
            0 <= i <= n,
            n == s@.len(),
            r@ == s@.take(i as int),
        decreases n - i,
    {
        r.push(s.get_char(i));
        i = i + 1;
        assert(r@ =~= s@.take(i as int));
    }
    assert(s@.take(n as int) =~= s@);
    r
}

/// Whether `c[from..to]` holds only digits.
fn digits_between(c: &Vec<char>, from: usize, to: usize) -> (r: bool)
    requires
        from <= to <= c@.len(),
    ensures
        r == all_digits(c@.subrange(from as int, to as int)),
{
    let mut i: usize = from;
    while i < to
        invariant
            from <= i <= to,
            to <= c@.len(),
            forall|k: int| from <= k < i ==> is_digit(#[trigger] c@[k]),
        decreases to - i,
    {
        if !('0' <= c[i] && c[i] <= '9') {
            assert(c@.subrange(from as int, to as int)[i - from] == c@[i as int]);
            return false;
        }
        i = i + 1;
    }
    assert forall|k: int| 0 <= k < to - from implies is_digit(#[trigger] c@.subrange(from as int, to as int)[k]) by {
        assert(c@.subrange(from as int, to as int)[k] == c@[from + k]);
    }
    true
}

/// The value of the digits `c[from..to]`, or `None` when it needs more than 256 bits.
fn digits_to_u256(c: &Vec<char>, from: usize, to: usize) -> (r: Option<U256>)
    requires
        from <= to <= c@.len(),
        all_digits(c@.subrange(from as int, to as int)),
    ensures
        r is Some <==> digits_value(c@.subrange(from as int, to as int)) < u256_limit(),
        r is Some ==> r->0@ == digits_value(c@.subrange(from as int, to as int)),
{
    let ten = U256::from_u64(10);
    let mut acc = U256::zero();
    let mut i: usize = from;
    while i < to
        invariant
            from <= i <= to <= c@.len(),
            all_digits(c@.subrange(from as int, to as int)),
            acc@ == digits_value(c@.subrange(from as int, i as int)),
            ten@ == 10,
        decreases to - i,
    {
        let ghost s = c@.subrange(from as int, i as int + 1);
        assert(s.drop_last() =~= c@.subrange(from as int, i as int));
        assert(c@.subrange(from as int, to as int)[i - from] == c@[i as int]);
        let digit = (c[i] as u32 - '0' as u32) as u64;
        let next = match acc.checked_mul(&ten) {
            Some(v) => match v.checked_add(&U256::from_u64(digit)) {
                Some(w) => w,
                None => {
                    proof {
                        lemma_digits_prefix_grows(c@.subrange(from as int, to as int), (i - from + 1) as int);
                        assert(c@.subrange(from as int, to as int).take((i - from + 1) as int) =~= s);
                    }
                    return None;
                },
            },
            None => {
                proof {
                    lemma_digits_prefix_grows(c@.subrange(from as int, to as int), (i - from + 1) as int);
                    assert(c@.subrange(from as int, to as int).take((i - from + 1) as int) =~= s);
                }
                return None;
            },
        };
        acc = next;
        i = i + 1;
    }
    Some(acc)
}

/// A longer prefix of digits is worth at least as much.
proof fn lemma_digits_prefix_grows(s: Seq<char>, n: int)
    requires
        0 <= n <= s.len(),
    ensures
        digits_value(s.take(n)) <= digits_value(s),
    decreases s.len(),
{
    if n < s.len() {
        lemma_digits_prefix_grows(s.drop_last(), n);
        assert(s.drop_last().take(n) =~= s.take(n));
    } else {
        assert(s.take(n) =~= s);
    }
}

pub proof fn lemma_single_dot_unique(s: Seq<char>, p: int, q: int)
    requires
        single_dot_at(s, p),
        single_dot_at(s, q),
    ensures
        p == q,
{
    if p < q {
        assert(s.skip(p + 1)[q - p - 1] == s[q]);
    } else if q < p {
        assert(s.skip(q + 1)[p - q - 1] == s[p]);
    }
}

/// Parses a decimal amount with at most `decimals` decimals into base units:
/// `1.5` with 18 decimals is `1500000000000000000`.
///
/// Fails with `ParseError` on text that is not digits with at most one dot, or that has
/// more decimals than the token; with `MathError` when the value needs more than 256 bits.
pub fn parse_token_amount(amount_str: &str, decimals: u8) -> (r: Result<U256>)
    ensures
        !amount_syntax_ok(amount_str@, decimals as nat) ==> r is Err && r->Err_0 is ParseError,
        amount_syntax_ok(amount_str@, decimals as nat) && (pow10(decimals as nat) >= u256_limit()
            || amount_value(amount_str@, decimals as nat) >= u256_limit()) ==> r is Err
            && r->Err_0 is MathError,
        amount_syntax_ok(amount_str@, decimals as nat) && pow10(decimals as nat) < u256_limit()
            && amount_value(amount_str@, decimals as nat) < u256_limit() ==> r is Ok && r->Ok_0@
            == amount_value(amount_str@, decimals as nat),
{
    let ghost s = amount_str@;
    let ghost d = decimals as nat;
    let c = chars_of(amount_str);
    let n = c.len();
    let mut p: usize = 0;
    while p < n && c[p] != '.'
        invariant
            0 <= p <= n,
            n == s.len(),
            c@ == s,
            s == amount_str@,
            forall|k: int| 0 <= k < p ==> s[k] != '.',
        decreases n - p,
    {
        p = p + 1;
    }
    let has_dot = p < n;
    assert(!s.take(p as int).contains('.')) by {
        if s.take(p as int).contains('.') {
            let k = choose|k: int| 0 <= k < p && #[trigger] s.take(p as int)[k] == '.';
            assert(s[k] == '.');
        }
    }
    if has_dot {
        let mut q: usize = p + 1;
        while q < n
            invariant
                p < n,
                p + 1 <= q <= n,
                n == s.len(),
                c@ == s,
                s == amount_str@,
                d == decimals as nat,
                s[p as int] == '.',
                !s.take(p as int).contains('.'),
                forall|k: int| p + 1 <= k < q ==> s[k] != '.',
            decreases n - q,
        {
            if c[q] == '.' {
                proof {
                    assert forall|x: int| !single_dot_at(s, x) by {
                        if single_dot_at(s, x) {
                            if x < p {
                                assert(s.take(p as int).contains('.')) by {
                                    assert(s.take(p as int)[x] == '.');
                                }
                            } else if x == p {
                                assert(s.skip(p + 1)[q - p - 1] == s[q as int]);
                            } else {
                                assert(s.take(x)[p as int] == '.');
                            }
                        }
                    }
                    assert(s[p as int] == '.');
                    assert(s.contains('.'));
                    assert(!amount_syntax_ok(s, d));
                }
                return Err(AggregatorError::ParseError(String::from_str("Invalid amount format")));
            }
            q = q + 1;
        }
        proof {
            assert(!s.skip(p + 1).contains('.')) by {
                if s.skip(p + 1).contains('.') {
                    let k = choose|k: int| 0 <= k < s.skip(p + 1).len() && #[trigger] s.skip(p + 1)[k] == '.';
                    assert(s[p + 1 + k] == '.');
                }
            }
            assert(single_dot_at(s, p as int));
            let x = dot_at(s);
            lemma_single_dot_unique(s, p as int, x);
            assert(s.contains('.')) by {
                assert(s[p as int] == '.');
            }
            assert(integer_digits(s) =~= c@.subrange(0, p as int));
            assert(fraction_digits(s) =~= c@.subrange(p + 1, n as int));
        }
    } else {
        proof {
            assert(s.take(p as int) =~= s);
            assert(integer_digits(s) =~= c@.subrange(0, p as int));
            assert(fraction_digits(s) =~= c@.subrange(n as int, n as int));
        }
    }
    let frac_start: usize = if has_dot {
        p + 1
    } else {
        n
    };
    if p == 0 || !digits_between(&c, 0, p) {
        return Err(AggregatorError::ParseError(String::from_str("Invalid integer part")));
    }
    let frac_len = n - frac_start;
    if has_dot {
        if frac_len > decimals as usize {
            return Err(AggregatorError::ParseError(String::from_str("Too many decimal places")));
        }
        if !digits_between(&c, frac_start, n) {
            return Err(AggregatorError::ParseError(String::from_str("Invalid decimal part")));
        }
    } else {
        assert(all_digits(c@.subrange(n as int, n as int)));
    }
    assert(amount_syntax_ok(s, d));
    let ghost iv = digits_value(integer_digits(s));
    let ghost fv = digits_value(fraction_digits(s));
    let ghost z = (d - frac_len) as nat;
    proof {
        lemma_pow10_positive(d);
        lemma_pow10_positive(z);
        lemma_pow10_monotone(z, d);
    }
    let int_val = match digits_to_u256(&c, 0, p) {
        Some(v) => v,
        None => {
            proof {
                assert(iv * pow10(d) >= iv) by (nonlinear_arith)
                    requires
                        pow10(d) >= 1,
                ;
            }
            return Err(AggregatorError::MathError);
        },
    };
    let frac_val = match digits_to_u256(&c, frac_start, n) {
        Some(v) => v,
        None => {
            proof {
                assert(fv * pow10(z) >= fv) by (nonlinear_arith)
                    requires
                        pow10(z) >= 1,
                ;
            }
            return Err(AggregatorError::MathError);
        },
    };
    let scale = match pow10_u256((decimals as usize - frac_len) as u32) {
        Some(v) => v,
        None => {
            return Err(AggregatorError::MathError);
        },
    };
    let frac_padded = match frac_val.checked_mul(&scale) {
        Some(v) => v,
        None => {
            return Err(AggregatorError::MathError);
        },
    };
    let multiplier = match pow10_u256(decimals as u32) {
        Some(v) => v,
        None => {
            return Err(AggregatorError::MathError);
        },
    };
    let scaled = match int_val.checked_mul(&multiplier) {
        Some(v) => v,
        None => {
            return Err(AggregatorError::MathError);
        },
    };
    match scaled.checked_add(&frac_padded) {
        Some(v) => Ok(v),
        None => Err(AggregatorError::MathError),
    }
}

} // verus!
