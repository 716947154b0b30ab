use vstd::prelude::*;
use vstd::arithmetic::div_mod::{lemma_basic_div, lemma_small_mod};
use vstd::arithmetic::power2::{
    lemma2_to64, lemma2_to64_rest, lemma_pow2_adds, lemma_pow2_pos, lemma_pow2_strictly_increases,
    lemma_pow2_unfold, pow2,
};
use vstd::string::StringExecFns;
use crate::text::{digit_char, digit_str, digits_of, padded, push_nat, push_padded};

verus! {

/// The bit that holds the sign of a double.
pub const SIGN_BIT: u64 = 0x8000_0000_0000_0000;

/// The bits that hold the exponent of a double.
pub const EXPONENT_BITS: u64 = 0x7ff0_0000_0000_0000;

/// The bits that hold the fraction of a double.
pub const FRACTION_BITS: u64 = 0x000f_ffff_ffff_ffff;

/// Whether the bit pattern is one of the patterns that stand for no number.
pub open spec fn is_nan(bits: u64) -> bool {
    (bits & EXPONENT_BITS) == EXPONENT_BITS && (bits & FRACTION_BITS) != 0
}

/// Whether the sign bit of the pattern is set.
pub open spec fn is_negative(bits: u64) -> bool {
    (bits & SIGN_BIT) != 0
}

/// The pattern without its sign bit. Among the patterns with one sign a
/// larger one stands for a larger magnitude.
pub open spec fn magnitude(bits: u64) -> u64 {
    bits & !SIGN_BIT
}

/// Where the double with this pattern stands in the order of all doubles,
/// as an integer that grows along the order. Each pattern has a place of
/// its own: minus zero stands just before zero, the patterns that stand for
/// no number stand beyond the infinities, on the side of their sign, and
/// between the infinities the order is that of the numbers.
pub open spec fn line(bits: u64) -> int {
    if is_negative(bits) {
        -(magnitude(bits) as int) - 1
    } else {
        magnitude(bits) as int
    }
}

/// Whether the double with pattern `a` comes before the one with pattern
/// `b` in the order of all doubles, which is the total order of IEEE 754:
/// of two different patterns one comes before the other.
pub open spec fn double_less(a: u64, b: u64) -> bool {
    line(a) < line(b)
}

/// Two patterns that stand at one place are one pattern.
pub proof fn lemma_line_injective(a: u64, b: u64)
    requires
        line(a) == line(b),
    ensures
        a == b,
{
    assert((a & 0x8000_0000_0000_0000) == 0 || (a & 0x8000_0000_0000_0000) == 0x8000_0000_0000_0000)
        by (bit_vector);
    assert((b & 0x8000_0000_0000_0000) == 0 || (b & 0x8000_0000_0000_0000) == 0x8000_0000_0000_0000)
        by (bit_vector);
    assert((a & 0x8000_0000_0000_0000) == (b & 0x8000_0000_0000_0000) && (a
        & !0x8000_0000_0000_0000u64) == (b & !0x8000_0000_0000_0000u64) ==> a == b) by (bit_vector);
}

/// Whether the pattern stands for no number.
pub fn nan(bits: u64) -> (r: bool)
    ensures
        r == is_nan(bits),
{
    (bits & EXPONENT_BITS) == EXPONENT_BITS && (bits & FRACTION_BITS) != 0
}

/// Whether the double with pattern `a` comes before the one with pattern
/// `b` in the order of all doubles.
pub fn less(a: u64, b: u64) -> (r: bool)
    ensures
        r == double_less(a, b),
{
    let a_neg = (a & SIGN_BIT) != 0;
    let b_neg = (b & SIGN_BIT) != 0;
    let a_mag = a & !SIGN_BIT;
    let b_mag = b & !SIGN_BIT;
    if a_neg {
        if b_neg {
            b_mag < a_mag
        } else {
            true
        }
    } else {
        if b_neg {
            false
        } else {
            a_mag < b_mag
        }
    }
}

/// Ten to the power `n`.
pub open spec fn pow10(n: nat) -> nat
    decreases n,
{
    if n == 0 {
        1
    } else {
        10 * pow10((n - 1) as nat)
    }
}

/// The exponent field of a double: eleven bits.
pub open spec fn exponent_field(bits: u64) -> int {
    ((bits & EXPONENT_BITS) >> 52) as int
}

/// The fraction field of a double: fifty-two bits.
pub open spec fn fraction_field(bits: u64) -> int {
    (bits & FRACTION_BITS) as int
}

/// Whether the pattern stands for an infinity.
pub open spec fn is_infinite(bits: u64) -> bool {
    (bits & EXPONENT_BITS) == EXPONENT_BITS && (bits & FRACTION_BITS) == 0
}

/// The integer `m` of a finite double, whose magnitude is `m` times two to
/// the power `binary_exponent`.
pub open spec fn significand(bits: u64) -> nat {
    if exponent_field(bits) == 0 {
        fraction_field(bits) as nat
    } else {
        (fraction_field(bits) + 0x10_0000_0000_0000) as nat
    }
}

/// The power of two by which the significand of a finite double is scaled.
pub open spec fn binary_exponent(bits: u64) -> int {
    if exponent_field(bits) == 0 {
        -1074
    } else {
        exponent_field(bits) - 1075
    }
}

/// The quotient `num / den` rounded to the nearest integer, a tie to the even
/// one.
pub open spec fn round_half_even(num: nat, den: nat) -> nat {
    let q = num / den;
    let r = num % den;
    if 2 * r > den || (2 * r == den && q % 2 == 1) {
        q + 1
    } else {
        q
    }
}

/// The magnitude of a finite double times ten to the power `digits`, rounded
/// to the nearest integer, a tie to the even one.
pub open spec fn scaled(bits: u64, digits: nat) -> nat {
    let m = significand(bits);
    let e = binary_exponent(bits);
    if e >= 0 {
        m * pow2(e as nat) * pow10(digits)
    } else {
        round_half_even(m * pow10(digits), pow2((-e) as nat))
    }
}

/// The text of the number `n` divided by ten to the power `digits`: its
/// whole part, a point, and `digits` digits behind the point.
pub open spec fn point_text(n: nat, digits: nat) -> Seq<char> {
    digits_of(n / pow10(digits)) + seq!['.'] + padded(n % pow10(digits), digits)
}

/// The text of a double with `digits` digits behind the point: `NaN`, `inf`
/// or `-inf` for what is no finite number, else a minus sign where the sign
/// bit is set, and the magnitude rounded to that many digits, a tie to the
/// even digit.
pub open spec fn fixed_text(bits: u64, digits: nat) -> Seq<char> {
    if is_nan(bits) {
        seq!['N', 'a', 'N']
    } else if is_infinite(bits) {
        if is_negative(bits) {
            seq!['-', 'i', 'n', 'f']
        } else {
            seq!['i', 'n', 'f']
        }
    } else if is_negative(bits) {
        seq!['-'] + point_text(scaled(bits, digits), digits)
    } else {
        point_text(scaled(bits, digits), digits)
    }
}

/// The number that a sequence of decimal digits stands for, least
/// significant digit first.
pub open spec fn le_value(d: Seq<u8>) -> nat
    decreases d.len(),
{
    if d.len() == 0 {
        0
    } else {
        d[0] as nat + 10 * le_value(d.drop_first())
    }
}

/// The digits of a sequence as text, most significant digit first.
pub open spec fn le_text(d: Seq<u8>) -> Seq<char>
    decreases d.len(),
{
    if d.len() == 0 {
        Seq::<char>::empty()
    } else {
        le_text(d.drop_first()).push(digit_char(d[0] as int))
    }
}

/// Whether a sequence holds the digits of a number without a leading zero.
pub open spec fn le_digits(d: Seq<u8>) -> bool {
    &&& d.len() >= 1
    &&& forall|i: int| 0 <= i < d.len() ==> #[trigger] d[i] < 10
    &&& (d.len() == 1 || d.last() != 0)
}

/// One digit more at the top adds the digit times its power of ten.
proof fn lemma_le_value_push(d: Seq<u8>, x: u8)
    ensures
        le_value(d.push(x)) == le_value(d) + x * pow10(d.len()),
    decreases d.len(),
{
    if d.len() == 0 {
        assert(d.push(x).drop_first() =~= Seq::<u8>::empty());
        assert(le_value(d.push(x).drop_first()) == 0);
        assert(pow10(0) == 1);
        assert(le_value(d) == 0);
        assert(le_value(d.push(x)) == x as nat + 10 * 0);
        assert(x * pow10(0) == x) by (nonlinear_arith)
            requires
                pow10(0) == 1,
        ;
    } else {
        assert(d.push(x).drop_first() =~= d.drop_first().push(x));
        lemma_le_value_push(d.drop_first(), x);
        let rest = le_value(d.drop_first());
        let p = pow10((d.len() - 1) as nat);
        assert(pow10(d.len()) == 10 * p);
        assert(d.push(x)[0] == d[0]);
        assert(le_value(d.push(x)) == d[0] as nat + 10 * (rest + x * p));
        assert(10 * (rest + x * p) == 10 * rest + x * (10 * p)) by (nonlinear_arith);
    }
}

/// Digits whose top digit is not zero stand for a positive number.
proof fn lemma_le_value_positive(d: Seq<u8>)
    requires
        d.len() >= 1,
        d.last() != 0,
    ensures
        le_value(d) >= 1,
    decreases d.len(),
{
    if d.len() > 1 {
        assert(d.drop_first().last() == d.last());
        lemma_le_value_positive(d.drop_first());
    }
}

/// The text of the digits of a number is the decimal text of the number.
proof fn lemma_le_text(d: Seq<u8>)
    requires
        le_digits(d),
    ensures
        le_text(d) == digits_of(le_value(d)),
    decreases d.len(),
{
    let rest = d.drop_first();
    if d.len() == 1 {
        assert(rest =~= Seq::<u8>::empty());
        assert(le_value(rest) == 0);
        assert(le_text(rest) =~= Seq::<char>::empty());
        assert(le_text(d) =~= seq![digit_char(d[0] as int)]);
    } else {
        assert(rest.last() == d.last());
        assert forall|i: int| 0 <= i < rest.len() implies #[trigger] rest[i] < 10 by {
            assert(rest[i] == d[i + 1]);
        }
        lemma_le_text(rest);
        lemma_le_value_positive(rest);
        let n = le_value(d);
        assert(n == d[0] + 10 * le_value(rest));
        assert(n / 10 == le_value(rest));
        assert(n % 10 == d[0]);
    }
}

/// The powers of ten up to the eighteenth.
proof fn lemma_pow10_bound(k: nat)
    requires
        k <= 18,
    ensures
        1 <= pow10(k) <= 1_000_000_000_000_000_000,
        k < 18 ==> pow10(k) <= 100_000_000_000_000_000,
    decreases k,
{
    reveal_with_fuel(pow10, 20);
}

/// The digits of `m`, least significant first.
fn decimal_digits(m: u64) -> (d: Vec<u8>)
    ensures
        le_digits(d@),
        le_value(d@) == m,
{
    let mut out: Vec<u8> = Vec::new();
    let mut rest: u64 = m;
    proof {
        assert(pow10(0) == 1);
        assert(le_value(out@) == 0);
        assert(rest * pow10(0) == rest) by (nonlinear_arith)
            requires
                pow10(0) == 1,
        ;
    }
    while rest >= 10
        invariant
            forall|i: int| 0 <= i < out@.len() ==> #[trigger] out@[i] < 10,
            le_value(out@) + rest * pow10(out@.len()) == m,
            out@.len() > 0 ==> rest >= 1,
        decreases rest,
    {
        let ghost before = out@;
        let digit = (rest % 10) as u8;
        out.push(digit);
        proof {
            lemma_le_value_push(before, digit);
            let p = pow10(before.len());
            let q = (rest / 10) as int;
            assert(rest == 10 * q + digit);
            assert((10 * q + digit) * p == digit * p + q * (10 * p)) by (nonlinear_arith);
        }
        rest = rest / 10;
    }
    let ghost before = out@;
    out.push(rest as u8);
    proof {
        lemma_le_value_push(before, rest as u8);
    }
    out
}

/// The digits of twice the number.
fn double_digits(d: &Vec<u8>) -> (r: Vec<u8>)
    requires
        le_digits(d@),
    ensures
        le_digits(r@),
        le_value(r@) == 2 * le_value(d@),
{
    let mut out: Vec<u8> = Vec::new();
    let mut carry: u8 = 0;
    let mut i: usize = 0;
    while i < d.len()
        invariant
            i <= d.len(),
            out@.len() == i,
            carry <= 1,
            le_digits(d@),
            forall|k: int| 0 <= k < out@.len() ==> #[trigger] out@[k] < 10,
            le_value(out@) + carry * pow10(i as nat) == 2 * le_value(d@.take(i as int)),
            i > 0 ==> 10 * carry + out@[i - 1] >= 2 * d@[i - 1],
        decreases d.len() - i,
    {
        let ghost before = out@;
        let ghost c0 = carry;
        let t = 2 * d[i] + carry;
        out.push(t % 10);
        carry = t / 10;
        proof {
            lemma_le_value_push(before, (t % 10) as u8);
            assert(d@.take(i + 1) =~= d@.take(i as int).push(d@[i as int]));
            lemma_le_value_push(d@.take(i as int), d@[i as int]);
            let p = pow10(i as nat);
            let lo = (t % 10) as int;
            let hi = (t / 10) as int;
            let x = d@[i as int] as int;
            let c = c0 as int;
            assert(2 * x + c == 10 * hi + lo);
            assert(lo * p + hi * (10 * p) + c * p == (10 * hi + lo) * p + c * p) by (nonlinear_arith);
            assert((2 * x + c) * p == 2 * (x * p) + c * p) by (nonlinear_arith);
        }
        i += 1;
    }
    assert(d@.take(i as int) =~= d@);
    if carry > 0 {
        let ghost before = out@;
        out.push(carry);
        proof {
            lemma_le_value_push(before, carry);
        }
    }
    out
}

/// Writes the digits of a number at the end of `out`, most significant
/// first.
fn push_digits(out: &mut String, d: &Vec<u8>)
    requires
        forall|i: int| 0 <= i < d@.len() ==> #[trigger] d@[i] < 10,
    ensures
        final(out)@ == old(out)@ + le_text(d@),
{
    let mut k: usize = d.len();
    assert(d@.skip(k as int) =~= Seq::<u8>::empty());
    while k > 0
        invariant
            k <= d.len(),
            forall|i: int| 0 <= i < d@.len() ==> #[trigger] d@[i] < 10,
            out@ == old(out)@ + le_text(d@.skip(k as int)),
        decreases k,
    {
        k -= 1;
        out.append(digit_str(d[k]));
        proof {
            assert(d@.skip(k as int).drop_first() =~= d@.skip(k + 1));
            assert(out@ =~= old(out)@ + le_text(d@.skip(k as int)));
        }
    }
    assert(d@.skip(0) =~= d@);
}

/// Ten to the power `digits`.
fn power_of_ten(digits: u32) -> (p: u128)
    requires
        digits <= 18,
    ensures
        p == pow10(digits as nat),
        1 <= p <= 1_000_000_000_000_000_000,
{
    let mut p: u128 = 1;
    let mut k: u32 = 0;
    while k < digits
        invariant
            k <= digits <= 18,
            p == pow10(k as nat),
        decreases digits - k,
    {
        proof {
            lemma_pow10_bound(k as nat);
        }
        p = p * 10;
        k += 1;
    }
    proof {
        lemma_pow10_bound(digits as nat);
    }
    p
}

/// The exponent field has eleven bits and the fraction field fifty-two.
proof fn lemma_field_bounds(bits: u64)
    ensures
        0 <= exponent_field(bits) <= 2047,
        0 <= fraction_field(bits) < 0x10_0000_0000_0000,
        exponent_field(bits) == 2047 <==> (bits & EXPONENT_BITS) == EXPONENT_BITS,
{
    assert(((bits & 0x7ff0_0000_0000_0000) >> 52) <= 2047) by (bit_vector);
    assert((bits & 0x000f_ffff_ffff_ffff) < 0x10_0000_0000_0000) by (bit_vector);
    assert(((bits & 0x7ff0_0000_0000_0000) >> 52) == 2047 <==> (bits & 0x7ff0_0000_0000_0000)
        == 0x7ff0_0000_0000_0000) by (bit_vector);
}

/// Two powers of two that bound what is computed in 128 bits.
proof fn lemma_pow2_120()
    ensures
        pow2(120) == 0x1_0000_0000_0000_0000_0000_0000_0000_00,
        pow2(113) == 0x2_0000_0000_0000_0000_0000_0000_0000,
{
    lemma2_to64();
    lemma2_to64_rest();
    lemma_pow2_adds(64, 56);
    lemma_pow2_adds(64, 49);
}

/// The magnitude of a finite double below two to the power 53 times ten to
/// the power `digits`, rounded to the nearest integer.
fn scaled_small(m: u64, shift: u32, digits: u32) -> (n: u128)
    requires
        m < 0x20_0000_0000_0000,
        1 <= shift <= 1074,
        digits <= 18,
    ensures
        n == round_half_even(m as nat * pow10(digits as nat), pow2(shift as nat)),
{
    let p = power_of_ten(digits);
    proof {
        lemma_pow2_120();
        assert(m as int * p as int <= 0x20_0000_0000_0000 * 1_000_000_000_000_000_000) by (nonlinear_arith)
            requires
                0 <= m < 0x20_0000_0000_0000,
                0 <= p <= 1_000_000_000_000_000_000,
        ;
    }
    let x: u128 = (m as u128) * p;
    if shift > 120 {
        proof {
            lemma_pow2_strictly_increases(120, shift as nat);
            let den = pow2(shift as nat);
            lemma_basic_div(x as int, den as int);
            lemma_small_mod(x as nat, den);
        }
        return 0;
    }
    let mut den: u128 = 1;
    let mut k: u32 = 0;
    proof {
        lemma2_to64();
    }
    while k < shift
        invariant
            k <= shift <= 120,
            den == pow2(k as nat),
        decreases shift - k,
    {
        proof {
            lemma_pow2_120();
            if k < 119 {
                lemma_pow2_strictly_increases((k + 1) as nat, 120);
            }
            lemma_pow2_unfold((k + 1) as nat);
        }
        den = den * 2;
        k += 1;
    }
    proof {
        lemma_pow2_pos(shift as nat);
        lemma_pow2_120();
        if shift < 120 {
            lemma_pow2_strictly_increases(shift as nat, 120);
        }
    }
    let q = x / den;
    let r = x % den;
    if 2 * r > den || (2 * r == den && q % 2 == 1) {
        q + 1
    } else {
        q
    }
}

/// The text of a double with `digits` digits behind the point.
pub fn fixed(bits: u64, digits: u32) -> (r: String)
    requires
        1 <= digits <= 18,
    ensures
        r@ == fixed_text(bits, digits as nat),
{
    proof {
        reveal_strlit("NaN");
        reveal_strlit("inf");
        reveal_strlit("-inf");
        reveal_strlit("-");
        reveal_strlit(".");
        lemma_field_bounds(bits);
    }
    if nan(bits) {
        let r = "NaN".to_string();
        assert(r@ =~= seq!['N', 'a', 'N']);
        return r;
    }
    let negative = (bits & SIGN_BIT) != 0;
    if (bits & EXPONENT_BITS) == EXPONENT_BITS {
        if negative {
            let r = "-inf".to_string();
            assert(r@ =~= seq!['-', 'i', 'n', 'f']);
            return r;
        } else {
            let r = "inf".to_string();
            assert(r@ =~= seq!['i', 'n', 'f']);
            return r;
        }
    }
    let mut out = String::new();
    if negative {
        out.append("-");
    }
    let ghost sign = out@;
    assert(sign =~= (if is_negative(bits) {
        seq!['-']
    } else {
        Seq::<char>::empty()
    }));
    let field = ((bits & EXPONENT_BITS) >> 52) as u32;
    let fraction = bits & FRACTION_BITS;
    let m: u64 = if field == 0 {
        fraction
    } else {
        fraction + 0x10_0000_0000_0000
    };
    assert(m == significand(bits));
    if field >= 1075 {
        let e: u32 = field - 1075;
        let mut whole = decimal_digits(m);
        let mut k: u32 = 0;
        proof {
            lemma2_to64();
        }
        while k < e
            invariant
                k <= e,
                le_digits(whole@),
                le_value(whole@) == m * pow2(k as nat),
            decreases e - k,
        {
            proof {
                lemma_pow2_unfold((k + 1) as nat);
                let v = pow2(k as nat) as int;
                assert(2 * (m * v) == m * (2 * v)) by (nonlinear_arith);
            }
            whole = double_digits(&whole);
            k += 1;
        }
        push_digits(&mut out, &whole);
        out.append(".");
        push_padded(&mut out, 0, digits);
        proof {
            let v = le_value(whole@);
            let p = pow10(digits as nat);
            lemma_pow10_bound(digits as nat);
            lemma_le_text(whole@);
            assert(scaled(bits, digits as nat) == v * p);
            assert((v * p) / p == v && (v * p) % p == 0) by (nonlinear_arith)
                requires
                    p > 0,
                    v >= 0,
            ;
            assert(out@ =~= sign + point_text(v * p, digits as nat));
        }
        out
    } else {
        let shift: u32 = if field == 0 {
            1074
        } else {
            1075 - field
        };
        let n = scaled_small(m, shift, digits);
        let p = power_of_ten(digits);
        push_nat(&mut out, n / p);
        out.append(".");
        push_padded(&mut out, n % p, digits);
        proof {
            assert(scaled(bits, digits as nat) == n);
            assert(out@ =~= sign + point_text(n as nat, digits as nat));
        }
        out
    }
}

/// How often a number can be halved before it is one or less: for a
/// positive number the place of its highest bit.
pub open spec fn halvings(a: nat) -> nat
    decreases a,
{
    if a <= 1 {
        0
    } else {
        1 + halvings(a / 2)
    }
}

/// The bit pattern of the double that equals the integer `i`, which every
/// 32-bit integer has: the sign, the exponent field 1023 plus the place of
/// the highest bit of the magnitude, and the magnitude shifted so that this
/// bit stands just above the fraction.
pub open spec fn double_of_int(i: int) -> u64 {
    if i == 0 {
        0
    } else {
        let a = (if i < 0 {
            -i
        } else {
            i
        }) as nat;
        let k = halvings(a);
        ((if i < 0 {
            0x8000_0000_0000_0000int
        } else {
            0int
        }) + (1022 + k) * 0x10_0000_0000_0000 + a * pow2((52 - k) as nat)) as u64
    }
}

/// A positive number lies between two neighbouring powers of two.
proof fn lemma_halvings(a: nat)
    requires
        a >= 1,
    ensures
        pow2(halvings(a)) <= a < pow2(halvings(a) + 1),
    decreases a,
{
    lemma2_to64();
    if a > 1 {
        lemma_halvings(a / 2);
        lemma_pow2_unfold(halvings(a));
        lemma_pow2_unfold(halvings(a) + 1);
    }
}

/// The double that equals a 32-bit integer is a number: its pattern is none
/// of those that stand for no number.
pub proof fn lemma_widened_is_a_number(i: i32)
    ensures
        !is_nan(double_of_int(i as int)),
{
    if i == 0 {
        assert(!((0u64 & 0x7ff0_0000_0000_0000) == 0x7ff0_0000_0000_0000)) by (bit_vector);
    } else {
        let a = (if i < 0 {
            -(i as int)
        } else {
            i as int
        }) as nat;
        let k = halvings(a);
        lemma_halvings(a);
        lemma2_to64();
        lemma2_to64_rest();
        if k > 31 {
            lemma_pow2_strictly_increases(31, k);
        }
        lemma_pow2_adds(k, (52 - k) as nat);
        lemma_pow2_adds(k + 1, (52 - k) as nat);
        let q = pow2((52 - k) as nat) as int;
        lemma_pow2_pos((52 - k) as nat);
        let lo = pow2(k) as int;
        let hi = pow2(k + 1) as int;
        assert(lo * q <= a * q) by (nonlinear_arith)
            requires
                lo <= a,
                q > 0,
        ;
        assert(a * q < hi * q) by (nonlinear_arith)
            requires
                a < hi,
                q > 0,
        ;
        assert(pow2(53) == 0x20_0000_0000_0000);
        let s: u64 = if i < 0 {
            0x8000_0000_0000_0000
        } else {
            0
        };
        let e: u64 = (1023 + k) as u64;
        let f: u64 = (a * q - 0x10_0000_0000_0000) as u64;
        let x: u64 = double_of_int(i as int);
        assert(x == s + e * 0x10_0000_0000_0000 + f);
        assert((x & 0x7ff0_0000_0000_0000) != 0x7ff0_0000_0000_0000) by (bit_vector)
            requires
                x == s + e * 0x10_0000_0000_0000 + f,
                s == 0 || s == 0x8000_0000_0000_0000,
                e <= 1054,
                f < 0x10_0000_0000_0000,
        ;
    }
}

/// The bit pattern of the double that equals `i`.
pub fn widen(i: i32) -> (bits: u64)
    ensures
        bits == double_of_int(i as int),
{
    if i == 0 {
        return 0;
    }
    let a: u64 = if i < 0 {
        (-(i as i64)) as u64
    } else {
        i as u64
    };
    let mut t: u64 = a;
    let mut k: u64 = 0;
    proof {
        lemma2_to64();
    }
    while t > 1
        invariant
            1 <= t <= a <= 0x8000_0000,
            halvings(a as nat) == k + halvings(t as nat),
            k <= 31,
            t * pow2(k as nat) <= a,
        decreases t,
    {
        proof {
            lemma_pow2_unfold((k + 1) as nat);
            let p = pow2(k as nat) as int;
            let h = (t / 2) as int;
            assert(h * (2 * p) <= t * p) by (nonlinear_arith)
                requires
                    2 * h <= t,
                    p >= 0,
            ;
            lemma2_to64();
            if k >= 31 {
                lemma_pow2_strictly_increases(31, (k + 1) as nat);
                assert(h * pow2((k + 1) as nat) >= pow2((k + 1) as nat)) by (nonlinear_arith)
                    requires
                        h >= 1,
                ;
            }
        }
        t = t / 2;
        k += 1;
    }
    let mut q: u64 = 1;
    let mut j: u64 = 0;
    proof {
        lemma2_to64();
    }
    while j < 52 - k
        invariant
            k <= 31,
            j <= 52 - k,
            q == pow2(j as nat),
            q <= 0x10_0000_0000_0000,
        decreases 52 - k - j,
    {
        proof {
            lemma_pow2_unfold((j + 1) as nat);
            lemma2_to64();
            lemma2_to64_rest();
            if j + 1 < 52 {
                lemma_pow2_strictly_increases((j + 1) as nat, 52);
            }
        }
        q = q * 2;
        j += 1;
    }
    proof {
        lemma_halvings(a as nat);
        lemma_pow2_adds((k + 1) as nat, (52 - k) as nat);
        lemma2_to64();
        lemma2_to64_rest();
        let hi = pow2((k + 1) as nat) as int;
        assert(a * q < hi * q) by (nonlinear_arith)
            requires
                a < hi,
                q > 0,
        ;
        assert(pow2(53) == 0x20_0000_0000_0000);
    }
    let sign: u64 = if i < 0 {
        0x8000_0000_0000_0000
    } else {
        0
    };
    sign + (1022 + k) * 0x10_0000_0000_0000 + a * q
}

} // verus!
