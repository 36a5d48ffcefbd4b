//! Which 64-bit binary floating-point number is nearest to a decimal number.
use crate::natural;
use crate::natural::Natural;
use crate::text;
use vstd::prelude::*;

verus! {

/// The size of a floating-point number: `m` times `2` to the power of `k - 1074`,
/// with `k` as small as 53 bits for `m` allow, or infinity.
#[derive(Debug, Clone, Copy, PartialEq, Eq, Structural)]
pub enum Magnitude {
    Finite { m: u64, k: u64 },
    Infinite,
}

/// How many powers of two there are.
pub const EXPONENTS: u64 = 2046;

/// The least whole number that takes more than 53 bits.
pub const MANTISSA_END: u64 = 0x20_0000_0000_0000;

/// The least power of two, from `k` on, by which `a / b` must be divided to come to
/// lie below the end of the mantissa.
pub open spec fn exponent_from(a: nat, b: nat, k: nat) -> nat
    decreases EXPONENTS - k,
{
    if k >= EXPONENTS || a < b * natural::twos(k) * MANTISSA_END {
        k
    } else {
        exponent_from(a, b, k + 1)
    }
}

/// The whole number nearest to `a / b`; of two that are as near, the even one.
pub open spec fn nearest(a: nat, b: nat) -> nat {
    let q = a / b;
    let r = a % b;
    if 2 * r > b || (2 * r == b && q % 2 == 1) {
        q + 1
    } else {
        q
    }
}

/// The floating-point number nearest to `n / d`.
pub open spec fn ratio_magnitude(n: nat, d: nat) -> Magnitude {
    let a = n * natural::twos(1074);
    let k = exponent_from(a, d, 0);
    if k >= EXPONENTS {
        Magnitude::Infinite
    } else {
        let m = nearest(a, d * natural::twos(k));
        if m < MANTISSA_END {
            Magnitude::Finite { m: m as u64, k: k as u64 }
        } else if k + 1 < EXPONENTS {
            Magnitude::Finite { m: MANTISSA_END / 2, k: (k + 1) as u64 }
        } else {
            Magnitude::Infinite
        }
    }
}

/// The floating-point number nearest to `n` times `10` to the power of `scale`.
pub open spec fn decimal_magnitude(n: nat, scale: int) -> Magnitude {
    if scale >= 0 {
        ratio_magnitude(n * natural::tens(scale as nat), 1)
    } else {
        ratio_magnitude(n, natural::tens((-scale) as nat))
    }
}

/// A quotient of whole numbers.
proof fn lemma_quotient(a: nat, b: nat, q: nat)
    requires
        b > 0,
        q * b <= a < (q + 1) * b,
    ensures
        a / b == q,
        a % b == a - q * b,
{
    assert(a - q * b < b) by (nonlinear_arith)
        requires
            a < (q + 1) * b,
    ;
    assert(a == q as int * b as int + (a - q * b));
    vstd::arithmetic::div_mod::lemma_fundamental_div_mod_converse(
        a as int,
        b as int,
        q as int,
        a - q * b,
    );
}

/// Divides, where the quotient is known to lie below the end of the mantissa, and
/// rounds.
fn round_quotient(a: &Natural, b: &Natural) -> (m: u64)
    requires
        b@ > 0,
        a@ < b@ * MANTISSA_END,
    ensures
        m == nearest(a@, b@),
        m <= MANTISSA_END,
{
    let mut q: u64 = 0;
    let mut step: u64 = MANTISSA_END;
    proof {
        lemma_mantissa_end();
    }
    assert(0 * b@ == 0);
    assert(b@ * MANTISSA_END == (0 + MANTISSA_END) * b@) by (nonlinear_arith);
    while step > 1
        invariant
            1 <= step <= MANTISSA_END,
            step > 1 ==> step % 2 == 0,
            is_power(step),
            q + step <= MANTISSA_END,
            q * b@ <= a@ < (q + step) * b@,
        decreases step,
    {
        proof {
            lemma_half_power(step);
        }
        step = step / 2;
        let t: u64 = q + step;
        let product: Natural = b.times_plus(t, 0);
        assert(product@ == t * b@) by (nonlinear_arith)
            requires
                product@ == b@ * t + 0,
        ;
        if !a.less_than(&product) {
            q = t;
        }
    }
    let twice: Natural = a.times_plus(2, 0);
    let middle: Natural = b.times_plus(2 * q + 1, 0);
    let up: bool = middle.less_than(&twice);
    let down: bool = twice.less_than(&middle);
    proof {
        let r = a@ - q * b@;
        lemma_quotient(a@, b@, q as nat);
        assert(middle@ == 2 * (q * b@) + b@) by (nonlinear_arith)
            requires
                middle@ == b@ * (2 * q + 1) + 0,
        ;
        assert(twice@ == 2 * a@);
    }
    if up || (!down && q % 2 == 1) {
        q + 1
    } else {
        q
    }
}

/// Whether a number is a power of two up to the end of the mantissa.
spec fn is_power(x: u64) -> bool {
    exists|i: nat| i <= 53 && x == #[trigger] natural::twos(i)
}

proof fn lemma_mantissa_end()
    ensures
        natural::twos(53) == MANTISSA_END,
{
    reveal_with_fuel(natural::twos, 54);
}

proof fn lemma_half_power(x: u64)
    requires
        is_power(x),
        x > 1,
    ensures
        x % 2 == 0,
        is_power((x / 2) as u64),
        x / 2 > 1 ==> (x / 2) % 2 == 0,
{
    let i = choose|i: nat| i <= 53 && x == #[trigger] natural::twos(i);
    assert(i > 0);
    assert(natural::twos(i) == 2 * natural::twos((i - 1) as nat));
    assert(x / 2 == natural::twos((i - 1) as nat));
    if i > 1 {
        assert(natural::twos((i - 1) as nat) == 2 * natural::twos((i - 2) as nat));
    }
}

/// Finds the floating-point number nearest to `n / d`.
pub fn round_ratio(n: &Natural, d: &Natural) -> (r: Magnitude)
    requires
        d@ > 0,
    ensures
        r == ratio_magnitude(n@, d@),
{
    let mut a: Natural = n.times_plus(1, 0);
    let mut i: u64 = 0;
    assert(n@ * natural::twos(0) == n@);
    // 1074 is 179 times 6.
    while i < 179
        invariant
            i <= 179,
            a@ == n@ * natural::twos((6 * i) as nat),
        decreases 179 - i,
    {
        proof {
            natural::lemma_twos_add((6 * i) as nat, 6);
            reveal_with_fuel(natural::twos, 7);
            assert(natural::twos(6) == 64);
            let t = natural::twos((6 * i) as nat);
            assert(n@ * t * 64 + 0 == n@ * (t * 64)) by (nonlinear_arith);
        }
        a = a.times_plus(64, 0);
        i += 1;
    }
    let mut b: Natural = d.times_plus(1, 0);
    let mut end: Natural = d.times_plus(MANTISSA_END, 0);
    let mut k: u64 = 0;
    proof {
        assert(d@ * natural::twos(0) == d@);
        assert(d@ * natural::twos(0) * MANTISSA_END == d@ * MANTISSA_END);
    }
    while k < EXPONENTS && !a.less_than(&end)
        invariant
            k <= EXPONENTS,
            d@ > 0,
            a@ == n@ * natural::twos(1074),
            b@ == d@ * natural::twos(k as nat),
            end@ == b@ * MANTISSA_END,
            exponent_from(a@, d@, 0) == exponent_from(a@, d@, k as nat),
        decreases EXPONENTS - k,
    {
        proof {
            let t = natural::twos(k as nat);
            assert(natural::twos(k as nat + 1) == 2 * t);
            assert(d@ * t * 2 + 0 == d@ * (2 * t)) by (nonlinear_arith);
            let x = b@;
            assert(x * MANTISSA_END * 2 + 0 == (x * 2) * MANTISSA_END) by (nonlinear_arith);
        }
        b = b.times_plus(2, 0);
        end = end.times_plus(2, 0);
        k += 1;
    }
    if k >= EXPONENTS {
        return Magnitude::Infinite;
    }
    proof {
        natural::lemma_twos_add(0, k as nat);
        assert(b@ > 0) by (nonlinear_arith)
            requires
                b@ == d@ * natural::twos(k as nat),
                d@ > 0,
                natural::twos(k as nat) > 0,
        ;
    }
    let m: u64 = round_quotient(&a, &b);
    if m < MANTISSA_END {
        Magnitude::Finite { m, k }
    } else if k + 1 < EXPONENTS {
        Magnitude::Finite { m: MANTISSA_END / 2, k: k + 1 }
    } else {
        Magnitude::Infinite
    }
}

/// Zero is zero at every scale.
proof fn lemma_zero(n: nat, d: nat)
    requires
        n == 0,
        d > 0,
    ensures
        ratio_magnitude(n, d) == (Magnitude::Finite { m: 0, k: 0 }),
{
    assert(0 * natural::twos(1074) == 0);
    lemma_small_ratio(n, d);
}

proof fn lemma_small_ratio(n: nat, d: nat)
    requires
        2 * (n * natural::twos(1074)) < d,
    ensures
        ratio_magnitude(n, d) == (Magnitude::Finite { m: 0, k: 0 }),
{
    let a = n * natural::twos(1074);
    assert(d * natural::twos(0) == d) by (nonlinear_arith)
        requires
            natural::twos(0) == 1,
    ;
    assert(d * MANTISSA_END >= d) by (nonlinear_arith)
        requires
            MANTISSA_END >= 1,
    ;
    assert(exponent_from(a, d, 0) == 0);
    assert(0 * d == 0 && (0 + 1) * d == d) by (nonlinear_arith);
    lemma_quotient(a, d, 0);
}

/// A number that divides by the least power of ten that counts stays below half of
/// the least floating-point number.
proof fn lemma_tiny(n: nat, scale: int, len: nat)
    requires
        n < natural::tens(len),
        len + scale < -400,
    ensures
        decimal_magnitude(n, scale) == (Magnitude::Finite { m: 0, k: 0 }),
{
    let d = natural::tens((-scale) as nat);
    natural::lemma_tens_add(0, (-scale) as nat);
    if n == 0 {
        lemma_zero(n, d);
    } else {
        let p = natural::tens(400);
        let t = natural::twos(1074);
        natural::lemma_tens_and_twos(400);
        natural::lemma_twos_add(1074, 126);
        natural::lemma_twos_add(0, 125);
        assert(natural::twos(126) == 2 * natural::twos(125));
        assert(natural::twos(1200) >= 2 * t) by (nonlinear_arith)
            requires
                natural::twos(1200) == t * natural::twos(126),
                natural::twos(126) >= 2,
        ;
        natural::lemma_tens_add(len, 400);
        natural::lemma_tens_grow(len + 400, (-scale) as nat);
        assert(n * p < natural::tens(len) * p) by (nonlinear_arith)
            requires
                n < natural::tens(len),
                p > 0,
        ;
        assert(2 * (n * t) <= n * p) by (nonlinear_arith)
            requires
                2 * t <= p,
        ;
        lemma_small_ratio(n, d);
    }
}

proof fn lemma_large_ratio(n: nat, d: nat, k: nat)
    requires
        n >= d * natural::tens(400),
        k <= EXPONENTS,
    ensures
        exponent_from(n * natural::twos(1074), d, k) == EXPONENTS,
    decreases EXPONENTS - k,
{
    if k < EXPONENTS {
        let a = n * natural::twos(1074);
        let t = natural::twos(k);
        natural::lemma_tens_and_twos(400);
        lemma_mantissa_end();
        natural::lemma_twos_add(k, 53);
        natural::lemma_twos_add(k + 53, (2274 - 53 - k) as nat);
        natural::lemma_twos_add(1200, 1074);
        let u = natural::twos((2274 - 53 - k) as nat);
        natural::lemma_twos_add(0, (2274 - 53 - k) as nat);
        natural::lemma_twos_add(0, 1074);
        assert(a >= d * (natural::twos(1200) * natural::twos(1074))) by (nonlinear_arith)
            requires
                a == n * natural::twos(1074),
                n >= d * natural::tens(400),
                natural::tens(400) >= natural::twos(1200),
        ;
        assert(d * t * MANTISSA_END <= d * natural::twos(2274)) by (nonlinear_arith)
            requires
                natural::twos(2274) == t * MANTISSA_END * u,
                u >= 1,
        ;
        lemma_large_ratio(n, d, k + 1);
    }
}

/// A number as large as the power of ten that no floating-point number reaches is
/// infinite among them.
proof fn lemma_huge(n: nat, scale: int, len: nat)
    requires
        len >= 1,
        n >= natural::tens((len - 1) as nat),
        len + scale > 400,
    ensures
        decimal_magnitude(n, scale) == Magnitude::Infinite,
{
    let low = natural::tens((len - 1) as nat);
    let p = natural::tens(400);
    if scale >= 0 {
        let q = natural::tens(scale as nat);
        natural::lemma_tens_add((len - 1) as nat, scale as nat);
        natural::lemma_tens_grow(400, (len - 1 + scale) as nat);
        assert(n * q >= low * q) by (nonlinear_arith)
            requires
                n >= low,
        ;
        lemma_large_ratio(n * q, 1, 0);
    } else {
        let d = natural::tens((-scale) as nat);
        natural::lemma_tens_add((-scale) as nat, 400);
        natural::lemma_tens_grow((400 - scale) as nat, (len - 1) as nat);
        lemma_large_ratio(n, d, 0);
    }
}

/// Digits denote less than the power of ten of their number, and no less than that of
/// one fewer if they begin with none that is zero.
proof fn lemma_digits_bounds(s: Seq<char>)
    requires
        text::all_digits(s),
    ensures
        0 <= text::digits_value(s) < natural::tens(s.len()),
        s.len() > 0 && s[0] != '0' ==> text::digits_value(s) >= natural::tens(
            (s.len() - 1) as nat,
        ),
    decreases s.len(),
{
    if s.len() > 0 {
        let front = s.drop_last();
        lemma_digits_bounds(front);
        assert(text::is_digit(s.last()));
        if s.len() > 1 {
            assert(front[0] == s[0]);
        }
    }
}

/// Leading zeros do not count.
proof fn lemma_leading_zeros(s: Seq<char>, k: int)
    requires
        0 <= k <= s.len(),
        forall|i: int| 0 <= i < k ==> #[trigger] s[i] == '0',
    ensures
        text::digits_value(s) == text::digits_value(s.skip(k)),
    decreases s.len(),
{
    if k == s.len() {
        assert(s.skip(k) =~= Seq::<char>::empty());
        if s.len() > 0 {
            lemma_leading_zeros(s.drop_last(), k - 1);
            assert(s.drop_last().skip(k - 1) =~= Seq::<char>::empty());
        }
    } else {
        lemma_leading_zeros(s.drop_last(), k);
        assert(s.skip(k).drop_last() =~= s.drop_last().skip(k));
        assert(s.skip(k).last() == s.last());
    }
}

/// The natural number that digits denote.
fn digits_number(digits: &Vec<char>) -> (n: Natural)
    requires
        text::all_digits(digits@),
    ensures
        n@ == text::digits_value(digits@),
{
    let mut n: Natural = Natural::zero();
    let mut i: usize = 0;
    assert(digits@.take(0) =~= Seq::<char>::empty());
    while i < digits.len()
        invariant
            i <= digits@.len(),
            text::all_digits(digits@),
            n@ == text::digits_value(digits@.take(i as int)),
        decreases digits@.len() - i,
    {
        assert(text::is_digit(digits@[i as int]));
        let d: u64 = digits[i] as u64 - '0' as u64;
        assert(digits@.take(i + 1).drop_last() =~= digits@.take(i as int));
        n = n.times_plus(10, d);
        i += 1;
    }
    assert(digits@.take(digits@.len() as int) =~= digits@);
    n
}

/// A number multiplied by a power of ten.
fn times_tens(n: &Natural, k: u128) -> (r: Natural)
    ensures
        r@ == n@ * natural::tens(k as nat),
{
    let mut r: Natural = n.times_plus(1, 0);
    let mut i: u128 = 0;
    assert(n@ * natural::tens(0) == n@);
    while i < k
        invariant
            i <= k,
            r@ == n@ * natural::tens(i as nat),
        decreases k - i,
    {
        proof {
            let t = natural::tens(i as nat);
            assert(natural::tens(i as nat + 1) == 10 * t);
            assert(n@ * t * 10 + 0 == n@ * (10 * t)) by (nonlinear_arith);
        }
        r = r.times_plus(10, 0);
        i += 1;
    }
    r
}

/// How far an exponent is followed: no text is so long that it matters beyond.
pub const SCALE_END: i128 = 0x10_0000_0000_0000_0000_0000_0000;

/// A scale as far as it is followed.
pub open spec fn followed(scale: int) -> int {
    if scale > SCALE_END {
        SCALE_END as int
    } else if scale < -SCALE_END {
        -SCALE_END as int
    } else {
        scale
    }
}

/// Finds the floating-point number nearest to a decimal number. Its digits are scaled
/// by the power of ten that `exponent` states, less `places`; `exponent` may be short
/// of what it stands for where that is further than is followed.
pub(crate) fn round_decimal(digits: &Vec<char>, places: usize, exponent: i128, stands_for: Ghost<int>) -> (r:
    Magnitude)
    requires
        text::all_digits(digits@),
        places <= digits@.len(),
        exponent == followed(stands_for@),
    ensures
        r == decimal_magnitude(
            text::digits_value(digits@) as nat,
            stands_for@ - places,
        ),
{
    let ghost scale = stands_for@ - places;
    let ghost n = text::digits_value(digits@) as nat;
    let mut zeros: usize = 0;
    while zeros < digits.len() && digits[zeros] == '0'
        invariant
            zeros <= digits@.len(),
            forall|i: int| 0 <= i < zeros ==> #[trigger] digits@[i] == '0',
        decreases digits@.len() - zeros,
    {
        zeros += 1;
    }
    let ghost rest = digits@.skip(zeros as int);
    proof {
        lemma_leading_zeros(digits@, zeros as int);
        assert(text::all_digits(rest));
        lemma_digits_bounds(rest);
    }
    if zeros == digits.len() {
        proof {
            assert(rest =~= Seq::<char>::empty());
            assert(0 * natural::tens(scale as nat) == 0);
            natural::lemma_tens_add(0, (-scale) as nat);
            lemma_zero(0, 1);
            lemma_zero(0, natural::tens((-scale) as nat));
        }
        return Magnitude::Finite { m: 0, k: 0 };
    }
    let len: i128 = (digits.len() - zeros) as i128;
    let point: i128 = len + exponent - places as i128;
    if point > 400 {
        proof {
            lemma_huge(n, scale, len as nat);
        }
        return Magnitude::Infinite;
    }
    if point < -400 {
        proof {
            lemma_tiny(n, scale, len as nat);
        }
        return Magnitude::Finite { m: 0, k: 0 };
    }
    assert(exponent == stands_for@);
    let by: i128 = exponent - places as i128;
    let number: Natural = digits_number(digits);
    let zero: Natural = Natural::zero();
    let one: Natural = zero.times_plus(0, 1);
    if by >= 0 {
        let scaled: Natural = times_tens(&number, by as u128);
        round_ratio(&scaled, &one)
    } else {
        assert(-by <= 400 + len);
        let unit: Natural = times_tens(&one, (-by) as u128);
        proof {
            natural::lemma_tens_add(0, (-scale) as nat);
        }
        round_ratio(&number, &unit)
    }
}

/// Rounding moves a quotient by no more than a half, and to an even number from the
/// middle between two.
pub proof fn law_rounding_goes_to_the_nearest(a: nat, b: nat)
    requires
        b > 0,
    ensures
        -(b as int) <= 2 * (a - b * nearest(a, b)) <= b,
        2 * (a - b * nearest(a, b)) == b || 2 * (a - b * nearest(a, b)) == -b ==> nearest(a, b) % 2
            == 0,
{
    let q = a / b;
    vstd::arithmetic::div_mod::lemma_fundamental_div_mod(a as int, b as int);
    assert(b * (q + 1) == b * q + b) by (nonlinear_arith);
}

proof fn lemma_exponent(a: nat, b: nat, k: nat)
    requires
        k <= EXPONENTS,
    ensures
        ({
            let e = exponent_from(a, b, k);
            &&& k <= e <= EXPONENTS
            &&& e < EXPONENTS ==> a < b * natural::twos(e) * MANTISSA_END
            &&& e > k ==> a >= b * natural::twos((e - 1) as nat) * MANTISSA_END
        }),
    decreases EXPONENTS - k,
{
    if k < EXPONENTS && a >= b * natural::twos(k) * MANTISSA_END {
        lemma_exponent(a, b, k + 1);
    }
}

/// The floating-point number that is found for `n / d` has 53 bits at most, all of them
/// used unless it has the least exponent, and lies no further from `n / d` than half of
/// its last bit.
pub proof fn law_ratios_are_rounded_to_the_nearest(n: nat, d: nat)
    requires
        d > 0,
    ensures
        ratio_magnitude(n, d) matches Magnitude::Finite { m, k } ==> {
            let unit = d * natural::twos(k as nat);
            &&& m < 0x20_0000_0000_0000
            &&& k < 2046
            &&& k > 0 ==> m >= 0x10_0000_0000_0000
            &&& -(unit as int) <= 2 * (n * natural::twos(1074) - unit * m) <= unit
        },
{
    let a = n * natural::twos(1074);
    let e = exponent_from(a, d, 0);
    lemma_exponent(a, d, 0);
    if e < EXPONENTS {
        let unit = d * natural::twos(e);
        natural::lemma_twos_add(e, 1);
        assert(natural::twos(e + 1) == 2 * natural::twos(e));
        natural::lemma_twos_add(0, e);
        assert(unit > 0) by (nonlinear_arith)
            requires
                unit == d * natural::twos(e),
                d > 0,
                natural::twos(e) > 0,
        ;
        let m = nearest(a, unit);
        law_rounding_goes_to_the_nearest(a, unit);
        assert(m <= MANTISSA_END) by (nonlinear_arith)
            requires
                -(unit as int) <= 2 * (a - unit * m),
                a < unit * MANTISSA_END,
                unit > 0,
        ;
        if e > 0 {
            let half = natural::twos((e - 1) as nat);
            assert(natural::twos(e) == 2 * half);
            assert(m >= MANTISSA_END / 2) by (nonlinear_arith)
                requires
                    2 * (a - unit * m) <= unit,
                    a >= d * half * MANTISSA_END,
                    unit == d * (2 * half),
                    unit > 0,
                    MANTISSA_END == 0x20_0000_0000_0000u64,
            ;
        }
        if m == MANTISSA_END {
            let wide = d * natural::twos(e + 1);
            assert(wide == 2 * unit) by (nonlinear_arith)
                requires
                    wide == d * (2 * natural::twos(e)),
                    unit == d * natural::twos(e),
            ;
            assert(wide * 0x10_0000_0000_0000 == unit * m) by (nonlinear_arith)
                requires
                    wide == 2 * unit,
                    m == 0x20_0000_0000_0000,
            ;
        }
    }
}

/// A number is infinite only if it is too large for every finite one: at least as large
/// as the middle between the largest of them and the one that would follow.
pub proof fn law_only_large_ratios_are_infinite(n: nat, d: nat)
    requires
        d > 0,
    ensures
        ratio_magnitude(n, d) is Infinite <==> 2 * (n * natural::twos(1074)) >= d * natural::twos(
            2045,
        ) * 0x3f_ffff_ffff_ffff,
{
    let a = n * natural::twos(1074);
    let e = exponent_from(a, d, 0);
    let last = d * natural::twos(2045);
    lemma_exponent(a, d, 0);
    natural::lemma_twos_add(0, 2045);
    assert(last > 0) by (nonlinear_arith)
        requires
            last == d * natural::twos(2045),
            d > 0,
            natural::twos(2045) > 0,
    ;
    if e >= EXPONENTS {
        assert(a >= last * MANTISSA_END);
        assert(2 * a >= last * 0x3f_ffff_ffff_ffff) by (nonlinear_arith)
            requires
                a >= last * 0x20_0000_0000_0000,
        ;
    } else if e == 2045 {
        let m = nearest(a, last);
        law_rounding_goes_to_the_nearest(a, last);
        assert(m <= MANTISSA_END) by (nonlinear_arith)
            requires
                -(last as int) <= 2 * (a - last * m),
                a < last * 0x20_0000_0000_0000,
                last > 0,
                MANTISSA_END == 0x20_0000_0000_0000u64,
        ;
        if m == MANTISSA_END {
            assert(2 * a >= last * 0x3f_ffff_ffff_ffff) by (nonlinear_arith)
                requires
                    -(last as int) <= 2 * (a - last * m),
                    m == 0x20_0000_0000_0000,
            ;
        } else {
            assert(2 * a <= last * 0x3f_ffff_ffff_ffff) by (nonlinear_arith)
                requires
                    2 * (a - last * m) <= last,
                    m <= 0x1f_ffff_ffff_ffff,
                    last > 0,
            ;
            if 2 * a == last * 0x3f_ffff_ffff_ffff {
                assert(m == 0x1f_ffff_ffff_ffff) by (nonlinear_arith)
                    requires
                        2 * a == last * 0x3f_ffff_ffff_ffff,
                        2 * (a - last * m) <= last,
                        m <= 0x1f_ffff_ffff_ffff,
                        last > 0,
                ;
                assert(2 * (a - last * m) == last) by (nonlinear_arith)
                    requires
                        2 * a == last * 0x3f_ffff_ffff_ffff,
                        m == 0x1f_ffff_ffff_ffff,
                ;
            }
        }
    } else {
        let unit = d * natural::twos(e);
        natural::lemma_twos_add((2044 - e) as nat, e);
        natural::lemma_twos_add(0, (2044 - e) as nat);
        assert(natural::twos(2045) == 2 * natural::twos(2044));
        let t = natural::twos((2044 - e) as nat);
        assert(2 * a < last * 0x3f_ffff_ffff_ffff) by (nonlinear_arith)
            requires
                a < unit * 0x20_0000_0000_0000,
                unit == d * natural::twos(e),
                last == d * (2 * (t * natural::twos(e))),
                t >= 1,
                last > 0,
        ;
    }
}

} // verus!
