//! Numbers as text.
use vstd::arithmetic::div_mod::{
    lemma_basic_div, lemma_div_multiples_vanish, lemma_fundamental_div_mod,
    lemma_fundamental_div_mod_converse, lemma_mod_multiples_basic, lemma_small_mod,
};
use vstd::arithmetic::power2::{
    lemma2_to64, lemma2_to64_rest, lemma_pow2_adds, lemma_pow2_pos, lemma_pow2_strictly_increases,
    lemma_pow2_unfold, pow2,
};
use vstd::prelude::*;
use crate::text::push_str;

verus! {

/// The character of a digit.
pub open spec fn digit(d: int) -> char {
    (('0' as int) + d) as char
}

/// A number in decimal.
pub open spec fn decimal(n: nat) -> Seq<char>
    decreases n,
{
    if n < 10 {
        seq![digit(n as int)]
    } else {
        decimal(n / 10).push(digit((n % 10) as int))
    }
}

fn digit_char(d: u8) -> (c: char)
    requires
        d < 10,
    ensures
        c == digit(d as int),
{
    (48u8 + d) as char
}

/// Appends a number in decimal.
pub fn push_wide(out: &mut Vec<char>, n: u128)
    ensures
        final(out)@ == old(out)@ + decimal(n as nat),
    decreases n,
{
    if n >= 10 {
        push_wide(out, n / 10);
    }
    let d: u8 = (n % 10) as u8;
    out.push(digit_char(d));
    proof {
        assert(out@ =~= old(out)@ + decimal(n as nat));
    }
}

/// Appends a number in decimal.
pub fn push_decimal(out: &mut Vec<char>, n: u64)
    ensures
        final(out)@ == old(out)@ + decimal(n as nat),
{
    push_wide(out, n as u128);
}

/// A number in decimal, with a sign where it is negative.
pub open spec fn signed_decimal(n: int) -> Seq<char> {
    if n < 0 {
        seq!['-'] + decimal((-n) as nat)
    } else {
        decimal(n as nat)
    }
}

/// Appends a number in decimal, with a sign where it is negative.
pub fn push_signed(out: &mut Vec<char>, n: i32)
    ensures
        final(out)@ == old(out)@ + signed_decimal(n as int),
{
    let wide: i64 = n as i64;
    if wide < 0 {
        out.push('-');
        push_decimal(out, (-wide) as u64);
        proof {
            assert(out@ =~= old(out)@ + signed_decimal(n as int));
        }
    } else {
        push_decimal(out, wide as u64);
    }
}

/// Every character of a decimal is a digit, and there is at least one.
pub proof fn decimal_digits(n: nat)
    ensures
        decimal(n).len() > 0,
        forall|j: int|
            0 <= j < decimal(n).len() ==> '0' as int <= (#[trigger] decimal(n)[j]) as int
                <= '9' as int,
    decreases n,
{
    if n >= 10 {
        decimal_digits(n / 10);
    }
}

/// The number that decimal digits stand for.
pub open spec fn value_of(s: Seq<char>) -> int
    decreases s.len(),
{
    if s.len() == 0 {
        0
    } else {
        value_of(s.drop_last()) * 10 + (s.last() as int - '0' as int)
    }
}

/// A decimal stands for the number it was made of.
pub proof fn decimal_reads_back(n: nat)
    ensures
        value_of(decimal(n)) == n,
    decreases n,
{
    if n >= 10 {
        decimal_reads_back(n / 10);
        assert(decimal(n).drop_last() =~= decimal(n / 10));
    } else {
        assert(decimal(n).drop_last() =~= seq![]);
        assert(value_of(decimal(n).drop_last()) == 0);
    }
}

/// A power of ten.
pub open spec fn ten_to(places: nat) -> nat
    decreases places,
{
    if places == 0 {
        1
    } else {
        10 * ten_to((places - 1) as nat)
    }
}

/// The last `places` digits of a number, with the zeros that lead them.
pub open spec fn padded(n: nat, places: nat) -> Seq<char>
    decreases places,
{
    if places == 0 {
        seq![]
    } else {
        padded(n / 10, (places - 1) as nat).push(digit((n % 10) as int))
    }
}

/// The digits that a single-precision number is made of, by its bits.
pub open spec fn mantissa(bits: u32) -> nat {
    let fraction = (bits % 0x80_0000) as nat;
    if bits / 0x80_0000 % 256 == 0 {
        fraction
    } else {
        0x80_0000 + fraction
    }
}

/// The power of two that the digits are multiplied by.
pub open spec fn exponent(bits: u32) -> int {
    let e = (bits / 0x80_0000 % 256) as int;
    if e == 0 {
        -149
    } else {
        e - 150
    }
}

/// The whole number nearest to `n / d`, the even one where two are as near.
pub open spec fn nearest(n: nat, d: nat) -> nat {
    let q = n / d;
    let r = n % d;
    if 2 * r > d || (2 * r == d && q % 2 == 1) {
        q + 1
    } else {
        q
    }
}

/// The size of a finite single-precision number, counted in units of the last of
/// `places` decimal places and rounded to the nearest.
pub open spec fn scaled(bits: u32, places: nat) -> nat {
    let n = mantissa(bits) * ten_to(places);
    let k = exponent(bits);
    if k >= 0 {
        n * pow2(k as nat)
    } else {
        nearest(n, pow2((-k) as nat))
    }
}

/// A single-precision number with the given number of decimal places, by its bits.
pub open spec fn fixed(bits: u32, places: nat) -> Seq<char> {
    let sign: Seq<char> = if bits >= 0x8000_0000 {
        seq!['-']
    } else {
        seq![]
    };
    if bits / 0x80_0000 % 256 == 255 {
        if bits % 0x80_0000 == 0 {
            sign + "inf"@
        } else {
            "NaN"@
        }
    } else {
        let n = scaled(bits, places);
        sign + decimal(n / ten_to(places)) + seq!['.'] + padded(n % ten_to(places), places)
    }
}

fn push_padded(out: &mut Vec<char>, n: u128, places: u32)
    ensures
        final(out)@ == old(out)@ + padded(n as nat, places as nat),
    decreases places,
{
    if places > 0 {
        push_padded(out, n / 10, places - 1);
        out.push(digit_char((n % 10) as u8));
    }
    proof {
        assert(out@ =~= old(out)@ + padded(n as nat, places as nat));
    }
}

fn power_of_ten(places: u32) -> (out: u128)
    requires
        1 <= places <= 4,
    ensures
        out == ten_to(places as nat),
        10 <= out <= 10_000,
{
    proof {
        reveal_with_fuel(ten_to, 6);
    }
    if places == 1 {
        10
    } else if places == 2 {
        100
    } else if places == 3 {
        1_000
    } else {
        10_000
    }
}

fn times_power_of_two(n: u128, k: u32) -> (out: u128)
    requires
        n < 0x100_0000,
        k <= 104,
    ensures
        out == n * pow2(k as nat),
{
    let mut out: u128 = n;
    let mut i: u32 = 0;
    proof {
        lemma2_to64();
    }
    while i < k
        invariant
            i <= k <= 104,
            n < 0x100_0000,
            out == n * pow2(i as nat),
        decreases k - i,
    {
        proof {
            lemma_pow2_unfold((i + 1) as nat);
            lemma2_to64();
            lemma_pow2_adds(64, 40);
            lemma_pow2_adds(24, 104);
            lemma_pow2_adds(64, 64);
            if i + 1 < 104 {
                lemma_pow2_strictly_increases((i + 1) as nat, 104);
            }
            assert(n * pow2((i + 1) as nat) == 2 * (n * pow2(i as nat))) by (nonlinear_arith)
                requires
                    pow2((i + 1) as nat) == 2 * pow2(i as nat),
            ;
            assert(n * pow2((i + 1) as nat) <= 0xff_ffff * pow2(104)) by (nonlinear_arith)
                requires
                    n <= 0xff_ffff,
                    pow2((i + 1) as nat) <= pow2(104),
            ;
            assert(0xff_ffff * pow2(104) < pow2(24) * pow2(104)) by (nonlinear_arith)
                requires
                    pow2(24) == 0x100_0000,
                    pow2(104) > 0,
            ;
            lemma_pow2_pos(104);
            assert(pow2(128) == u128::MAX + 1);
        }
        out = out * 2;
        i += 1;
    }
    out
}

fn whole_part(bits: u32) -> (out: u128)
    requires
        exponent(bits) >= 0,
        bits / 0x80_0000 % 256 != 255,
    ensures
        out == mantissa(bits) * pow2(exponent(bits) as nat),
{
    let e: u32 = bits / 0x80_0000 % 256;
    let m: u128 = 0x80_0000 + (bits % 0x80_0000) as u128;
    times_power_of_two(m, e - 150)
}

fn rounded(bits: u32, places: u32) -> (out: u128)
    requires
        1 <= places <= 4,
        exponent(bits) < 0,
    ensures
        out == scaled(bits, places as nat),
{
    let e: u32 = bits / 0x80_0000 % 256;
    let fraction: u128 = (bits % 0x80_0000) as u128;
    let (m, down): (u128, u32) = if e == 0 {
        (fraction, 149)
    } else {
        (0x80_0000 + fraction, 150 - e)
    };
    let ten: u128 = power_of_ten(places);
    proof {
        assert(m * ten <= 0xff_ffff * 10_000) by (nonlinear_arith)
            requires
                m <= 0xff_ffff,
                ten <= 10_000,
        ;
    }
    let n: u128 = m * ten;
    proof {
        lemma2_to64();
        lemma2_to64_rest();
        lemma_pow2_pos(down as nat);
    }
    if down > 60 {
        proof {
            lemma_pow2_strictly_increases(60, down as nat);
            let d = pow2(down as nat) as int;
            assert(n < d);
            lemma_small_mod(n as nat, d as nat);
            lemma_basic_div(n as int, d);
        }
        return 0;
    }
    let d: u128 = times_power_of_two(1, down);
    let q: u128 = n / d;
    let r: u128 = n % d;
    proof {
        if down < 60 {
            lemma_pow2_strictly_increases(down as nat, 60);
        }
        assert(q <= n) by (nonlinear_arith)
            requires
                q == n / d,
                d >= 1,
                n >= 0,
        ;
    }
    if 2 * r > d || (2 * r == d && q % 2 == 1) {
        q + 1
    } else {
        q
    }
}

/// Appends a single-precision number, given by its bits, with the given number of
/// decimal places.
pub fn push_fixed(out: &mut Vec<char>, bits: u32, places: u32)
    requires
        1 <= places <= 4,
    ensures
        final(out)@ == old(out)@ + fixed(bits, places as nat),
{
    let e: u32 = bits / 0x80_0000 % 256;
    let ghost start = out@;
    if e == 255 {
        if bits % 0x80_0000 == 0 {
            if bits >= 0x8000_0000 {
                out.push('-');
            }
            push_str(out, "inf");
        } else {
            push_str(out, "NaN");
        }
        proof {
            assert(out@ =~= start + fixed(bits, places as nat));
        }
        return ;
    }
    if bits >= 0x8000_0000 {
        out.push('-');
    }
    let ten: u128 = power_of_ten(places);
    if e >= 150 {
        let whole: u128 = whole_part(bits);
        push_wide(out, whole);
        out.push('.');
        push_padded(out, 0, places);
        proof {
            let p = pow2(exponent(bits) as nat);
            let n = scaled(bits, places as nat);
            assert(n == ten * whole) by (nonlinear_arith)
                requires
                    n == mantissa(bits) * ten * p,
                    whole == mantissa(bits) * p,
            ;
            lemma_div_multiples_vanish(whole as int, ten as int);
            lemma_mod_multiples_basic(whole as int, ten as int);
            assert(ten * whole == whole * ten) by (nonlinear_arith);
            assert(n / ten as nat == whole as nat);
            assert(n % ten as nat == 0);
            assert(out@ =~= start + fixed(bits, places as nat));
        }
    } else {
        let n: u128 = rounded(bits, places);
        push_wide(out, n / ten);
        out.push('.');
        push_padded(out, n % ten, places);
        proof {
            assert(out@ =~= start + fixed(bits, places as nat));
        }
    }
}

proof fn padded_reads_back(n: nat, places: nat)
    ensures
        padded(n, places).len() == places,
        forall|j: int|
            0 <= j < places ==> '0' as int <= (#[trigger] padded(n, places)[j]) as int
                <= '9' as int,
        ten_to(places) > 0,
        value_of(padded(n, places)) == n % ten_to(places),
    decreases places,
{
    if places > 0 {
        let less = (places - 1) as nat;
        let t = ten_to(less) as int;
        padded_reads_back(n / 10, less);
        assert(padded(n, places).drop_last() =~= padded(n / 10, less));
        let a = (n / 10) as int;
        lemma_fundamental_div_mod(a, t);
        lemma_fundamental_div_mod(n as int, 10);
        let q = a / t;
        let r = a % t * 10 + n as int % 10;
        assert(n as int == q * (10 * t) + r) by (nonlinear_arith)
            requires
                a == t * q + a % t,
                n as int == 10 * a + n as int % 10,
                r == a % t * 10 + n as int % 10,
        ;
        assert(0 <= a % t <= t - 1);
        lemma_fundamental_div_mod_converse(n as int, 10 * t, q, r);
    } else {
        assert(padded(n, places) =~= seq![]);
    }
}

/// The nearest whole number is never more than a half away, and is even where it is
/// exactly a half away.
pub proof fn the_nearest_is_at_most_a_half_away(n: nat, d: nat)
    requires
        d > 0,
    ensures
        2 * (nearest(n, d) * d) <= 2 * n + d,
        2 * n <= 2 * (nearest(n, d) * d) + d,
        2 * (nearest(n, d) * d) == 2 * n + d || 2 * n == 2 * (nearest(n, d) * d) + d
            ==> nearest(n, d) % 2 == 0,
{
    lemma_fundamental_div_mod(n as int, d as int);
    let q = (n / d) as int;
    assert((q + 1) * d as int == q * d as int + d as int) by (nonlinear_arith);
    assert(d as int * q == q * d as int) by (nonlinear_arith);
    assert(0 <= n % d < d);
}

/// A finite number is written as its sign, where it has one, digits, a point, and as many
/// digits as there are places; together the digits are the number in units of the last
/// place, to the nearest.
pub proof fn a_number_is_written_to_its_nearest_place(bits: u32, places: nat)
    requires
        bits / 0x80_0000 % 256 != 255,
    ensures
        ({
            let s = fixed(bits, places);
            let size = if bits >= 0x8000_0000 {
                s.skip(1)
            } else {
                s
            };
            let point = size.len() - places - 1;
            let units = value_of(size.take(point)) * ten_to(places) + value_of(
                size.skip(point + 1),
            );
            &&& bits >= 0x8000_0000 ==> s.len() > 0 && s[0] == '-'
            &&& point > 0
            &&& size[point] == '.'
            &&& forall|j: int|
                0 <= j < size.len() && j != point ==> '0' as int <= (#[trigger] size[j]) as int
                    <= '9' as int
            &&& exponent(bits) >= 0 ==> units == mantissa(bits) * ten_to(places) * pow2(
                exponent(bits) as nat,
            )
            &&& exponent(bits) < 0 ==> 2 * (units * pow2((-exponent(bits)) as nat)) <= 2 * (mantissa(
                bits,
            ) * ten_to(places)) + pow2((-exponent(bits)) as nat) && 2 * (mantissa(bits) * ten_to(
                places,
            )) <= 2 * (units * pow2((-exponent(bits)) as nat)) + pow2((-exponent(bits)) as nat)
        }),
{
    let n = scaled(bits, places);
    let t = ten_to(places);
    padded_reads_back(n % t, places);
    decimal_digits(n / t);
    decimal_reads_back(n / t);
    let whole = decimal(n / t);
    let part = padded(n % t, places);
    let size = whole + seq!['.'] + part;
    let s = fixed(bits, places);
    if bits >= 0x8000_0000 {
        assert(s.skip(1) =~= size);
    } else {
        assert(s =~= size);
    }
    let point = size.len() - places - 1;
    assert(size.take(point) =~= whole);
    assert(size.skip(point + 1) =~= part);
    assert forall|j: int| 0 <= j < size.len() && j != point implies '0' as int <= (
    #[trigger] size[j]) as int <= '9' as int by {
        if j < point {
            assert(size[j] == whole[j]);
        } else {
            assert(size[j] == part[j - point - 1]);
        }
    }
    lemma_small_mod((n % t) as nat, t);
    lemma_fundamental_div_mod(n as int, t as int);
    assert((n / t) as int * t as int == t as int * (n / t) as int) by (nonlinear_arith);
    if exponent(bits) < 0 {
        let d = pow2((-exponent(bits)) as nat);
        lemma_pow2_pos((-exponent(bits)) as nat);
        the_nearest_is_at_most_a_half_away(mantissa(bits) * t, d);
    }
}

/// The finite numbers, in the order of their bits, step by one in their last digit, from
/// nothing through one, and the sign makes no difference to their size.
pub proof fn numbers_step_by_their_last_digit(bits: u32)
    requires
        bits < 0x7f7f_ffff,
    ensures
        exponent((bits + 1) as u32) == exponent(bits) ==> mantissa((bits + 1) as u32) == mantissa(
            bits,
        ) + 1,
        exponent((bits + 1) as u32) != exponent(bits) ==> exponent((bits + 1) as u32) == exponent(
            bits,
        ) + 1 && 2 * mantissa((bits + 1) as u32) == mantissa(bits) + 1,
        mantissa(0) == 0,
        mantissa(0x3f80_0000) == 0x80_0000 && exponent(0x3f80_0000) == -23,
        mantissa((bits + 0x8000_0000) as u32) == mantissa(bits),
        exponent((bits + 0x8000_0000) as u32) == exponent(bits),
{
    let e = bits / 0x80_0000;
    let f = bits % 0x80_0000;
    assert(bits == e * 0x80_0000 + f);
    if f < 0x7f_ffff {
        assert((bits + 1) / 0x80_0000 == e);
    } else {
        assert((bits + 1) / 0x80_0000 == e + 1);
    }
    assert((bits + 0x8000_0000) / 0x80_0000 == e + 256);
}

} // verus!
