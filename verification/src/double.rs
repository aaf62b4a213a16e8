//! 64-bit floats as the bit patterns they travel in, and the numbers those
//! patterns stand for.

use vstd::arithmetic::power2::{
    lemma2_to64, lemma2_to64_rest, lemma_pow2_adds, lemma_pow2_pos, lemma_pow2_strictly_increases, lemma_pow2_unfold,
    pow2,
};
use vstd::prelude::*;

verus! {

/// The pattern of the number one.
pub const ONE: u64 = 0x3ff0_0000_0000_0000;

/// The pattern's eleven exponent bits.
pub open spec fn exponent(bits: u64) -> nat {
    (bits / 0x10_0000_0000_0000 % 0x800) as nat
}

/// The pattern's lowest fifty-two bits.
pub open spec fn fraction(bits: u64) -> nat {
    (bits % 0x10_0000_0000_0000) as nat
}

/// Whether the pattern stands for a number, and not for an infinity or for
/// what is no number.
pub open spec fn is_finite(bits: u64) -> bool {
    exponent(bits) < 0x7ff
}

/// How large the number is, without its sign, counted in the smallest float
/// above zero - of which every finite float is a whole count. One is
/// `2^1074` of them.
pub open spec fn size(bits: u64) -> nat {
    if exponent(bits) == 0 {
        fraction(bits)
    } else {
        (0x10_0000_0000_0000 + fraction(bits)) * pow2((exponent(bits) - 1) as nat)
    }
}

/// The number, counted in the smallest float above zero.
pub open spec fn value(bits: u64) -> int {
    if bits < 0x8000_0000_0000_0000 {
        size(bits) as int
    } else {
        -size(bits)
    }
}

/// One, counted in the smallest float above zero.
pub open spec fn unit() -> nat {
    pow2(1074)
}

/// Patterns without a sign order as the numbers they stand for.
pub proof fn law_patterns_order_as_their_numbers(a: u64, b: u64)
    requires
        is_finite(a),
        is_finite(b),
        a < 0x8000_0000_0000_0000,
        b < 0x8000_0000_0000_0000,
    ensures
        a < b <==> value(a) < value(b),
{
    lemma_orders(a, b);
    lemma_orders(b, a);
}

proof fn lemma_orders(a: u64, b: u64)
    requires
        a < 0x8000_0000_0000_0000,
        b < 0x8000_0000_0000_0000,
    ensures
        a < b ==> size(a) < size(b),
        a == b ==> size(a) == size(b),
{
    if a < b {
        let (ea, eb) = (exponent(a), exponent(b));
        let (fa, fb) = (fraction(a), fraction(b));
        lemma2_to64();
        lemma_pow2_pos((eb - 1) as nat);
        if ea == eb {
            assert(fa < fb);
            if ea > 0 {
                let p = pow2((ea - 1) as nat);
                assert((0x10_0000_0000_0000 + fa) * p < (0x10_0000_0000_0000 + fb) * p)
                    by (nonlinear_arith)
                    requires
                        fa < fb,
                        p > 0,
                ;
            }
        } else {
            assert(ea < eb);
            let q = pow2((eb - 1) as nat);
            assert((0x10_0000_0000_0000 + fb) * q >= 0x10_0000_0000_0000 * q) by (nonlinear_arith)
                requires
                    q > 0,
            ;
            if ea == 0 {
                assert(0x10_0000_0000_0000 * q >= 0x10_0000_0000_0000) by (nonlinear_arith)
                    requires
                        q > 0,
                ;
            } else {
                let p = pow2((ea - 1) as nat);
                lemma_pow2_pos((ea - 1) as nat);
                lemma_pow2_unfold(ea);
                if ea < eb - 1 {
                    lemma_pow2_strictly_increases(ea, (eb - 1) as nat);
                }
                assert((0x10_0000_0000_0000 + fa) * p < 0x10_0000_0000_0000 * q)
                    by (nonlinear_arith)
                    requires
                        fa < 0x10_0000_0000_0000,
                        q >= 2 * p,
                        p > 0,
                ;
            }
        }
    }
}

/// Whether a number is between zero and one.
pub fn is_probability(bits: u64) -> (r: bool)
    ensures
        r == (is_finite(bits) && 0 <= value(bits) <= unit()),
{
    proof {
        lemma_size_of_one();
        lemma2_to64();
        if bits < 0x8000_0000_0000_0000 {
            if is_finite(bits) {
                lemma_orders(bits, ONE);
                lemma_orders(ONE, bits);
            } else {
                assert(bits / 0x10_0000_0000_0000 % 0x800 == 0x7ff);
                assert(bits > ONE);
            }
        } else {
            lemma_size_is_zero(bits);
        }
    }
    bits <= ONE || bits == 0x8000_0000_0000_0000
}

proof fn lemma_size_of_one()
    ensures
        is_finite(ONE),
        size(ONE) == unit(),
{
    lemma_pow2_adds(52, 1022);
    lemma2_to64_rest();
    assert(exponent(ONE) == 1023);
    assert(fraction(ONE) == 0);
}

proof fn lemma_size_is_zero(bits: u64)
    ensures
        size(bits) == 0 <==> bits % 0x8000_0000_0000_0000 == 0,
{
    if exponent(bits) > 0 {
        let p = pow2((exponent(bits) - 1) as nat);
        lemma_pow2_pos((exponent(bits) - 1) as nat);
        assert((0x10_0000_0000_0000 + fraction(bits)) * p > 0) by (nonlinear_arith)
            requires
                p > 0,
        ;
    }
}

/// A whole number at least zero, or nothing for any other. One past what a
/// count can hold is the highest count there is.
pub fn whole(bits: u64) -> (count: Option<usize>)
    ensures
        count is Some == (is_finite(bits) && value(bits) >= 0 && value(bits) % (unit() as int) == 0),
        count matches Some(n) ==> n == if value(bits) / (unit() as int) < usize::MAX {
            value(bits) / (unit() as int)
        } else {
            usize::MAX as int
        },
{
    let e: u64 = bits / 0x10_0000_0000_0000 % 0x800;
    let f: u64 = bits % 0x10_0000_0000_0000;
    let s: u64 = 0x10_0000_0000_0000 + f;
    proof {
        lemma_size_is_zero(bits);
        lemma_pow2_pos(1074);
        lemma2_to64();
    }
    if bits % 0x8000_0000_0000_0000 == 0 {
        assert(0int / (unit() as int) == 0 && 0int % (unit() as int) == 0) by (nonlinear_arith)
            requires
                unit() > 0,
        ;
        assert(value(bits) == 0);
        assert(e == 0);
        Some(0)
    } else if bits >= 0x8000_0000_0000_0000 || e == 0x7ff {
        None
    } else if e < 1023 {
        proof {
            lemma_size_of_one();
            lemma_orders(bits, ONE);
            vstd::arithmetic::div_mod::lemma_small_mod(size(bits), unit());
        }
        None
    } else if e < 1023 + 52 {
        let shift: u64 = 1023 + 52 - e;
        let quotient: u64 = s >> shift;
        let back: u64 = quotient << shift;
        proof {
            lemma_parts(s, e, shift);
        }
        if back == s {
            Some(saturated(quotient as u128))
        } else {
            None
        }
    } else {
        proof {
            let up = (e - 1075) as nat;
            lemma_pow2_adds(1074, up);
            let u = unit() as int;
            let n = s * pow2(up);
            assert(size(bits) == n * u) by (nonlinear_arith)
                requires
                    size(bits) == s * (unit() * pow2(up)),
                    n == s * pow2(up),
                    u == unit(),
            ;
            vstd::arithmetic::div_mod::lemma_mod_multiples_basic(n, u);
            vstd::arithmetic::div_mod::lemma_div_by_multiple(n, u);
            lemma_pow2_pos(up);
            assert(n >= s) by (nonlinear_arith)
                requires
                    n == s * pow2(up),
                    pow2(up) > 0,
            ;
            if up >= 12 {
                lemma_pow2_adds(12, (up - 12) as nat);
                lemma_pow2_pos((up - 12) as nat);
                assert(n > 0xffff_ffff_ffff_ffff) by (nonlinear_arith)
                    requires
                        n == s * pow2(up),
                        pow2(up) == 0x1000 * pow2((up - 12) as nat),
                        pow2((up - 12) as nat) > 0,
                        s >= 0x10_0000_0000_0000,
                ;
            }
        }
        if e - 1075 >= 12 {
            Some(usize::MAX)
        } else {
            let up: u64 = e - 1075;
            let mut n: u128 = s as u128;
            let mut k: u64 = 0;
            while k < up
                invariant
                    k <= up < 12,
                    n == s * pow2(k as nat),
                    n <= 0x20_0000_0000_0000 * pow2(k as nat),
                    s < 0x20_0000_0000_0000,
                decreases up - k,
            {
                proof {
                    lemma_pow2_unfold((k + 1) as nat);
                    lemma2_to64();
                    lemma_pow2_strictly_increases(k as nat, 12);
                    assert(s * pow2((k + 1) as nat) == 2 * (s * pow2(k as nat)))
                        by (nonlinear_arith)
                        requires
                            pow2((k + 1) as nat) == 2 * pow2(k as nat),
                    ;
                }
                n = 2 * n;
                k = k + 1;
            }
            Some(saturated(n))
        }
    }
}

fn saturated(n: u128) -> (count: usize)
    ensures
        count == if n < usize::MAX {
            n as int
        } else {
            usize::MAX as int
        },
{
    if n < usize::MAX as u128 {
        n as usize
    } else {
        usize::MAX
    }
}

/// A number between one and `2^52`, parted into whole and fraction.
proof fn lemma_parts(s: u64, e: u64, shift: u64)
    requires
        1023 <= e < 1075,
        shift == 1075 - e,
        0x10_0000_0000_0000 <= s < 0x20_0000_0000_0000,
    ensures
        ({
            let size = (s * pow2((e - 1) as nat)) as int;
            let u = unit() as int;
            &&& size / u == s >> shift
            &&& size % u == 0 <==> (s >> shift) << shift == s
        }),
{
    let p = pow2((e - 1) as nat) as int;
    let d = pow2(shift as nat) as int;
    let u = unit() as int;
    lemma_pow2_pos((e - 1) as nat);
    lemma_pow2_pos(shift as nat);
    lemma_pow2_adds(shift as nat, (e - 1) as nat);
    assert(u == d * p);
    vstd::bits::lemma_u64_shr_is_div(s, shift);
    let q = s as int / d;
    let r = s as int % d;
    vstd::arithmetic::div_mod::lemma_fundamental_div_mod(s as int, d);
    assert(s * p == q * u + r * p) by (nonlinear_arith)
        requires
            s == d * q + r,
            u == d * p,
    ;
    assert(0 <= r * p < u) by (nonlinear_arith)
        requires
            0 <= r < d,
            p > 0,
            u == d * p,
    ;
    vstd::arithmetic::div_mod::lemma_fundamental_div_mod_converse(s * p, u, q, r * p);
    assert(r * p == 0 <==> r == 0) by (nonlinear_arith)
        requires
            p > 0,
    ;
    let quotient = s >> shift;
    assert(quotient * d <= s) by (nonlinear_arith)
        requires
            s == d * q + r,
            quotient == q,
            0 <= r,
    ;
    vstd::bits::lemma_u64_shl_is_mul(quotient, shift);
    assert(quotient * d == s <==> r == 0) by (nonlinear_arith)
        requires
            s == d * q + r,
            quotient == q,
    ;
}

/// The pattern of one stands for the unit that the others are whole numbers
/// in.
pub proof fn law_one_is_the_unit()
    ensures
        is_finite(0x3ff0_0000_0000_0000),
        value(0x3ff0_0000_0000_0000) == unit(),
        unit() > 0,
{
    lemma_size_of_one();
    lemma_pow2_pos(1074);
}

/// Patterns count up through the numbers: the first is nothing, and each is
/// one step above the one before it, a step that is the smallest float there
/// is up to exponent one and doubles with every exponent after it.
pub proof fn law_patterns_count_up(bits: u64)
    requires
        bits < 0x7fef_ffff_ffff_ffff,
    ensures
        value(0) == 0,
        value((bits + 1) as u64) == value(bits) + pow2(
            if bits / 0x10_0000_0000_0000 == 0 {
                0
            } else {
                (bits / 0x10_0000_0000_0000 - 1) as nat
            },
        ),
{
    lemma2_to64();
    let next = (bits + 1) as u64;
    let (e, f) = (exponent(bits), fraction(bits));
    assert(bits == e * 0x10_0000_0000_0000 + f);
    if f + 1 < 0x10_0000_0000_0000 {
        assert(exponent(next) == e && fraction(next) == f + 1);
        if e > 0 {
            let p = pow2((e - 1) as nat);
            assert((0x10_0000_0000_0000 + (f + 1)) * p == (0x10_0000_0000_0000 + f) * p + p)
                by (nonlinear_arith);
        }
    } else {
        assert(exponent(next) == e + 1 && fraction(next) == 0);
        if e > 0 {
            let (p, q) = (pow2((e - 1) as nat), pow2(e));
            lemma_pow2_unfold(e);
            assert((0x10_0000_0000_0000 + 0) * q == (0x10_0000_0000_0000 + f) * p + p)
                by (nonlinear_arith)
                requires
                    q == 2 * p,
                    f == 0xf_ffff_ffff_ffff,
            ;
        }
    }
}

/// A pattern with its sign bit set stands for the same number below zero.
pub proof fn law_the_sign_bit_turns_the_number(bits: u64)
    requires
        bits < 0x8000_0000_0000_0000,
    ensures
        value((bits + 0x8000_0000_0000_0000) as u64) == -value(bits),
        is_finite((bits + 0x8000_0000_0000_0000) as u64) == is_finite(bits),
        is_finite(bits) == (bits < 0x7ff0_0000_0000_0000),
{
    let turned = (bits + 0x8000_0000_0000_0000) as u64;
    assert(exponent(turned) == exponent(bits));
    assert(fraction(turned) == fraction(bits));
}

/// Without its sign, a number that is not below zero is the same number, and
/// one that is not above one has no pattern above one's.
pub proof fn law_dropping_a_sign_keeps_the_size(bits: u64)
    requires
        is_finite(bits),
        0 <= value(bits) <= unit(),
    ensures
        value((bits % 0x8000_0000_0000_0000) as u64) == value(bits),
        (bits % 0x8000_0000_0000_0000) as u64 <= 0x3ff0_0000_0000_0000,
{
    let bare = (bits % 0x8000_0000_0000_0000) as u64;
    assert(exponent(bare) == exponent(bits));
    assert(fraction(bare) == fraction(bits));
    lemma_size_of_one();
    lemma_orders(ONE, bare);
}

/// The pattern of three is three ones.
pub proof fn law_three_is_three_units()
    ensures
        is_finite(0x4008_0000_0000_0000),
        value(0x4008_0000_0000_0000) == 3 * unit(),
{
    lemma2_to64();
    lemma2_to64_rest();
    lemma_pow2_adds(51, 1023);
    assert(exponent(0x4008_0000_0000_0000) == 1024);
    assert(fraction(0x4008_0000_0000_0000) == 0x8_0000_0000_0000);
    let p = pow2(1023);
    assert((0x10_0000_0000_0000 + 0x8_0000_0000_0000) * p == 3 * (0x8_0000_0000_0000 * p))
        by (nonlinear_arith);
}

} // verus!
