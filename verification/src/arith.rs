//! Arithmetic of fixed-width registers, stated on natural numbers.
//!
//! A register of `bits` bits holds a number below `2^bits`. Every operation the
//! cipher performs on registers is defined here on those numbers, together
//! with the algebraic facts that make the cipher invertible.

use vstd::arithmetic::div_mod::{
    lemma_fundamental_div_mod,
    lemma_fundamental_div_mod_converse,
    lemma_mod_bound,
    lemma_small_mod,
};
use vstd::arithmetic::power2::{lemma_pow2_adds, lemma_pow2_pos, pow2};
use vstd::prelude::*;

verus! {

/// Number of distinct values of a register of `bits` bits.
pub open spec fn modulus(bits: nat) -> nat {
    pow2(bits)
}

/// Whether `x` fits a register of `bits` bits.
pub open spec fn fits(bits: nat, x: nat) -> bool {
    x < modulus(bits)
}

/// Addition that wraps around at `2^bits`.
pub open spec fn add_mod(bits: nat, a: nat, b: nat) -> nat {
    (a + b) % modulus(bits)
}

/// Subtraction that wraps around at `2^bits`.
pub open spec fn sub_mod(bits: nat, a: nat, b: nat) -> nat {
    ((a - b) % (modulus(bits) as int)) as nat
}

/// Bitwise exclusive or of two numbers below `2^128`.
pub open spec fn xor(a: nat, b: nat) -> nat {
    ((a as u128) ^ (b as u128)) as nat
}

/// Rotation to the left by `n < bits` positions: the low `bits - n` bits move
/// up by `n`, the high `n` bits wrap around to the bottom.
pub open spec fn rotl(bits: nat, x: nat, n: nat) -> nat {
    (x * pow2(n)) % pow2(bits) + x / pow2((bits - n) as nat)
}

/// Rotation to the right by `n < bits` positions: the high `bits - n` bits
/// move down by `n`, the low `n` bits wrap around to the top.
pub open spec fn rotr(bits: nat, x: nat, n: nat) -> nat {
    x / pow2(n) + (x % pow2(n)) * pow2((bits - n) as nat)
}

/// A wrapped sum fits the register.
pub proof fn lemma_add_mod_fits(bits: nat, a: nat, b: nat)
    ensures
        fits(bits, add_mod(bits, a, b)),
{
    lemma_pow2_pos(bits);
    lemma_mod_bound((a + b) as int, pow2(bits) as int);
}

/// Subtracting what was added gives back the first operand.
pub proof fn lemma_add_then_sub(bits: nat, a: nat, b: nat)
    requires
        fits(bits, a),
    ensures
        sub_mod(bits, add_mod(bits, a, b), b) == a,
{
    let m = pow2(bits) as int;
    lemma_pow2_pos(bits);
    let s = (a + b) as int;
    lemma_fundamental_div_mod(s, m);
    let q = s / m;
    assert(s % m - b == (-q) * m + a) by (nonlinear_arith)
        requires
            s == m * q + s % m,
            s == a + b,
    ;
    lemma_fundamental_div_mod_converse(s % m - b, m, -q, a as int);
}

/// The two halves of a register split at bit `k`: with `x < 2^(k + n)`,
/// the high part is below `2^n` and the low part is below `2^k`.
proof fn lemma_split(x: nat, k: nat, n: nat)
    requires
        x < pow2(k + n),
    ensures
        x == pow2(k) * (x / pow2(k)) + x % pow2(k),
        x / pow2(k) < pow2(n),
        x % pow2(k) < pow2(k),
{
    let pk = pow2(k) as int;
    let pn = pow2(n) as int;
    lemma_pow2_pos(k);
    lemma_pow2_pos(n);
    lemma_pow2_adds(k, n);
    lemma_fundamental_div_mod(x as int, pk);
    lemma_mod_bound(x as int, pk);
    let hi = x as int / pk;
    let lo = x as int % pk;
    assert(hi < pn) by (nonlinear_arith)
        requires
            x == pk * hi + lo,
            0 <= lo,
            x < pk * pn,
            pk > 0,
    ;
}

/// What a left rotation does to the two halves of a register: the low
/// `bits - n` bits become the high part, the high `n` bits the low part.
proof fn lemma_rotl_halves(bits: nat, x: nat, n: nat)
    requires
        fits(bits, x),
        n < bits,
    ensures
        rotl(bits, x, n) == (x % pow2((bits - n) as nat)) * pow2(n) + x / pow2((bits - n) as nat),
        x / pow2((bits - n) as nat) < pow2(n),
        x % pow2((bits - n) as nat) < pow2((bits - n) as nat),
{
    let k = (bits - n) as nat;
    let pk = pow2(k) as int;
    let pn = pow2(n) as int;
    let pw = pow2(bits) as int;
    lemma_pow2_pos(k);
    lemma_pow2_pos(n);
    lemma_pow2_adds(k, n);
    assert(k + n == bits);
    lemma_split(x, k, n);
    let hi = x as int / pk;
    let lo = x as int % pk;
    assert(x * pn == hi * pw + lo * pn) by (nonlinear_arith)
        requires
            x == pk * hi + lo,
            pw == pk * pn,
    ;
    assert(0 <= lo * pn < pw) by (nonlinear_arith)
        requires
            0 <= lo < pk,
            pn > 0,
            pw == pk * pn,
    ;
    lemma_fundamental_div_mod_converse(x * pn, pw, hi, lo * pn);
}

/// A rotated register still fits.
pub proof fn lemma_rotl_fits(bits: nat, x: nat, n: nat)
    requires
        fits(bits, x),
        n < bits,
    ensures
        fits(bits, rotl(bits, x, n)),
{
    let k = (bits - n) as nat;
    let pk = pow2(k) as int;
    let pn = pow2(n) as int;
    lemma_pow2_adds(k, n);
    assert(k + n == bits);
    lemma_rotl_halves(bits, x, n);
    let hi = x as int / pk;
    let lo = x as int % pk;
    assert(lo * pn + hi < pk * pn) by (nonlinear_arith)
        requires
            0 <= lo < pk,
            0 <= hi < pn,
    ;
}

/// Rotating right undoes rotating left by the same amount.
pub proof fn lemma_rotl_then_rotr(bits: nat, x: nat, n: nat)
    requires
        fits(bits, x),
        n < bits,
    ensures
        rotr(bits, rotl(bits, x, n), n) == x,
{
    let k = (bits - n) as nat;
    let pk = pow2(k) as int;
    let pn = pow2(n) as int;
    lemma_pow2_pos(k);
    lemma_pow2_pos(n);
    lemma_rotl_halves(bits, x, n);
    lemma_split(x, k, n);
    let hi = x as int / pk;
    let lo = x as int % pk;
    let y = rotl(bits, x, n);
    assert(y == lo * pn + hi);
    lemma_fundamental_div_mod_converse(y as int, pn, lo, hi);
    assert(lo + hi * pk == x) by (nonlinear_arith)
        requires
            x == pk * hi + lo,
    ;
}

/// A rotation by no position at all leaves the register as it is.
pub proof fn lemma_rotl_zero(bits: nat, x: nat)
    requires
        fits(bits, x),
    ensures
        rotl(bits, x, 0) == x,
{
    lemma_pow2_pos(bits);
    assert(pow2(0) == 1) by {
        vstd::arithmetic::power2::lemma2_to64();
    }
    assert(x * 1 == x);
    lemma_small_mod(x, pow2(bits));
    vstd::arithmetic::div_mod::lemma_basic_div(x as int, pow2(bits) as int);
}

/// The largest register the cipher works on has 128 bits.
pub proof fn lemma_modulus_128()
    ensures
        modulus(128) == 0x1_0000_0000_0000_0000_0000_0000_0000_0000,
{
    vstd::arithmetic::power2::lemma2_to64();
    lemma_pow2_adds(64, 64);
}

/// A wider register holds whatever a narrower one holds.
pub proof fn lemma_fits_wider(narrow: nat, wide: nat, x: nat)
    requires
        narrow <= wide,
        fits(narrow, x),
    ensures
        fits(wide, x),
{
    if narrow < wide {
        vstd::arithmetic::power2::lemma_pow2_strictly_increases(narrow, wide);
    }
}

/// The exclusive or of two registers fits the register.
pub proof fn lemma_xor_fits(bits: nat, a: nat, b: nat)
    requires
        bits <= 128,
        fits(bits, a),
        fits(bits, b),
    ensures
        fits(bits, xor(a, b)),
{
    lemma_modulus_128();
    lemma_fits_wider(bits, 128, a);
    lemma_fits_wider(bits, 128, b);
    if bits < 128 {
        let x = a as u128;
        let y = b as u128;
        let s = bits as u128;
        let m = pow2(bits) as int;
        lemma_pow2_pos(bits);
        vstd::bits::lemma_u128_shr_is_div(x, s);
        vstd::bits::lemma_u128_shr_is_div(y, s);
        vstd::bits::lemma_u128_shr_is_div(x ^ y, s);
        vstd::arithmetic::div_mod::lemma_basic_div(a as int, m);
        vstd::arithmetic::div_mod::lemma_basic_div(b as int, m);
        assert((x ^ y) >> s == 0) by (bit_vector)
            requires
                s < 128,
                x >> s == 0,
                y >> s == 0,
        ;
        vstd::arithmetic::div_mod::lemma_small_div_converse((x ^ y) as int, m);
    }
}

/// Applying the same exclusive or twice gives back the first operand.
pub proof fn lemma_xor_twice(a: nat, b: nat)
    requires
        fits(128, a),
        fits(128, b),
    ensures
        xor(xor(a, b), b) == a,
{
    lemma_modulus_128();
    let x = a as u128;
    let y = b as u128;
    assert((x ^ y) ^ y == x) by (bit_vector);
}

/// A sum that fits the register does not wrap.
pub proof fn lemma_add_mod_small(bits: nat, a: nat, b: nat)
    requires
        fits(bits, a + b),
    ensures
        add_mod(bits, a, b) == a + b,
{
    lemma_small_mod(a + b, pow2(bits));
}

/// Rotating a register whose high `n` bits are clear multiplies it by `2^n`.
pub proof fn lemma_rotl_small(bits: nat, x: nat, n: nat)
    requires
        n <= bits,
        x < pow2((bits - n) as nat),
    ensures
        rotl(bits, x, n) == x * pow2(n),
        fits(bits, x * pow2(n)),
{
    let k = (bits - n) as nat;
    let pk = pow2(k) as int;
    let pn = pow2(n) as int;
    lemma_pow2_pos(k);
    lemma_pow2_pos(n);
    lemma_pow2_adds(k, n);
    assert(k + n == bits);
    assert(0 <= x * pn < pk * pn) by (nonlinear_arith)
        requires
            0 <= x < pk,
            pn > 0,
    ;
    lemma_small_mod(x * pow2(n), pow2(bits));
    vstd::arithmetic::div_mod::lemma_basic_div(x as int, pk);
}

/// Shifting a register up by one byte and adding a byte, when the top byte
/// of the register is clear, neither wraps nor loses a bit.
pub proof fn lemma_push_byte(bits: nat, x: nat, byte: nat)
    requires
        8 <= bits,
        x < pow2((bits - 8) as nat),
        byte < 256,
    ensures
        add_mod(bits, rotl(bits, x, 8nat % bits), byte) == 256 * x + byte,
{
    vstd::arithmetic::power2::lemma2_to64();
    lemma_pow2_adds((bits - 8) as nat, 8);
    assert((bits - 8) as nat + 8 == bits);
    if bits == 8 {
        assert(x == 0);
        lemma_rotl_zero(bits, x);
    } else {
        vstd::arithmetic::div_mod::lemma_small_mod(8, bits);
        lemma_rotl_small(bits, x, 8);
    }
    assert(rotl(bits, x, 8nat % bits) == 256 * x);
    lemma_add_mod_small(bits, 256 * x, byte);
}

} // verus!
