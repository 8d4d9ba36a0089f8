//! The calls this library makes into the `num` crate.
//!
//! `num` supplies the register operations of the four unsigned integer types
//! that serve as words, and the rounded-up division used to size the key
//! words. Verus does not read `num`; each function below makes one call and
//! states, without proof, what that call returns.

use crate::arith::{add_mod, rotl, rotr, sub_mod};
use vstd::prelude::*;

verus! {

/// `num::integer::div_ceil` on `usize`: the quotient of `x` by `y`, rounded
/// up. The divisor must not be zero.
#[verifier::external_body]
pub(crate) fn div_ceil(x: usize, y: usize) -> (q: usize)
    requires
        y != 0,
    ensures
        q == x / y + if x % y != 0 { 1int } else { 0int },
{
    num::integer::div_ceil(x, y)
}

/// `num::Zero::zero` for `u16`: the number zero.
#[verifier::external_body]
pub(crate) fn u16_zero() -> (r: u16)
    ensures
        r == 0,
{
    <u16 as num::Zero>::zero()
}

/// `num::NumCast::from` for `u16`, given a byte: always `Some`, holding the
/// byte's number.
#[verifier::external_body]
pub(crate) fn u16_from_u8(b: u8) -> (r: Option<u16>)
    ensures
        r == Some(b as u16),
{
    <u16 as num::NumCast>::from(b)
}

/// `num::ToPrimitive::to_u128` for `u16`: always `Some`, holding the same
/// number.
#[verifier::external_body]
pub(crate) fn u16_to_u128(x: u16) -> (r: Option<u128>)
    ensures
        r == Some(x as u128),
{
    num::ToPrimitive::to_u128(&x)
}

/// `num::traits::WrappingAdd::wrapping_add` for `u16`: the sum, wrapped
/// around at `2^16`.
#[verifier::external_body]
pub(crate) fn u16_wrapping_add(a: u16, b: u16) -> (r: u16)
    ensures
        r as nat == add_mod(16, a as nat, b as nat),
{
    num::traits::WrappingAdd::wrapping_add(&a, &b)
}

/// `num::traits::WrappingSub::wrapping_sub` for `u16`: the difference,
/// wrapped around at `2^16`.
#[verifier::external_body]
pub(crate) fn u16_wrapping_sub(a: u16, b: u16) -> (r: u16)
    ensures
        r as nat == sub_mod(16, a as nat, b as nat),
{
    num::traits::WrappingSub::wrapping_sub(&a, &b)
}

/// `num::PrimInt::rotate_left` for `u16`: the bits of `x` moved up by `n`
/// positions, those pushed out at the top coming back in at the bottom.
/// Stated for amounts below the width.
#[verifier::external_body]
pub(crate) fn u16_rotate_left(x: u16, n: u32) -> (r: u16)
    requires
        n < 16,
    ensures
        r as nat == rotl(16, x as nat, n as nat),
{
    num::PrimInt::rotate_left(x, n)
}

/// `num::PrimInt::rotate_right` for `u16`: the bits of `x` moved down by `n`
/// positions, those pushed out at the bottom coming back in at the top.
/// Stated for amounts below the width.
#[verifier::external_body]
pub(crate) fn u16_rotate_right(x: u16, n: u32) -> (r: u16)
    requires
        n < 16,
    ensures
        r as nat == rotr(16, x as nat, n as nat),
{
    num::PrimInt::rotate_right(x, n)
}

/// `num::Zero::zero` for `u32`: the number zero.
#[verifier::external_body]
pub(crate) fn u32_zero() -> (r: u32)
    ensures
        r == 0,
{
    <u32 as num::Zero>::zero()
}

/// `num::NumCast::from` for `u32`, given a byte: always `Some`, holding the
/// byte's number.
#[verifier::external_body]
pub(crate) fn u32_from_u8(b: u8) -> (r: Option<u32>)
    ensures
        r == Some(b as u32),
{
    <u32 as num::NumCast>::from(b)
}

/// `num::ToPrimitive::to_u128` for `u32`: always `Some`, holding the same
/// number.
#[verifier::external_body]
pub(crate) fn u32_to_u128(x: u32) -> (r: Option<u128>)
    ensures
        r == Some(x as u128),
{
    num::ToPrimitive::to_u128(&x)
}

/// `num::traits::WrappingAdd::wrapping_add` for `u32`: the sum, wrapped
/// around at `2^32`.
#[verifier::external_body]
pub(crate) fn u32_wrapping_add(a: u32, b: u32) -> (r: u32)
    ensures
        r as nat == add_mod(32, a as nat, b as nat),
{
    num::traits::WrappingAdd::wrapping_add(&a, &b)
}

/// `num::traits::WrappingSub::wrapping_sub` for `u32`: the difference,
/// wrapped around at `2^32`.
#[verifier::external_body]
pub(crate) fn u32_wrapping_sub(a: u32, b: u32) -> (r: u32)
    ensures
        r as nat == sub_mod(32, a as nat, b as nat),
{
    num::traits::WrappingSub::wrapping_sub(&a, &b)
}

/// `num::PrimInt::rotate_left` for `u32`: the bits of `x` moved up by `n`
/// positions, those pushed out at the top coming back in at the bottom.
/// Stated for amounts below the width.
#[verifier::external_body]
pub(crate) fn u32_rotate_left(x: u32, n: u32) -> (r: u32)
    requires
        n < 32,
    ensures
        r as nat == rotl(32, x as nat, n as nat),
{
    num::PrimInt::rotate_left(x, n)
}

/// `num::PrimInt::rotate_right` for `u32`: the bits of `x` moved down by `n`
/// positions, those pushed out at the bottom coming back in at the top.
/// Stated for amounts below the width.
#[verifier::external_body]
pub(crate) fn u32_rotate_right(x: u32, n: u32) -> (r: u32)
    requires
        n < 32,
    ensures
        r as nat == rotr(32, x as nat, n as nat),
{
    num::PrimInt::rotate_right(x, n)
}

/// `num::Zero::zero` for `u64`: the number zero.
#[verifier::external_body]
pub(crate) fn u64_zero() -> (r: u64)
    ensures
        r == 0,
{
    <u64 as num::Zero>::zero()
}

/// `num::NumCast::from` for `u64`, given a byte: always `Some`, holding the
/// byte's number.
#[verifier::external_body]
pub(crate) fn u64_from_u8(b: u8) -> (r: Option<u64>)
    ensures
        r == Some(b as u64),
{
    <u64 as num::NumCast>::from(b)
}

/// `num::ToPrimitive::to_u128` for `u64`: always `Some`, holding the same
/// number.
#[verifier::external_body]
pub(crate) fn u64_to_u128(x: u64) -> (r: Option<u128>)
    ensures
        r == Some(x as u128),
{
    num::ToPrimitive::to_u128(&x)
}

/// `num::traits::WrappingAdd::wrapping_add` for `u64`: the sum, wrapped
/// around at `2^64`.
#[verifier::external_body]
pub(crate) fn u64_wrapping_add(a: u64, b: u64) -> (r: u64)
    ensures
        r as nat == add_mod(64, a as nat, b as nat),
{
    num::traits::WrappingAdd::wrapping_add(&a, &b)
}

/// `num::traits::WrappingSub::wrapping_sub` for `u64`: the difference,
/// wrapped around at `2^64`.
#[verifier::external_body]
pub(crate) fn u64_wrapping_sub(a: u64, b: u64) -> (r: u64)
    ensures
        r as nat == sub_mod(64, a as nat, b as nat),
{
    num::traits::WrappingSub::wrapping_sub(&a, &b)
}

/// `num::PrimInt::rotate_left` for `u64`: the bits of `x` moved up by `n`
/// positions, those pushed out at the top coming back in at the bottom.
/// Stated for amounts below the width.
#[verifier::external_body]
pub(crate) fn u64_rotate_left(x: u64, n: u32) -> (r: u64)
    requires
        n < 64,
    ensures
        r as nat == rotl(64, x as nat, n as nat),
{
    num::PrimInt::rotate_left(x, n)
}

/// `num::PrimInt::rotate_right` for `u64`: the bits of `x` moved down by `n`
/// positions, those pushed out at the bottom coming back in at the top.
/// Stated for amounts below the width.
#[verifier::external_body]
pub(crate) fn u64_rotate_right(x: u64, n: u32) -> (r: u64)
    requires
        n < 64,
    ensures
        r as nat == rotr(64, x as nat, n as nat),
{
    num::PrimInt::rotate_right(x, n)
}

/// `num::Zero::zero` for `u128`: the number zero.
#[verifier::external_body]
pub(crate) fn u128_zero() -> (r: u128)
    ensures
        r == 0,
{
    <u128 as num::Zero>::zero()
}

/// `num::NumCast::from` for `u128`, given a byte: always `Some`, holding the
/// byte's number.
#[verifier::external_body]
pub(crate) fn u128_from_u8(b: u8) -> (r: Option<u128>)
    ensures
        r == Some(b as u128),
{
    <u128 as num::NumCast>::from(b)
}

/// `num::ToPrimitive::to_u128` for `u128`: always `Some`, holding the same
/// number.
#[verifier::external_body]
pub(crate) fn u128_to_u128(x: u128) -> (r: Option<u128>)
    ensures
        r == Some(x as u128),
{
    num::ToPrimitive::to_u128(&x)
}

/// `num::traits::WrappingAdd::wrapping_add` for `u128`: the sum, wrapped
/// around at `2^128`.
#[verifier::external_body]
pub(crate) fn u128_wrapping_add(a: u128, b: u128) -> (r: u128)
    ensures
        r as nat == add_mod(128, a as nat, b as nat),
{
    num::traits::WrappingAdd::wrapping_add(&a, &b)
}

/// `num::traits::WrappingSub::wrapping_sub` for `u128`: the difference,
/// wrapped around at `2^128`.
#[verifier::external_body]
pub(crate) fn u128_wrapping_sub(a: u128, b: u128) -> (r: u128)
    ensures
        r as nat == sub_mod(128, a as nat, b as nat),
{
    num::traits::WrappingSub::wrapping_sub(&a, &b)
}

/// `num::PrimInt::rotate_left` for `u128`: the bits of `x` moved up by `n`
/// positions, those pushed out at the top coming back in at the bottom.
/// Stated for amounts below the width.
#[verifier::external_body]
pub(crate) fn u128_rotate_left(x: u128, n: u32) -> (r: u128)
    requires
        n < 128,
    ensures
        r as nat == rotl(128, x as nat, n as nat),
{
    num::PrimInt::rotate_left(x, n)
}

/// `num::PrimInt::rotate_right` for `u128`: the bits of `x` moved down by `n`
/// positions, those pushed out at the bottom coming back in at the top.
/// Stated for amounts below the width.
#[verifier::external_body]
pub(crate) fn u128_rotate_right(x: u128, n: u32) -> (r: u128)
    requires
        n < 128,
    ensures
        r as nat == rotr(128, x as nat, n as nat),
{
    num::PrimInt::rotate_right(x, n)
}

} // verus!
