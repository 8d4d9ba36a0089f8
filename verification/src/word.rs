//! The registers the cipher computes on.
//!
//! The cipher is written once, for any register type that implements
//! [`Word`]. The trait fixes what every operation means in terms of the
//! number a register holds, so that everything proved of the cipher holds
//! for every implementation. The unsigned integers of 16, 32, 64 and 128
//! bits implement it here.

use crate::arith::{add_mod, fits, lemma_modulus_128, rotl, rotr, sub_mod, xor};
use crate::endian::{le_bytes, le_value, lemma_le_value_bound, read_le, write_le};
use crate::error::Error;
use crate::numeric;
use vstd::arithmetic::power2::lemma2_to64;
use vstd::prelude::*;

verus! {

/// A register type for the cipher.
///
/// A register is `BITS` bits wide, a whole number of bytes between 1 and 16,
/// and holds a number below `2^BITS`, its [`value`](Word::value). Two
/// registers that hold the same number are the same register.
pub trait Word: Sized + Copy {
    /// The width of the register in bits.
    spec fn bits() -> nat;

    /// The first magic constant, as a number.
    spec fn p() -> nat;

    /// The second magic constant, as a number.
    spec fn q() -> nat;

    /// The width of the register in bits: [`bits`](Word::bits).
    const BITS: usize;

    /// The first magic constant, [`p`](Word::p): `(e - 2) * 2^BITS` rounded
    /// to the nearest odd integer, where `e` is the base of the natural
    /// logarithm.
    const P: Self;

    /// The second magic constant, [`q`](Word::q): `(phi - 1) * 2^BITS`
    /// rounded to the nearest odd integer, where `phi` is the golden ratio.
    const Q: Self;

    /// The number that the register holds.
    spec fn value(self) -> nat;

    /// The three constants are the numbers that [`bits`](Word::bits),
    /// [`p`](Word::p) and [`q`](Word::q) name, and the width is a whole
    /// number of bytes, at least one and at most sixteen.
    proof fn lemma_constants()
        ensures
            Self::BITS == Self::bits(),
            Self::P.value() == Self::p(),
            Self::Q.value() == Self::q(),
            8 <= Self::bits() <= 128,
            Self::bits() % 8 == 0,
    ;

    /// The number a register holds fits its width.
    proof fn lemma_value_fits(self)
        ensures
            fits(Self::bits(), self.value()),
    ;

    /// Registers are told apart by the numbers they hold.
    proof fn lemma_value_injective(self, other: Self)
        requires
            self.value() == other.value(),
        ensures
            self == other,
    ;

    /// The register that holds zero.
    fn zero() -> (r: Self)
        ensures
            r.value() == 0,
    ;

    /// The register that holds the number of one byte.
    fn from_u8(byte: u8) -> (r: Self)
        ensures
            r.value() == byte as nat,
    ;

    /// The number the register holds, as a `u128`. It is always there: no
    /// register is wider than 128 bits.
    fn to_u128(&self) -> (r: Option<u128>)
        ensures
            r == Some(self.value() as u128),
    ;

    /// Addition that wraps around at `2^BITS`.
    fn wrapping_add(&self, rhs: &Self) -> (r: Self)
        ensures
            r.value() == add_mod(Self::bits(), self.value(), rhs.value()),
    ;

    /// Subtraction that wraps around at `2^BITS`.
    fn wrapping_sub(&self, rhs: &Self) -> (r: Self)
        ensures
            r.value() == sub_mod(Self::bits(), self.value(), rhs.value()),
    ;

    /// Bitwise exclusive or.
    fn bitxor(self, rhs: Self) -> (r: Self)
        ensures
            r.value() == xor(self.value(), rhs.value()),
    ;

    /// Rotation to the left by `n` positions. The amount must already be
    /// reduced modulo the width.
    fn rotate_left(self, n: u32) -> (r: Self)
        requires
            n < Self::bits(),
        ensures
            r.value() == rotl(Self::bits(), self.value(), n as nat),
    ;

    /// Rotation to the right by `n` positions. The amount must already be
    /// reduced modulo the width.
    fn rotate_right(self, n: u32) -> (r: Self)
        requires
            n < Self::bits(),
        ensures
            r.value() == rotr(Self::bits(), self.value(), n as nat),
    ;

    /// Reads a register from its little-endian bytes. Fails with
    /// [`Error::InvalidBytes`] unless there are exactly `BITS / 8` of them.
    fn from_le_bytes(bytes: &[u8]) -> (r: Result<Self, Error>)
        ensures
            bytes@.len() == Self::bits() / 8 ==> r is Ok && r->Ok_0.value() == le_value(bytes@),
            bytes@.len() != Self::bits() / 8 ==> r == Err::<Self, Error>(Error::InvalidBytes),
    ;

    /// The `BITS / 8` bytes of the register, least significant first.
    fn to_le_bytes(&self) -> (bytes: Vec<u8>)
        ensures
            bytes@ == le_bytes(self.value(), Self::bits() / 8),
    ;
}

impl Word for u16 {
    open spec fn bits() -> nat {
        16
    }

    open spec fn p() -> nat {
        0xB7E1
    }

    open spec fn q() -> nat {
        0x9E37
    }

    const BITS: usize = 16;

    const P: u16 = 0xB7E1;

    const Q: u16 = 0x9E37;

    open spec fn value(self) -> nat {
        self as nat
    }

    proof fn lemma_constants() {
    }

    proof fn lemma_value_fits(self) {
        lemma2_to64();
    }

    proof fn lemma_value_injective(self, other: u16) {
    }

    fn zero() -> (r: u16) {
        numeric::u16_zero()
    }

    fn from_u8(byte: u8) -> (r: u16) {
        numeric::u16_from_u8(byte).unwrap()
    }

    fn to_u128(&self) -> (r: Option<u128>) {
        numeric::u16_to_u128(*self)
    }

    fn wrapping_add(&self, rhs: &u16) -> (r: u16) {
        numeric::u16_wrapping_add(*self, *rhs)
    }

    fn wrapping_sub(&self, rhs: &u16) -> (r: u16) {
        numeric::u16_wrapping_sub(*self, *rhs)
    }

    fn bitxor(self, rhs: u16) -> (r: u16) {
        proof {
            assert((self as u128) ^ (rhs as u128) == (self ^ rhs) as u128) by (bit_vector);
        }
        self ^ rhs
    }

    fn rotate_left(self, n: u32) -> (r: u16) {
        numeric::u16_rotate_left(self, n)
    }

    fn rotate_right(self, n: u32) -> (r: u16) {
        numeric::u16_rotate_right(self, n)
    }

    fn from_le_bytes(bytes: &[u8]) -> (r: Result<u16, Error>) {
        if bytes.len() != 2 {
            return Err(Error::InvalidBytes);
        }
        proof {
            lemma_le_value_bound(bytes@);
            lemma2_to64();
        }
        let x: u128 = read_le(bytes);
        Ok(x as u16)
    }

    fn to_le_bytes(&self) -> (bytes: Vec<u8>) {
        write_le(*self as u128, 2)
    }
}

impl Word for u32 {
    open spec fn bits() -> nat {
        32
    }

    open spec fn p() -> nat {
        0xB7E15163
    }

    open spec fn q() -> nat {
        0x9E3779B9
    }

    const BITS: usize = 32;

    const P: u32 = 0xB7E15163;

    const Q: u32 = 0x9E3779B9;

    open spec fn value(self) -> nat {
        self as nat
    }

    proof fn lemma_constants() {
    }

    proof fn lemma_value_fits(self) {
        lemma2_to64();
    }

    proof fn lemma_value_injective(self, other: u32) {
    }

    fn zero() -> (r: u32) {
        numeric::u32_zero()
    }

    fn from_u8(byte: u8) -> (r: u32) {
        numeric::u32_from_u8(byte).unwrap()
    }

    fn to_u128(&self) -> (r: Option<u128>) {
        numeric::u32_to_u128(*self)
    }

    fn wrapping_add(&self, rhs: &u32) -> (r: u32) {
        numeric::u32_wrapping_add(*self, *rhs)
    }

    fn wrapping_sub(&self, rhs: &u32) -> (r: u32) {
        numeric::u32_wrapping_sub(*self, *rhs)
    }

    fn bitxor(self, rhs: u32) -> (r: u32) {
        proof {
            assert((self as u128) ^ (rhs as u128) == (self ^ rhs) as u128) by (bit_vector);
        }
        self ^ rhs
    }

    fn rotate_left(self, n: u32) -> (r: u32) {
        numeric::u32_rotate_left(self, n)
    }

    fn rotate_right(self, n: u32) -> (r: u32) {
        numeric::u32_rotate_right(self, n)
    }

    fn from_le_bytes(bytes: &[u8]) -> (r: Result<u32, Error>) {
        if bytes.len() != 4 {
            return Err(Error::InvalidBytes);
        }
        proof {
            lemma_le_value_bound(bytes@);
            lemma2_to64();
        }
        let x: u128 = read_le(bytes);
        Ok(x as u32)
    }

    fn to_le_bytes(&self) -> (bytes: Vec<u8>) {
        write_le(*self as u128, 4)
    }
}

impl Word for u64 {
    open spec fn bits() -> nat {
        64
    }

    open spec fn p() -> nat {
        0xB7E151628AED2A6B
    }

    open spec fn q() -> nat {
        0x9E3779B97F4A7C15
    }

    const BITS: usize = 64;

    const P: u64 = 0xB7E151628AED2A6B;

    const Q: u64 = 0x9E3779B97F4A7C15;

    open spec fn value(self) -> nat {
        self as nat
    }

    proof fn lemma_constants() {
    }

    proof fn lemma_value_fits(self) {
        lemma2_to64();
    }

    proof fn lemma_value_injective(self, other: u64) {
    }

    fn zero() -> (r: u64) {
        numeric::u64_zero()
    }

    fn from_u8(byte: u8) -> (r: u64) {
        numeric::u64_from_u8(byte).unwrap()
    }

    fn to_u128(&self) -> (r: Option<u128>) {
        numeric::u64_to_u128(*self)
    }

    fn wrapping_add(&self, rhs: &u64) -> (r: u64) {
        numeric::u64_wrapping_add(*self, *rhs)
    }

    fn wrapping_sub(&self, rhs: &u64) -> (r: u64) {
        numeric::u64_wrapping_sub(*self, *rhs)
    }

    fn bitxor(self, rhs: u64) -> (r: u64) {
        proof {
            assert((self as u128) ^ (rhs as u128) == (self ^ rhs) as u128) by (bit_vector);
        }
        self ^ rhs
    }

    fn rotate_left(self, n: u32) -> (r: u64) {
        numeric::u64_rotate_left(self, n)
    }

    fn rotate_right(self, n: u32) -> (r: u64) {
        numeric::u64_rotate_right(self, n)
    }

    fn from_le_bytes(bytes: &[u8]) -> (r: Result<u64, Error>) {
        if bytes.len() != 8 {
            return Err(Error::InvalidBytes);
        }
        proof {
            lemma_le_value_bound(bytes@);
            lemma2_to64();
        }
        let x: u128 = read_le(bytes);
        Ok(x as u64)
    }

    fn to_le_bytes(&self) -> (bytes: Vec<u8>) {
        write_le(*self as u128, 8)
    }
}

impl Word for u128 {
    open spec fn bits() -> nat {
        128
    }

    open spec fn p() -> nat {
        0xB7E151628AED2A6ABF7158809CF4F3C7
    }

    open spec fn q() -> nat {
        0x9E3779B97F4A7C15F39CC0605CEDC835
    }

    const BITS: usize = 128;

    const P: u128 = 0xB7E151628AED2A6ABF7158809CF4F3C7;

    const Q: u128 = 0x9E3779B97F4A7C15F39CC0605CEDC835;

    open spec fn value(self) -> nat {
        self as nat
    }

    proof fn lemma_constants() {
    }

    proof fn lemma_value_fits(self) {
        lemma_modulus_128();
    }

    proof fn lemma_value_injective(self, other: u128) {
    }

    fn zero() -> (r: u128) {
        numeric::u128_zero()
    }

    fn from_u8(byte: u8) -> (r: u128) {
        numeric::u128_from_u8(byte).unwrap()
    }

    fn to_u128(&self) -> (r: Option<u128>) {
        numeric::u128_to_u128(*self)
    }

    fn wrapping_add(&self, rhs: &u128) -> (r: u128) {
        numeric::u128_wrapping_add(*self, *rhs)
    }

    fn wrapping_sub(&self, rhs: &u128) -> (r: u128) {
        numeric::u128_wrapping_sub(*self, *rhs)
    }

    fn bitxor(self, rhs: u128) -> (r: u128) {
        proof {
            assert((self as u128) ^ (rhs as u128) == (self ^ rhs) as u128) by (bit_vector);
        }
        self ^ rhs
    }

    fn rotate_left(self, n: u32) -> (r: u128) {
        numeric::u128_rotate_left(self, n)
    }

    fn rotate_right(self, n: u32) -> (r: u128) {
        numeric::u128_rotate_right(self, n)
    }

    fn from_le_bytes(bytes: &[u8]) -> (r: Result<u128, Error>) {
        if bytes.len() != 16 {
            return Err(Error::InvalidBytes);
        }
        proof {
            lemma_le_value_bound(bytes@);
            lemma_modulus_128();
        }
        let x: u128 = read_le(bytes);
        Ok(x)
    }

    fn to_le_bytes(&self) -> (bytes: Vec<u8>) {
        write_le(*self, 16)
    }
}

} // verus!
