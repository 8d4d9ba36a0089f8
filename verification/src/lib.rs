//! The RC5 block cipher, for registers of 16, 32, 64 or 128 bits, any number
//! of rounds up to 256 and any key of up to 256 bytes.
//!
//! A [`Context`] expands a key once and then encrypts or decrypts any
//! number of buffers. [`encrypt`] and [`decrypt`] do both in one call;
//! [`encrypt_default`] and [`decrypt_default`] fix the parameters to 32-bit
//! registers, 12 rounds and a 16-byte key.
//!
//! What each call returns is stated by [`cipher_spec`], a function of the
//! key, the buffer and the number of rounds; the laws at the end of this
//! file are proved of it.

use crate::cipher::{expand_key, expand_key_spec, MAX_KEY_SIZE, MAX_ROUNDS};
use crate::codec::{
    block_size,
    bytes_words,
    decode_words,
    decrypted_bytes,
    encode_words,
    encrypted_bytes,
    scrub,
    transform,
    transformed_bytes,
};
use crate::error::Error;
use crate::sealed::{expose, seal, sealed_bytes, wipe, SealedBytes};
use crate::word::Word;
use core::marker::PhantomData;
use vstd::prelude::*;

pub mod arith;
pub mod cipher;
pub mod codec;
pub mod endian;
pub mod error;
pub mod laws;
mod numeric;
pub mod schedule;
pub mod sealed;
pub mod word;

verus! {

/// An expanded key, ready to encrypt and decrypt.
///
/// The subkeys are kept as secret material: sealed, in the little-endian
/// bytes of their registers, and wiped from memory when the context is
/// dropped. A context never changes after it is made.
pub struct Context<W: Word = u32> {
    expanded_key: SealedBytes,
    rounds: usize,
    word: PhantomData<W>,
}

impl<W: Word> Context<W> {
    /// The sealed bytes are those of `2 * (rounds + 1)` registers.
    #[verifier::type_invariant]
    closed spec fn well_formed(self) -> bool {
        &&& self.rounds <= MAX_ROUNDS
        &&& sealed_bytes(self.expanded_key).len() == 2 * (self.rounds + 1) * (W::bits() / 8)
    }

    /// The subkeys that the context holds, as numbers.
    pub closed spec fn subkeys(self) -> Seq<nat> {
        bytes_words(sealed_bytes(self.expanded_key), W::bits() / 8)
    }

    /// The number of rounds that the context was made for.
    pub closed spec fn spec_rounds(self) -> nat {
        self.rounds as nat
    }

    /// Expands `key` for `rounds` rounds and wipes the key.
    ///
    /// Fails with [`Error::InvalidKeySize`] if the key is longer than 256
    /// bytes, else with [`Error::InvalidRoundsCount`] if more than 256 rounds
    /// are asked for.
    pub fn new(key: Vec<u8>, rounds: usize) -> (r: Result<Self, Error>)
        ensures
            key.len() > MAX_KEY_SIZE ==> r is Err && r->Err_0 == Error::InvalidKeySize,
            key.len() <= MAX_KEY_SIZE && rounds > MAX_ROUNDS ==> r is Err && r->Err_0
                == Error::InvalidRoundsCount,
            key.len() <= MAX_KEY_SIZE && rounds <= MAX_ROUNDS ==> r is Ok
                && r->Ok_0.subkeys() == expand_key_spec::<W>(key@, rounds as nat)
                && r->Ok_0.spec_rounds() == rounds,
    {
        let mut key = key;
        let mut subkeys = match expand_and_wipe::<W>(&mut key, rounds) {
            Ok(subkeys) => subkeys,
            Err(e) => { return Err(e); },
        };
        let bytes = encode_words(subkeys.as_slice());
        proof {
            W::lemma_constants();
            crate::cipher::lemma_values_fit(subkeys@);
            crate::codec::lemma_bytes_words_of_word_bytes(
                crate::cipher::values(subkeys@),
                W::bits() / 8,
            );
        }
        scrub(&mut subkeys);
        Ok(Context { expanded_key: seal(bytes), rounds, word: PhantomData })
    }

    /// The number of rounds that the context was made for: at most 256,
    /// with two subkeys for the whitening and two for each round.
    pub fn rounds(&self) -> (rounds: usize)
        ensures
            rounds == self.spec_rounds(),
            rounds <= MAX_ROUNDS,
            self.subkeys().len() == 2 * (rounds + 1),
    {
        proof {
            use_type_invariant(self);
            W::lemma_constants();
            self.lemma_subkeys_len();
        }
        self.rounds
    }

    /// The subkeys that the context holds: `2 * (rounds + 1)` registers.
    pub fn expanded_key(&self) -> (subkeys: Vec<W>)
        ensures
            crate::cipher::values(subkeys@) == self.subkeys(),
            subkeys.len() == 2 * (self.spec_rounds() + 1),
    {
        proof {
            use_type_invariant(self);
            W::lemma_constants();
            self.lemma_subkeys_len();
        }
        match decode_words(expose(&self.expanded_key).as_slice()) {
            Ok(subkeys) => subkeys,
            Err(_) => Vec::new(),
        }
    }

    /// The sealed bytes make up whole registers, two for the whitening and
    /// two for each round.
    proof fn lemma_subkeys_len(self)
        requires
            self.well_formed(),
            W::bits() >= 8,
        ensures
            sealed_bytes(self.expanded_key).len() % (W::bits() / 8) == 0,
            self.subkeys().len() == 2 * (self.rounds + 1),
    {
        let width = (W::bits() / 8) as int;
        let count = 2 * (self.rounds + 1);
        vstd::arithmetic::div_mod::lemma_fundamental_div_mod_converse(
            count * width,
            width,
            count,
            0,
        );
    }

    /// Transforms a buffer under the subkeys of this context.
    fn apply(&self, data: &[u8], encrypting: bool) -> (r: Result<Vec<u8>, Error>)
        ensures
            data@.len() % block_size(W::bits()) != 0 ==> r is Err && r->Err_0
                == Error::InvalidInputLength,
            data@.len() % block_size(W::bits()) == 0 ==> r is Ok && r->Ok_0@
                == transformed_bytes(W::bits(), self.subkeys(), data@, encrypting)
                && r->Ok_0.len() == data.len(),
    {
        proof {
            use_type_invariant(self);
            W::lemma_constants();
            self.lemma_subkeys_len();
        }
        let word_bytes: usize = W::BITS / 8;
        let block_size: usize = 2 * word_bytes;
        if data.len() % block_size != 0 {
            return Err(Error::InvalidInputLength);
        }
        let mut subkeys: Vec<W> = match decode_words(expose(&self.expanded_key).as_slice()) {
            Ok(subkeys) => subkeys,
            Err(e) => { return Err(e); },
        };
        let out = transform(subkeys.as_slice(), data, encrypting);
        scrub(&mut subkeys);
        out
    }

    /// Encrypts a buffer of whole blocks; a block is `2 * BITS / 8` bytes.
    /// No padding is done.
    ///
    /// Fails with [`Error::InvalidInputLength`] unless the buffer is made of
    /// whole blocks. Otherwise the result is as long as the buffer.
    pub fn encrypt(&self, plaintext: &[u8]) -> (r: Result<Vec<u8>, Error>)
        ensures
            plaintext@.len() % block_size(W::bits()) != 0 ==> r is Err && r->Err_0
                == Error::InvalidInputLength,
            plaintext@.len() % block_size(W::bits()) == 0 ==> r is Ok && r->Ok_0@
                == encrypted_bytes(W::bits(), self.subkeys(), plaintext@) && r->Ok_0.len()
                == plaintext.len(),
    {
        self.apply(plaintext, true)
    }

    /// Decrypts a buffer of whole blocks; a block is `2 * BITS / 8` bytes.
    ///
    /// Fails with [`Error::InvalidInputLength`] unless the buffer is made of
    /// whole blocks. Otherwise the result is as long as the buffer.
    pub fn decrypt(&self, ciphertext: &[u8]) -> (r: Result<Vec<u8>, Error>)
        ensures
            ciphertext@.len() % block_size(W::bits()) != 0 ==> r is Err && r->Err_0
                == Error::InvalidInputLength,
            ciphertext@.len() % block_size(W::bits()) == 0 ==> r is Ok && r->Ok_0@
                == decrypted_bytes(W::bits(), self.subkeys(), ciphertext@) && r->Ok_0.len()
                == ciphertext.len(),
    {
        self.apply(ciphertext, false)
    }
}

/// Expands a key as [`expand_key`] does, and wipes it: whether or not the key
/// could be expanded, its bytes are overwritten with zeros and the vector is
/// left empty.
pub fn expand_and_wipe<W: Word>(key: &mut Vec<u8>, rounds: usize) -> (r: Result<Vec<W>, Error>)
    ensures
        final(key)@ == Seq::<u8>::empty(),
        old(key).len() > MAX_KEY_SIZE ==> r is Err && r->Err_0 == Error::InvalidKeySize,
        old(key).len() <= MAX_KEY_SIZE && rounds > MAX_ROUNDS ==> r is Err && r->Err_0
            == Error::InvalidRoundsCount,
        old(key).len() <= MAX_KEY_SIZE && rounds <= MAX_ROUNDS ==> r is Ok
            && crate::cipher::values(r->Ok_0@) == expand_key_spec::<W>(old(key)@, rounds as nat)
            && r->Ok_0.len() == 2 * (rounds + 1),
{
    let expanded = expand_key::<W>(key.as_slice(), rounds);
    wipe(key);
    expanded
}

/// What a one-shot call returns: the failure that comes first, or the
/// buffer transformed under the expanded key.
pub open spec fn cipher_spec<W: Word>(
    key: Seq<u8>,
    data: Seq<u8>,
    rounds: nat,
    encrypting: bool,
) -> Result<Seq<u8>, Error> {
    if key.len() > MAX_KEY_SIZE {
        Err(Error::InvalidKeySize)
    } else if rounds > MAX_ROUNDS {
        Err(Error::InvalidRoundsCount)
    } else if data.len() % block_size(W::bits()) != 0 {
        Err(Error::InvalidInputLength)
    } else {
        Ok(transformed_bytes(W::bits(), expand_key_spec::<W>(key, rounds), data, encrypting))
    }
}

/// What [`encrypt`] returns.
pub open spec fn encrypt_spec<W: Word>(key: Seq<u8>, plaintext: Seq<u8>, rounds: nat) -> Result<
    Seq<u8>,
    Error,
> {
    cipher_spec::<W>(key, plaintext, rounds, true)
}

/// What [`decrypt`] returns.
pub open spec fn decrypt_spec<W: Word>(key: Seq<u8>, ciphertext: Seq<u8>, rounds: nat) -> Result<
    Seq<u8>,
    Error,
> {
    cipher_spec::<W>(key, ciphertext, rounds, false)
}

/// The result of a call, with the bytes of the buffer in place of the
/// buffer.
pub open spec fn outcome(r: Result<Vec<u8>, Error>) -> Result<Seq<u8>, Error> {
    match r {
        Ok(bytes) => Ok(bytes@),
        Err(e) => Err(e),
    }
}

/// Encrypts `plaintext` under `key` with `rounds` rounds, on registers of
/// type `W`.
///
/// Fails with [`Error::InvalidKeySize`] if the key is longer than 256 bytes,
/// else with [`Error::InvalidRoundsCount`] if there are more than 256 rounds,
/// else with [`Error::InvalidInputLength`] unless the plaintext is made of
/// whole blocks.
pub fn encrypt<W: Word>(key: &[u8], plaintext: &[u8], rounds: usize) -> (r: Result<Vec<u8>, Error>)
    ensures
        outcome(r) == encrypt_spec::<W>(key@, plaintext@, rounds as nat),
{
    let context = match Context::<W>::new(vstd::slice::slice_to_vec(key), rounds) {
        Ok(context) => context,
        Err(e) => { return Err(e); },
    };
    context.encrypt(plaintext)
}

/// Decrypts `ciphertext` under `key` with `rounds` rounds, on registers of
/// type `W`.
///
/// Fails with [`Error::InvalidKeySize`] if the key is longer than 256 bytes,
/// else with [`Error::InvalidRoundsCount`] if there are more than 256 rounds,
/// else with [`Error::InvalidInputLength`] unless the ciphertext is made of
/// whole blocks.
pub fn decrypt<W: Word>(key: &[u8], ciphertext: &[u8], rounds: usize) -> (r: Result<
    Vec<u8>,
    Error,
>)
    ensures
        outcome(r) == decrypt_spec::<W>(key@, ciphertext@, rounds as nat),
{
    let context = match Context::<W>::new(vstd::slice::slice_to_vec(key), rounds) {
        Ok(context) => context,
        Err(e) => { return Err(e); },
    };
    context.decrypt(ciphertext)
}

/// Encrypts `plaintext` with 32-bit registers, 12 rounds and a 16-byte key.
///
/// Fails with [`Error::InvalidInputLength`] unless the plaintext is made of
/// whole blocks of 8 bytes.
pub fn encrypt_default(key: [u8; 16], plaintext: &[u8]) -> (r: Result<Vec<u8>, Error>)
    ensures
        outcome(r) == encrypt_spec::<u32>(key@, plaintext@, 12),
{
    encrypt::<u32>(key.as_slice(), plaintext, 12)
}

/// Decrypts `ciphertext` with 32-bit registers, 12 rounds and a 16-byte
/// key.
///
/// Fails with [`Error::InvalidInputLength`] unless the ciphertext is made of
/// whole blocks of 8 bytes.
pub fn decrypt_default(key: [u8; 16], ciphertext: &[u8]) -> (r: Result<Vec<u8>, Error>)
    ensures
        outcome(r) == decrypt_spec::<u32>(key@, ciphertext@, 12),
{
    decrypt::<u32>(key.as_slice(), ciphertext, 12)
}

} // verus!
