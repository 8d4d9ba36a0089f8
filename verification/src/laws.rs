//! Laws of the cipher.
//!
//! Each is proved of the functions that state what the executable functions
//! return, and so holds of every call, for every register type.

use crate::cipher::{expand_key_spec, MAX_KEY_SIZE, MAX_ROUNDS};
use crate::codec::{
    block_size,
    decrypted_bytes,
    encrypted_bytes,
    lemma_bytes_round_trip,
    lemma_transformed_bytes_len,
};
use crate::error::Error;
use crate::schedule::lemma_expanded_key_len;
use crate::word::Word;
use crate::{cipher_spec, decrypt, decrypt_spec, encrypt, encrypt_spec, outcome, Context};
use vstd::prelude::*;

verus! {

/// Decryption undoes encryption: for every register type, every key of at
/// most 256 bytes, the empty key among them, every number of rounds up to
/// 256 and every plaintext made of whole blocks, the plaintext can be
/// encrypted, and decrypting the ciphertext under the same key and rounds
/// gives the plaintext back.
pub proof fn lemma_round_trip<W: Word>(key: Seq<u8>, plaintext: Seq<u8>, rounds: nat)
    requires
        key.len() <= MAX_KEY_SIZE,
        rounds <= MAX_ROUNDS,
        plaintext.len() % block_size(W::bits()) == 0,
    ensures
        encrypt_spec::<W>(key, plaintext, rounds) is Ok,
        decrypt_spec::<W>(key, encrypt_spec::<W>(key, plaintext, rounds)->Ok_0, rounds) == Ok::<
            Seq<u8>,
            Error,
        >(plaintext),
{
    W::lemma_constants();
    let bits = W::bits();
    let s = expand_key_spec::<W>(key, rounds);
    lemma_transformed_bytes_len(bits, s, plaintext, true);
    lemma_bytes_round_trip(bits, s, plaintext);
}

/// Under one context, decryption undoes encryption: whatever subkeys the
/// context holds, decrypting the encryption of a buffer of whole blocks
/// gives the buffer back.
pub proof fn lemma_context_round_trip<W: Word>(context: Context<W>, plaintext: Seq<u8>)
    requires
        plaintext.len() % block_size(W::bits()) == 0,
    ensures
        decrypted_bytes(
            W::bits(),
            context.subkeys(),
            encrypted_bytes(W::bits(), context.subkeys(), plaintext),
        ) == plaintext,
{
    W::lemma_constants();
    lemma_bytes_round_trip(W::bits(), context.subkeys(), plaintext);
}

/// A transformed buffer is as long as the buffer it was made from, in
/// encryption and in decryption.
pub proof fn lemma_length_preserved<W: Word>(
    key: Seq<u8>,
    data: Seq<u8>,
    rounds: nat,
    encrypting: bool,
)
    requires
        cipher_spec::<W>(key, data, rounds, encrypting) is Ok,
    ensures
        cipher_spec::<W>(key, data, rounds, encrypting)->Ok_0.len() == data.len(),
{
    W::lemma_constants();
    lemma_transformed_bytes_len(
        W::bits(),
        expand_key_spec::<W>(key, rounds),
        data,
        encrypting,
    );
}

/// A call succeeds exactly when the key has at most 256 bytes, there are at
/// most 256 rounds and the buffer is made of whole blocks; the first of
/// the three that fails, in this order, names the failure.
pub proof fn lemma_failures<W: Word>(key: Seq<u8>, data: Seq<u8>, rounds: nat, encrypting: bool)
    ensures
        key.len() > MAX_KEY_SIZE ==> cipher_spec::<W>(key, data, rounds, encrypting) == Err::<
            Seq<u8>,
            Error,
        >(Error::InvalidKeySize),
        key.len() <= MAX_KEY_SIZE && rounds > MAX_ROUNDS ==> cipher_spec::<W>(
            key,
            data,
            rounds,
            encrypting,
        ) == Err::<Seq<u8>, Error>(Error::InvalidRoundsCount),
        key.len() <= MAX_KEY_SIZE && rounds <= MAX_ROUNDS && data.len() % block_size(
            W::bits(),
        ) != 0 ==> cipher_spec::<W>(key, data, rounds, encrypting) == Err::<Seq<u8>, Error>(
            Error::InvalidInputLength,
        ),
        key.len() <= MAX_KEY_SIZE && rounds <= MAX_ROUNDS && data.len() % block_size(
            W::bits(),
        ) == 0 ==> cipher_spec::<W>(key, data, rounds, encrypting) is Ok,
{
}

/// A key expands to two subkeys for the whitening and two for each round,
/// whatever the key.
pub proof fn lemma_subkey_count<W: Word>(key: Seq<u8>, rounds: nat)
    ensures
        expand_key_spec::<W>(key, rounds).len() == 2 * (rounds + 1),
{
    W::lemma_constants();
    lemma_expanded_key_len(W::bits(), W::p(), W::q(), key, rounds);
}

/// Encryption is a function of the key, the number of rounds and the
/// plaintext: two calls with the same three return the same.
pub proof fn lemma_encrypt_deterministic<W: Word>(
    key: &[u8],
    plaintext: &[u8],
    rounds: usize,
    first: Result<Vec<u8>, Error>,
    second: Result<Vec<u8>, Error>,
)
    requires
        call_ensures(encrypt::<W>, (key, plaintext, rounds), first),
        call_ensures(encrypt::<W>, (key, plaintext, rounds), second),
    ensures
        outcome(first) == outcome(second),
{
}

/// Decryption is a function of the key, the number of rounds and the
/// ciphertext: two calls with the same three return the same.
pub proof fn lemma_decrypt_deterministic<W: Word>(
    key: &[u8],
    ciphertext: &[u8],
    rounds: usize,
    first: Result<Vec<u8>, Error>,
    second: Result<Vec<u8>, Error>,
)
    requires
        call_ensures(decrypt::<W>, (key, ciphertext, rounds), first),
        call_ensures(decrypt::<W>, (key, ciphertext, rounds), second),
    ensures
        outcome(first) == outcome(second),
{
}

} // verus!
