//! The key schedule and the block transform.
//!
//! Both are first defined on numbers, for a register width given in bits, and
//! then computed on registers of any [`Word`] type. What the executable
//! functions return is stated through the definitions on numbers.

use crate::arith::{
    add_mod,
    fits,
    lemma_add_mod_fits,
    lemma_add_then_sub,
    lemma_rotl_fits,
    lemma_rotl_then_rotr,
    lemma_xor_fits,
    lemma_xor_twice,
    lemma_fits_wider,
    rotl,
    rotr,
    sub_mod,
    xor,
};
use crate::endian::{le_value, lemma_le_value_bound};
use crate::error::Error;
use crate::numeric;
use crate::schedule::{
    Mix,
    expanded_key,
    initial_subkeys,
    key_chunk_from,
    key_word_count,
    key_words,
    lemma_initial_subkeys_step,
    lemma_key_chunk_from_end,
    lemma_key_chunk_from_start,
    lemma_key_chunk_step,
    lemma_key_word_count,
    mix,
    mix_step,
    mix_steps,
    subkey_count,
};
use crate::word::Word;
use vstd::prelude::*;

verus! {

/// The numbers held by a sequence of registers.
pub open spec fn values<W: Word>(words: Seq<W>) -> Seq<nat> {
    Seq::new(words.len(), |i: int| words[i].value())
}

/// Whether every number of `s` fits a register of `bits` bits.
pub open spec fn all_fit(bits: nat, s: Seq<nat>) -> bool {
    forall|i: int| 0 <= i < s.len() ==> fits(bits, #[trigger] s[i])
}

/// The numbers held by registers fit the registers' width.
pub proof fn lemma_values_fit<W: Word>(words: Seq<W>)
    ensures
        all_fit(W::bits(), values(words)),
        values(words).len() == words.len(),
{
    assert forall|i: int| 0 <= i < words.len() implies fits(
        W::bits(),
        #[trigger] values(words)[i],
    ) by {
        words[i].lemma_value_fits();
    }
}

/// The number of rounds that a subkey array of `len` entries serves: two
/// entries whiten the block, each further pair serves one round.
pub open spec fn round_count(len: nat) -> nat {
    (len / 2 - 1) as nat
}

/// The rotation amount that a register's content asks for.
pub open spec fn rotation(bits: nat, x: nat) -> nat {
    x % bits
}

/// Round `i >= 1` of encryption, applied to the block `(a, b)`.
pub open spec fn encrypt_round(bits: nat, s: Seq<nat>, block: (nat, nat), i: int) -> (nat, nat) {
    let (a, b) = block;
    let a1 = add_mod(bits, rotl(bits, xor(a, b), rotation(bits, b)), s[2 * i]);
    let b1 = add_mod(bits, rotl(bits, xor(b, a1), rotation(bits, a1)), s[2 * i + 1]);
    (a1, b1)
}

/// The block after key whitening and the first `rounds` rounds of
/// encryption.
pub open spec fn encrypt_rounds(bits: nat, s: Seq<nat>, block: (nat, nat), rounds: nat) -> (
    nat,
    nat,
)
    decreases rounds,
{
    if rounds == 0 {
        (add_mod(bits, block.0, s[0]), add_mod(bits, block.1, s[1]))
    } else {
        encrypt_round(bits, s, encrypt_rounds(bits, s, block, (rounds - 1) as nat), rounds as int)
    }
}

/// The encryption of `block` under the subkeys `s`.
pub open spec fn encrypted_block(bits: nat, s: Seq<nat>, block: (nat, nat)) -> (nat, nat) {
    encrypt_rounds(bits, s, block, round_count(s.len()))
}

/// Round `i >= 1` of encryption, undone.
pub open spec fn decrypt_round(bits: nat, s: Seq<nat>, block: (nat, nat), i: int) -> (nat, nat) {
    let (a, b) = block;
    let b0 = xor(rotr(bits, sub_mod(bits, b, s[2 * i + 1]), rotation(bits, a)), a);
    let a0 = xor(rotr(bits, sub_mod(bits, a, s[2 * i]), rotation(bits, b0)), b0);
    (a0, b0)
}

/// The block after rounds `rounds`, `rounds - 1`, ..., 1 and the key
/// whitening have been undone, in this order.
pub open spec fn decrypt_rounds(bits: nat, s: Seq<nat>, block: (nat, nat), rounds: nat) -> (
    nat,
    nat,
)
    decreases rounds,
{
    if rounds == 0 {
        (sub_mod(bits, block.0, s[0]), sub_mod(bits, block.1, s[1]))
    } else {
        decrypt_rounds(bits, s, decrypt_round(bits, s, block, rounds as int), (rounds - 1) as nat)
    }
}

/// The decryption of `block` under the subkeys `s`.
pub open spec fn decrypted_block(bits: nat, s: Seq<nat>, block: (nat, nat)) -> (nat, nat) {
    decrypt_rounds(bits, s, block, round_count(s.len()))
}

/// Both halves of a block fit the register.
pub open spec fn block_fits(bits: nat, block: (nat, nat)) -> bool {
    fits(bits, block.0) && fits(bits, block.1)
}

/// A round of encryption keeps both halves within the register.
pub proof fn lemma_encrypt_round_fits(bits: nat, s: Seq<nat>, block: (nat, nat), i: int)
    ensures
        block_fits(bits, encrypt_round(bits, s, block, i)),
{
    let (a, b) = block;
    let a1 = add_mod(bits, rotl(bits, xor(a, b), rotation(bits, b)), s[2 * i]);
    lemma_add_mod_fits(bits, rotl(bits, xor(a, b), rotation(bits, b)), s[2 * i]);
    lemma_add_mod_fits(bits, rotl(bits, xor(b, a1), rotation(bits, a1)), s[2 * i + 1]);
}

/// Whitening and any number of rounds keep both halves within the register.
pub proof fn lemma_encrypt_rounds_fit(bits: nat, s: Seq<nat>, block: (nat, nat), rounds: nat)
    ensures
        block_fits(bits, encrypt_rounds(bits, s, block, rounds)),
{
    if rounds == 0 {
        lemma_add_mod_fits(bits, block.0, s[0]);
        lemma_add_mod_fits(bits, block.1, s[1]);
    } else {
        lemma_encrypt_round_fits(
            bits,
            s,
            encrypt_rounds(bits, s, block, (rounds - 1) as nat),
            rounds as int,
        );
    }
}

/// Undoing a round gives back the block that the round was applied to.
pub proof fn lemma_round_undone(bits: nat, s: Seq<nat>, block: (nat, nat), i: int)
    requires
        0 < bits <= 128,
        block_fits(bits, block),
    ensures
        decrypt_round(bits, s, encrypt_round(bits, s, block, i), i) == block,
{
    let (a, b) = block;
    lemma_fits_wider(bits, 128, a);
    lemma_fits_wider(bits, 128, b);
    // the first half of the round, and how it is undone last
    let xa = xor(a, b);
    let ra = rotl(bits, xa, rotation(bits, b));
    let a1 = add_mod(bits, ra, s[2 * i]);
    lemma_xor_fits(bits, a, b);
    lemma_rotl_fits(bits, xa, rotation(bits, b));
    lemma_add_mod_fits(bits, ra, s[2 * i]);
    lemma_add_then_sub(bits, ra, s[2 * i]);
    lemma_rotl_then_rotr(bits, xa, rotation(bits, b));
    lemma_xor_twice(a, b);
    // the second half of the round, and how it is undone first
    lemma_fits_wider(bits, 128, a1);
    let xb = xor(b, a1);
    let rb = rotl(bits, xb, rotation(bits, a1));
    lemma_xor_fits(bits, b, a1);
    lemma_rotl_fits(bits, xb, rotation(bits, a1));
    lemma_add_then_sub(bits, rb, s[2 * i + 1]);
    lemma_rotl_then_rotr(bits, xb, rotation(bits, a1));
    lemma_xor_twice(b, a1);
}

/// Undoing `rounds` rounds and the whitening gives back the block that they
/// were applied to.
pub proof fn lemma_rounds_undone(bits: nat, s: Seq<nat>, block: (nat, nat), rounds: nat)
    requires
        0 < bits <= 128,
        block_fits(bits, block),
    ensures
        decrypt_rounds(bits, s, encrypt_rounds(bits, s, block, rounds), rounds) == block,
    decreases rounds,
{
    if rounds == 0 {
        lemma_add_then_sub(bits, block.0, s[0]);
        lemma_add_then_sub(bits, block.1, s[1]);
    } else {
        let inner = encrypt_rounds(bits, s, block, (rounds - 1) as nat);
        lemma_encrypt_rounds_fit(bits, s, block, (rounds - 1) as nat);
        lemma_round_undone(bits, s, inner, rounds as int);
        lemma_rounds_undone(bits, s, block, (rounds - 1) as nat);
    }
}

/// Decryption is the inverse of encryption: for every subkey array and
/// every block whose halves fit the register, decrypting the encrypted block
/// gives the block back.
pub proof fn lemma_block_round_trip(bits: nat, s: Seq<nat>, block: (nat, nat))
    requires
        0 < bits <= 128,
        block_fits(bits, block),
    ensures
        decrypted_block(bits, s, encrypted_block(bits, s, block)) == block,
        block_fits(bits, encrypted_block(bits, s, block)),
{
    lemma_rounds_undone(bits, s, block, round_count(s.len()));
    lemma_encrypt_rounds_fit(bits, s, block, round_count(s.len()));
}

/// The amount by which the content of `w` asks to rotate: the register's
/// number reduced modulo the width.
fn rotation_of<W: Word>(w: &W) -> (r: Result<u32, Error>)
    ensures
        r is Ok,
        r->Ok_0 as nat == rotation(W::bits(), w.value()),
        r->Ok_0 < W::bits(),
{
    proof {
        W::lemma_constants();
        w.lemma_value_fits();
        lemma_fits_wider(W::bits(), 128, w.value());
        crate::arith::lemma_modulus_128();
    }
    match w.to_u128() {
        Some(v) => Ok((v % (W::BITS as u128)) as u32),
        None => Err(Error::InvalidWordSize),
    }
}

/// Encrypts one block of two registers under an expanded key.
///
/// The key holds at least the two whitening subkeys; each further pair
/// adds one round. The call always succeeds: [`Error::InvalidWordSize`]
/// stands for a register that cannot give its number as a rotation amount,
/// and no register that keeps the laws of [`Word`] is such a one.
pub fn encrypt_block<W: Word>(expanded_key: &[W], block: [W; 2]) -> (r: Result<[W; 2], Error>)
    requires
        expanded_key.len() >= 2,
    ensures
        r is Ok,
        (r->Ok_0[0].value(), r->Ok_0[1].value()) == encrypted_block(
            W::bits(),
            values(expanded_key@),
            (block[0].value(), block[1].value()),
        ),
{
    let num_rounds: usize = expanded_key.len() / 2 - 1;
    let ghost bits = W::bits();
    let ghost s = values(expanded_key@);
    let ghost start = (block[0].value(), block[1].value());
    proof {
        assert(s[0] == expanded_key@[0].value());
        assert(s[1] == expanded_key@[1].value());
    }
    let mut a = block[0].wrapping_add(&expanded_key[0]);
    let mut b = block[1].wrapping_add(&expanded_key[1]);
    let mut i: usize = 1;
    while i <= num_rounds
        invariant
            1 <= i <= num_rounds + 1,
            num_rounds == expanded_key.len() / 2 - 1,
            expanded_key.len() >= 2,
            bits == W::bits(),
            s == values(expanded_key@),
            (a.value(), b.value()) == encrypt_rounds(bits, s, start, (i - 1) as nat),
        decreases num_rounds + 1 - i,
    {
        let ghost before = (a.value(), b.value());
        let rot: u32 = match rotation_of(&b) {
            Ok(n) => n,
            Err(e) => { return Err(e); },
        };
        proof {
            assert(s[2 * i] == expanded_key@[2 * i].value());
            assert(s[2 * i + 1] == expanded_key@[2 * i + 1].value());
        }
        a = a.bitxor(b).rotate_left(rot).wrapping_add(&expanded_key[2 * i]);
        let rot: u32 = match rotation_of(&a) {
            Ok(n) => n,
            Err(e) => { return Err(e); },
        };
        b = b.bitxor(a).rotate_left(rot).wrapping_add(&expanded_key[2 * i + 1]);
        proof {
            assert((a.value(), b.value()) == encrypt_round(bits, s, before, i as int));
            assert(encrypt_rounds(bits, s, start, i as nat) == encrypt_round(
                bits,
                s,
                encrypt_rounds(bits, s, start, (i - 1) as nat),
                i as int,
            ));
        }
        i += 1;
    }
    Ok([a, b])
}

/// Decrypts one block of two registers under an expanded key.
///
/// The key holds at least the two whitening subkeys; each further pair
/// adds one round. The call always succeeds, as that of [`encrypt_block`]
/// does.
pub fn decrypt_block<W: Word>(expanded_key: &[W], block: [W; 2]) -> (r: Result<[W; 2], Error>)
    requires
        expanded_key.len() >= 2,
    ensures
        r is Ok,
        (r->Ok_0[0].value(), r->Ok_0[1].value()) == decrypted_block(
            W::bits(),
            values(expanded_key@),
            (block[0].value(), block[1].value()),
        ),
{
    let num_rounds: usize = expanded_key.len() / 2 - 1;
    let ghost bits = W::bits();
    let ghost s = values(expanded_key@);
    let ghost start = (block[0].value(), block[1].value());
    let mut a = block[0];
    let mut b = block[1];
    let mut i: usize = num_rounds;
    while i >= 1
        invariant
            0 <= i <= num_rounds,
            num_rounds == expanded_key.len() / 2 - 1,
            expanded_key.len() >= 2,
            bits == W::bits(),
            s == values(expanded_key@),
            decrypt_rounds(bits, s, (a.value(), b.value()), i as nat) == decrypt_rounds(
                bits,
                s,
                start,
                num_rounds as nat,
            ),
        decreases i,
    {
        let ghost before = (a.value(), b.value());
        let rot: u32 = match rotation_of(&a) {
            Ok(n) => n,
            Err(e) => { return Err(e); },
        };
        proof {
            assert(s[2 * i] == expanded_key@[2 * i].value());
            assert(s[2 * i + 1] == expanded_key@[2 * i + 1].value());
        }
        b = b.wrapping_sub(&expanded_key[2 * i + 1]).rotate_right(rot).bitxor(a);
        let rot: u32 = match rotation_of(&b) {
            Ok(n) => n,
            Err(e) => { return Err(e); },
        };
        a = a.wrapping_sub(&expanded_key[2 * i]).rotate_right(rot).bitxor(b);
        proof {
            assert((a.value(), b.value()) == decrypt_round(bits, s, before, i as int));
            assert(decrypt_rounds(bits, s, before, i as nat) == decrypt_rounds(
                bits,
                s,
                decrypt_round(bits, s, before, i as int),
                (i - 1) as nat,
            ));
        }
        i -= 1;
    }
    proof {
        assert(s[0] == expanded_key@[0].value());
        assert(s[1] == expanded_key@[1].value());
    }
    b = b.wrapping_sub(&expanded_key[1]);
    a = a.wrapping_sub(&expanded_key[0]);
    Ok([a, b])
}

/// The longest key, in bytes.
pub const MAX_KEY_SIZE: usize = 256;

/// The largest number of rounds.
pub const MAX_ROUNDS: usize = 256;

/// The subkeys that `key` expands to for `rounds` rounds on registers of
/// type `W`, as numbers.
pub open spec fn expand_key_spec<W: Word>(key: Seq<u8>, rounds: nat) -> Seq<nat> {
    expanded_key(W::bits(), W::p(), W::q(), key, rounds)
}

/// Replacing a register replaces its number.
proof fn lemma_values_update<W: Word>(words: Seq<W>, i: int, w: W)
    requires
        0 <= i < words.len(),
    ensures
        values(words.update(i, w)) == values(words).update(i, w.value()),
{
    assert(values(words.update(i, w)) =~= values(words).update(i, w.value()));
}

/// Expands a key into the subkeys for `rounds` rounds.
///
/// Fails with [`Error::InvalidKeySize`] if the key is longer than 256 bytes,
/// else with [`Error::InvalidRoundsCount`] if more than 256 rounds are asked
/// for. Otherwise gives the `2 * (rounds + 1)` subkeys of the key schedule;
/// no other failure occurs.
pub fn expand_key<W: Word>(key: &[u8], rounds: usize) -> (r: Result<Vec<W>, Error>)
    ensures
        key.len() > MAX_KEY_SIZE ==> r is Err && r->Err_0 == Error::InvalidKeySize,
        key.len() <= MAX_KEY_SIZE && rounds > MAX_ROUNDS ==> r is Err && r->Err_0
            == Error::InvalidRoundsCount,
        key.len() <= MAX_KEY_SIZE && rounds <= MAX_ROUNDS ==> r is Ok && values(r->Ok_0@)
            == expand_key_spec::<W>(key@, rounds as nat) && r->Ok_0.len() == 2 * (rounds + 1),
{
    if key.len() > MAX_KEY_SIZE {
        return Err(Error::InvalidKeySize);
    }
    if rounds > MAX_ROUNDS {
        return Err(Error::InvalidRoundsCount);
    }
    let ghost bits = W::bits();
    let mut words: Vec<W> = key_to_words(key);
    let mut subkeys: Vec<W> = initialize_subkeys(rounds);
    let ghost s0 = values(subkeys@);
    let ghost l0 = values(words@);
    let t: usize = subkeys.len();
    let c: usize = words.len();
    proof {
        W::lemma_constants();
        lemma_key_word_count(key@.len(), bits / 8);
    }
    let iters: usize = if t >= c { t * 3 } else { c * 3 };
    let mut i: usize = 0;
    let mut j: usize = 0;
    let mut a = W::zero();
    let mut b = W::zero();
    let mut k: usize = 0;
    while k < iters
        invariant
            k <= iters,
            iters == mix_steps(t as nat, c as nat),
            bits == W::bits(),
            8 <= bits <= 128,
            t == subkeys.len(),
            c == words.len(),
            0 < t <= 514,
            0 < c <= 256,
            s0.len() == t,
            l0.len() == c,
            i == k % t,
            j == k % c,
            mix(bits, s0, l0, k as nat) == (Mix {
                s: values(subkeys@),
                l: values(words@),
                a: a.value(),
                b: b.value(),
            }),
        decreases iters - k,
    {
        let ghost before = mix(bits, s0, l0, k as nat);
        proof {
            assert(before.s[i as int] == subkeys@[i as int].value());
            assert(before.l[j as int] == words@[j as int].value());
        }
        let mixed = subkeys[i].wrapping_add(&a).wrapping_add(&b).rotate_left(3);
        proof {
            lemma_values_update(subkeys@, i as int, mixed);
        }
        subkeys.set(i, mixed);
        a = mixed;
        let rot: u32 = match rotation_of(&a.wrapping_add(&b)) {
            Ok(n) => n,
            Err(e) => { return Err(e); },
        };
        let mixed = words[j].wrapping_add(&a).wrapping_add(&b).rotate_left(rot);
        proof {
            lemma_values_update(words@, j as int, mixed);
        }
        words.set(j, mixed);
        b = mixed;
        proof {
            assert(mix(bits, s0, l0, (k + 1) as nat) == mix_step(bits, before, k as nat));
            vstd::arithmetic::div_mod::lemma_add_mod_noop(k as int, 1, t as int);
            vstd::arithmetic::div_mod::lemma_add_mod_noop(k as int, 1, c as int);
            if t > 1 {
                vstd::arithmetic::div_mod::lemma_small_mod(1, t as nat);
            }
            if c > 1 {
                vstd::arithmetic::div_mod::lemma_small_mod(1, c as nat);
            }
        }
        i = (i + 1) % t;
        j = (j + 1) % c;
        k += 1;
    }
    Ok(subkeys)
}

/// Packs the key into registers, `BITS / 8` bytes to a register, the first
/// byte of each group lowest. The empty key gives one register holding
/// zero.
pub fn key_to_words<W: Word>(key: &[u8]) -> (words: Vec<W>)
    ensures
        values(words@) == key_words(key@, W::bits() / 8),
        words.len() == key_word_count(key@.len(), W::bits() / 8),
{
    proof {
        W::lemma_constants();
    }
    let width: usize = W::BITS / 8;
    let ghost bits = W::bits();
    let ghost w = width as nat;
    let n: usize = if key.len() >= 1 { key.len() } else { 1 };
    let words_len: usize = numeric::div_ceil(n, width);
    proof {
        lemma_key_word_count(key@.len(), w);
    }
    let mut words: Vec<W> = Vec::new();
    let mut filled: usize = 0;
    while filled < words_len
        invariant
            filled <= words_len,
            words.len() == filled,
            forall|j: int| 0 <= j < filled ==> (#[trigger] words@[j]).value() == 0,
        decreases words_len - filled,
    {
        words.push(W::zero());
        filled += 1;
    }
    let shift: u32 = (8 % W::BITS) as u32;
    let mut i: usize = key.len();
    proof {
        assert forall|j: int| 0 <= j < words_len implies (#[trigger] words@[j]).value() == le_value(
            key_chunk_from(key@, w, j, i as int),
        ) by {
            lemma_key_chunk_from_end(key@, w, j);
        }
    }
    while i > 0
        invariant
            i <= key.len(),
            W::BITS == W::bits(),
            8 <= W::BITS <= 128,
            W::BITS % 8 == 0,
            bits == W::bits(),
            width == W::BITS / 8,
            w == width as nat,
            shift == 8nat % bits,
            words.len() == words_len,
            words_len == key_word_count(key@.len(), w),
            forall|j: int|
                0 <= j < words_len ==> (#[trigger] words@[j]).value() == le_value(
                    key_chunk_from(key@, w, j, i as int),
                ),
        decreases i,
    {
        let ghost from = i as int;
        let ghost old_words = words@;
        i -= 1;
        let word_index: usize = i / width;
        let byte = W::from_u8(key[i]);
        proof {
            lemma_key_word_count(key@.len(), w);
            assert(word_index < words_len) by (nonlinear_arith)
                requires
                    (words_len - 1) * width < key@.len(),
                    key@.len() <= words_len * width,
                    word_index == i / width,
                    i < key@.len(),
                    width > 0,
            {
                vstd::arithmetic::div_mod::lemma_fundamental_div_mod(i as int, width as int);
                vstd::arithmetic::div_mod::lemma_mod_bound(i as int, width as int);
            }
            lemma_key_chunk_step(key@, w, from);
            let rest = key_chunk_from(key@, w, word_index as int, from);
            lemma_le_value_bound(rest);
            if rest.len() + 1 < w {
                vstd::arithmetic::power2::lemma_pow2_strictly_increases(
                    8 * rest.len(),
                    (bits - 8) as nat,
                );
            }
            crate::arith::lemma_push_byte(bits, le_value(rest), key@[i as int] as nat);
            assert((seq![key@[i as int]] + rest).drop_first() =~= rest);
        }
        let packed = words[word_index].rotate_left(shift).wrapping_add(&byte);
        words.set(word_index, packed);
        proof {
            assert forall|j: int| 0 <= j < words_len implies (#[trigger] words@[j]).value()
                == le_value(key_chunk_from(key@, w, j, i as int)) by {
                if j != word_index {
                    assert(words@[j] == old_words[j]);
                }
            }
        }
    }
    proof {
        assert(values(words@) =~= key_words(key@, w)) by {
            assert forall|j: int| 0 <= j < words_len implies values(words@)[j] == key_words(
                key@,
                w,
            )[j] by {
                lemma_key_chunk_from_start(key@, w, j);
            }
        }
    }
    words
}

/// Seeds the subkey table for `rounds` rounds, of which there are at most
/// 256: the first magic constant, then each entry the one before plus the
/// second magic constant.
pub fn initialize_subkeys<W: Word>(rounds: usize) -> (subkeys: Vec<W>)
    requires
        rounds <= MAX_ROUNDS,
    ensures
        values(subkeys@) == initial_subkeys(
            W::bits(),
            W::p(),
            W::q(),
            subkey_count(rounds as nat),
        ),
        subkeys.len() == 2 * (rounds + 1),
{
    let subkey_count: usize = 2 * (rounds + 1);
    let ghost bits = W::bits();
    let ghost table = initial_subkeys(bits, W::p(), W::q(), subkey_count as nat);
    let mut subkeys: Vec<W> = Vec::new();
    subkeys.push(W::P);
    proof {
        W::lemma_constants();
        W::P.lemma_value_fits();
        vstd::arithmetic::div_mod::lemma_small_mod(W::p(), crate::arith::modulus(bits));
        assert(W::p() + 0 * W::q() == W::p()) by (nonlinear_arith);
    }
    let mut i: usize = 1;
    while i < subkey_count
        invariant
            1 <= i <= subkey_count,
            subkeys.len() == i,
            bits == W::bits(),
            table == initial_subkeys(bits, W::p(), W::q(), subkey_count as nat),
            W::Q.value() == W::q(),
            forall|j: int| 0 <= j < i ==> (#[trigger] subkeys@[j]).value() == table[j],
        decreases subkey_count - i,
    {
        proof {
            lemma_initial_subkeys_step(
                bits,
                W::p(),
                W::q(),
                subkey_count as nat,
                i - 1,
            );
        }
        let next = subkeys[i - 1].wrapping_add(&W::Q);
        subkeys.push(next);
        i += 1;
    }
    proof {
        assert(values(subkeys@) =~= table);
    }
    subkeys
}

} // verus!
