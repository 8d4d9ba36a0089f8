//! The key schedule, defined on numbers.
//!
//! A key of any length up to 256 bytes is packed into registers, a table of
//! subkeys is seeded with an arithmetic progression, and the two are mixed
//! in three passes over the longer of them.

use crate::arith::{add_mod, modulus, rotl};
use crate::endian::le_value;
use vstd::prelude::*;

verus! {

/// The number of registers that a key of `key_len` bytes is packed into,
/// `width` bytes to a register: the length divided by the width and rounded
/// up, where the empty key counts as one byte long.
pub open spec fn key_word_count(key_len: nat, width: nat) -> nat {
    let n = if key_len == 0 { 1 } else { key_len };
    n / width + if n % width != 0 { 1nat } else { 0nat }
}

/// The bytes of `key` that go into register `j`.
pub open spec fn key_chunk(key: Seq<u8>, width: nat, j: int) -> Seq<u8> {
    let len = key.len() as int;
    let lo = if j * width < len { j * width } else { len };
    let hi = if (j + 1) * width < len { (j + 1) * width } else { len };
    key.subrange(lo, hi)
}

/// The key packed into registers: register `j` holds the little-endian
/// number written by bytes `j * width` to `(j + 1) * width - 1` of the key,
/// as far as the key reaches. The empty key gives one register holding
/// zero.
pub open spec fn key_words(key: Seq<u8>, width: nat) -> Seq<nat> {
    Seq::new(key_word_count(key.len(), width), |j: int| le_value(key_chunk(key, width, j)))
}

/// The number of subkeys for `rounds` rounds.
pub open spec fn subkey_count(rounds: nat) -> nat {
    2 * (rounds + 1)
}

/// The subkey table before mixing: entry `i` is `p + i * q`, wrapped.
pub open spec fn initial_subkeys(bits: nat, p: nat, q: nat, count: nat) -> Seq<nat> {
    Seq::new(count, |i: int| ((p + i * q) % (modulus(bits) as int)) as nat)
}

/// The state of the mixing pass: the subkey table `s`, the key registers
/// `l`, and the two registers `a` and `b` that carry from step to step.
pub struct Mix {
    pub s: Seq<nat>,
    pub l: Seq<nat>,
    pub a: nat,
    pub b: nat,
}

/// Step number `k` of the mixing pass, counted from zero.
pub open spec fn mix_step(bits: nat, m: Mix, k: nat) -> Mix {
    let i = (k % m.s.len()) as int;
    let j = (k % m.l.len()) as int;
    let a = rotl(bits, add_mod(bits, add_mod(bits, m.s[i], m.a), m.b), 3);
    let b = rotl(
        bits,
        add_mod(bits, add_mod(bits, m.l[j], a), m.b),
        add_mod(bits, a, m.b) % bits,
    );
    Mix { s: m.s.update(i, a), l: m.l.update(j, b), a, b }
}

/// The state after the first `steps` steps of mixing `s` with `l`.
pub open spec fn mix(bits: nat, s: Seq<nat>, l: Seq<nat>, steps: nat) -> Mix
    decreases steps,
{
    if steps == 0 {
        Mix { s, l, a: 0, b: 0 }
    } else {
        mix_step(bits, mix(bits, s, l, (steps - 1) as nat), (steps - 1) as nat)
    }
}

/// The number of mixing steps: three times the longer of the two tables.
pub open spec fn mix_steps(subkeys: nat, key_words: nat) -> nat {
    3 * if subkeys >= key_words { subkeys } else { key_words }
}

/// The subkeys that a key expands to, for registers of `bits` bits with the
/// magic constants `p` and `q`.
pub open spec fn expanded_key(bits: nat, p: nat, q: nat, key: Seq<u8>, rounds: nat) -> Seq<nat> {
    let s = initial_subkeys(bits, p, q, subkey_count(rounds));
    let l = key_words(key, bits / 8);
    mix(bits, s, l, mix_steps(s.len(), l.len())).s
}

/// Rounding the quotient up gives the least number of registers that hold
/// the key.
pub proof fn lemma_key_word_count(key_len: nat, width: nat)
    requires
        width > 0,
    ensures
        key_word_count(key_len, width) >= 1,
        (key_word_count(key_len, width) - 1) * width < if key_len == 0 { 1 } else { key_len },
        key_len <= key_word_count(key_len, width) * width,
        key_word_count(key_len, width) <= if key_len == 0 { 1 } else { key_len },
{
    let n: int = if key_len == 0 { 1 } else { key_len as int };
    let w = width as int;
    vstd::arithmetic::div_mod::lemma_fundamental_div_mod(n, w);
    vstd::arithmetic::div_mod::lemma_mod_bound(n, w);
    vstd::arithmetic::div_mod::lemma_div_pos_is_pos(n, w);
    let q = n / w;
    let r = n % w;
    let c = key_word_count(key_len, width) as int;
    assert(n == w * q + r);
    if r != 0 {
        assert(c == q + 1);
        assert((c - 1) * w < n) by (nonlinear_arith)
            requires
                c - 1 == q,
                n == w * q + r,
                r > 0,
        ;
        assert(n <= c * w) by (nonlinear_arith)
            requires
                c == q + 1,
                n == w * q + r,
                r < w,
        ;
        assert(q + 1 <= n) by (nonlinear_arith)
            requires
                n == w * q + r,
                r > 0,
                w >= 1,
                q >= 0,
        ;
    } else {
        assert(c == q);
        assert(q >= 1) by (nonlinear_arith)
            requires
                n == w * q,
                n >= 1,
                w >= 1,
        ;
        assert((c - 1) * w < n) by (nonlinear_arith)
            requires
                c == q,
                n == w * q,
                w >= 1,
        ;
        assert(n <= c * w) by (nonlinear_arith)
            requires
                c == q,
                n == w * q,
        ;
        assert(q <= n) by (nonlinear_arith)
            requires
                n == w * q,
                w >= 1,
                q >= 0,
        ;
    }
}

/// A mixing step keeps the lengths of both tables.
pub proof fn lemma_mix_lengths(bits: nat, s: Seq<nat>, l: Seq<nat>, steps: nat)
    requires
        s.len() > 0,
        l.len() > 0,
    ensures
        mix(bits, s, l, steps).s.len() == s.len(),
        mix(bits, s, l, steps).l.len() == l.len(),
    decreases steps,
{
    if steps > 0 {
        lemma_mix_lengths(bits, s, l, (steps - 1) as nat);
    }
}

/// The expanded key has two subkeys for the whitening and two for each
/// round.
pub proof fn lemma_expanded_key_len(bits: nat, p: nat, q: nat, key: Seq<u8>, rounds: nat)
    requires
        bits >= 8,
    ensures
        expanded_key(bits, p, q, key, rounds).len() == 2 * (rounds + 1),
{
    let s = initial_subkeys(bits, p, q, subkey_count(rounds));
    let l = key_words(key, bits / 8);
    lemma_key_word_count(key.len(), bits / 8);
    lemma_mix_lengths(bits, s, l, mix_steps(s.len(), l.len()));
}

/// The bytes of `key` at position `from` and after that go into register
/// `j`.
pub open spec fn key_chunk_from(key: Seq<u8>, width: nat, j: int, from: int) -> Seq<u8> {
    let len = key.len() as int;
    let hi = if (j + 1) * width < len { (j + 1) * width } else { len };
    let start = if j * width < from { from } else { j * width };
    let lo = if start < hi { start } else { hi };
    key.subrange(lo, hi)
}

/// Taken from the first byte on, a register's share of the key is its whole
/// chunk.
pub proof fn lemma_key_chunk_from_start(key: Seq<u8>, width: nat, j: int)
    requires
        width > 0,
        j >= 0,
    ensures
        key_chunk_from(key, width, j, 0) == key_chunk(key, width, j),
{
    assert(j * width >= 0) by (nonlinear_arith)
        requires
            j >= 0,
            width > 0,
    ;
    assert((j + 1) * width > j * width) by (nonlinear_arith)
        requires
            width > 0,
    ;
}

/// Taken from the end of the key on, no register has a share.
pub proof fn lemma_key_chunk_from_end(key: Seq<u8>, width: nat, j: int)
    requires
        j >= 0,
    ensures
        key_chunk_from(key, width, j, key.len() as int) == Seq::<u8>::empty(),
{
    assert((j + 1) * width >= 0) by (nonlinear_arith)
        requires
            j >= 0,
    ;
    assert(key_chunk_from(key, width, j, key.len() as int) =~= Seq::<u8>::empty());
}

/// Moving the start back by one byte, to position `from - 1`, adds that byte
/// in front of the share of the register it belongs to, which had room for
/// it, and changes no other register's share.
pub proof fn lemma_key_chunk_step(key: Seq<u8>, width: nat, from: int)
    requires
        width > 0,
        0 < from <= key.len(),
    ensures
        key_chunk_from(key, width, (from - 1) / (width as int), from - 1) == seq![key[from - 1]]
            + key_chunk_from(key, width, (from - 1) / (width as int), from),
        key_chunk_from(key, width, (from - 1) / (width as int), from).len() < width,
        forall|j: int|
            j != (from - 1) / (width as int) ==> #[trigger] key_chunk_from(key, width, j, from - 1)
                == key_chunk_from(key, width, j, from),
{
    let p = from - 1;
    let w = width as int;
    let j0 = p / w;
    let len = key.len() as int;
    vstd::arithmetic::div_mod::lemma_fundamental_div_mod(p, w);
    vstd::arithmetic::div_mod::lemma_mod_bound(p, w);
    assert(j0 * w <= p < (j0 + 1) * w) by (nonlinear_arith)
        requires
            p == w * j0 + p % w,
            0 <= p % w < w,
    ;
    let hi = if (j0 + 1) * w < len { (j0 + 1) * w } else { len };
    assert(from <= hi);
    assert((j0 + 1) * w == j0 * w + w) by (nonlinear_arith);
    assert(key.subrange(from, hi).len() < w);
    assert(key_chunk_from(key, width, j0, from) =~= key.subrange(from, hi));
    assert(key_chunk_from(key, width, j0, p) =~= key.subrange(p, hi));
    assert(key.subrange(p, hi) =~= seq![key[p]] + key.subrange(from, hi));
    assert forall|j: int| j != j0 implies #[trigger] key_chunk_from(key, width, j, p)
        == key_chunk_from(key, width, j, from) by {
        if j < j0 {
            assert((j + 1) * w <= j0 * w) by (nonlinear_arith)
                requires
                    j + 1 <= j0,
                    w > 0,
            ;
        } else {
            assert(j * w >= (j0 + 1) * w) by (nonlinear_arith)
                requires
                    j >= j0 + 1,
                    w > 0,
            ;
            assert((j + 1) * w > j * w) by (nonlinear_arith)
                requires
                    w > 0,
            ;
        }
    }
}

/// Adding `q` to one entry of the initial subkey table gives the next.
pub proof fn lemma_initial_subkeys_step(bits: nat, p: nat, q: nat, count: nat, i: int)
    requires
        0 <= i,
        i + 1 < count,
    ensures
        initial_subkeys(bits, p, q, count)[i + 1] == add_mod(
            bits,
            initial_subkeys(bits, p, q, count)[i],
            q,
        ),
        initial_subkeys(bits, p, q, count).len() == count,
{
    let m = modulus(bits) as int;
    vstd::arithmetic::power2::lemma_pow2_pos(bits);
    let x = p + i * q;
    assert(p + (i + 1) * q == q + x) by (nonlinear_arith)
        requires
            x == p + i * q,
    ;
    assert(x >= 0) by (nonlinear_arith)
        requires
            x == p + i * q,
            p >= 0,
            q >= 0,
            i >= 0,
    ;
    vstd::arithmetic::div_mod::lemma_add_mod_noop_right(q as int, x, m);
    vstd::arithmetic::div_mod::lemma_mod_bound(x, m);
}

} // verus!
