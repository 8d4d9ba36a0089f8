//! Byte buffers and the blocks they are made of.
//!
//! A buffer is transformed block by block: each block of `2 * BITS / 8`
//! bytes is read as two little-endian registers, encrypted or decrypted,
//! and written back in the same place. A sequence of registers is written
//! to bytes in the same way, register by register.

use crate::cipher::{
    all_fit,
    block_fits,
    decrypt_block,
    decrypted_block,
    encrypt_block,
    encrypted_block,
    lemma_block_round_trip,
    values,
};
use crate::endian::{
    le_bytes,
    le_value,
    lemma_le_bytes_len,
    lemma_le_bytes_of_value,
    lemma_le_value_bound,
    lemma_le_value_of_bytes,
};
use crate::error::Error;
use crate::word::Word;
use vstd::arithmetic::div_mod::{
    lemma_fundamental_div_mod,
    lemma_fundamental_div_mod_converse,
    lemma_mod_bound,
};
use vstd::prelude::*;

verus! {

/// Piece number `j` of `data` cut into pieces of `size` bytes.
pub open spec fn chunk(data: Seq<u8>, size: nat, j: int) -> Seq<u8> {
    data.subrange(j * size, (j + 1) * size)
}

/// The string made of `count` pieces of `size` bytes each, piece `j` being
/// `piece(j)`.
pub open spec fn blockwise(count: nat, size: nat, piece: spec_fn(int) -> Seq<u8>) -> Seq<u8> {
    Seq::new(count * size, |k: int| piece(k / (size as int))[k % (size as int)])
}

/// Where byte `r` of piece `j` stands.
proof fn lemma_position(size: nat, j: int, r: int)
    requires
        0 <= r < size,
    ensures
        (j * size + r) / (size as int) == j,
        (j * size + r) % (size as int) == r,
{
    lemma_fundamental_div_mod_converse(j * size + r, size as int, j, r);
}

/// Piece `j` comes before piece `count` ends.
proof fn lemma_piece_bounds(count: nat, size: nat, j: int)
    requires
        0 <= j < count,
    ensures
        0 <= j * size,
        j * size + size == (j + 1) * size,
        (j + 1) * size <= count * size,
{
    assert(0 <= j * size) by (nonlinear_arith)
        requires
            0 <= j,
    ;
    assert(j * size + size == (j + 1) * size) by (nonlinear_arith);
    assert((j + 1) * size <= count * size) by (nonlinear_arith)
        requires
            j + 1 <= count,
    ;
}

/// Cutting a string built piece by piece gives the pieces back.
pub proof fn lemma_blockwise_chunk(
    count: nat,
    size: nat,
    piece: spec_fn(int) -> Seq<u8>,
    j: int,
)
    requires
        0 <= j < count,
        size > 0,
        piece(j).len() == size,
    ensures
        chunk(blockwise(count, size, piece), size, j) == piece(j),
        blockwise(count, size, piece).len() == count * size,
{
    lemma_piece_bounds(count, size, j);
    let whole = blockwise(count, size, piece);
    let part = chunk(whole, size, j);
    assert(part.len() == size);
    assert forall|r: int| 0 <= r < size implies part[r] == piece(j)[r] by {
        lemma_position(size, j, r);
    }
    assert(part =~= piece(j));
}

/// One more piece is appended at the end.
pub proof fn lemma_blockwise_push(count: nat, size: nat, piece: spec_fn(int) -> Seq<u8>)
    requires
        size > 0,
        piece(count as int).len() == size,
    ensures
        blockwise(count + 1, size, piece) == blockwise(count, size, piece) + piece(count as int),
{
    let longer = blockwise(count + 1, size, piece);
    let shorter = blockwise(count, size, piece);
    assert((count + 1) * size == count * size + size) by (nonlinear_arith);
    assert(longer.len() == shorter.len() + size);
    assert forall|k: int| 0 <= k < longer.len() implies longer[k] == (shorter + piece(
        count as int,
    ))[k] by {
        if k >= shorter.len() {
            lemma_position(size, count as int, k - count * size);
        }
    }
    assert(longer =~= shorter + piece(count as int));
}

/// A sequence of registers written to bytes, each in `width` little-endian
/// bytes.
pub open spec fn word_bytes(vals: Seq<nat>, width: nat) -> Seq<u8> {
    blockwise(vals.len(), width, |j: int| le_bytes(vals[j], width))
}

/// The registers that a byte string writes, `width` little-endian bytes to
/// a register.
pub open spec fn bytes_words(bytes: Seq<u8>, width: nat) -> Seq<nat> {
    Seq::new(bytes.len() / width, |j: int| le_value(chunk(bytes, width, j)))
}

/// Reading back the bytes of registers gives the registers.
pub proof fn lemma_bytes_words_of_word_bytes(vals: Seq<nat>, width: nat)
    requires
        width > 0,
        all_fit(8 * width, vals),
    ensures
        bytes_words(word_bytes(vals, width), width) == vals,
        word_bytes(vals, width).len() == vals.len() * width,
{
    let bytes = word_bytes(vals, width);
    let piece = |j: int| le_bytes(vals[j], width);
    assert(bytes.len() == vals.len() * width);
    lemma_position(width, vals.len() as int, 0);
    assert(bytes.len() / width == vals.len());
    assert forall|j: int| 0 <= j < vals.len() implies bytes_words(bytes, width)[j] == vals[j] by {
        lemma_le_bytes_len(vals[j], width);
        lemma_blockwise_chunk(vals.len(), width, piece, j);
        lemma_le_value_of_bytes(vals[j], width);
    }
    assert(bytes_words(bytes, width) =~= vals);
}

/// The number of bytes in a block: two registers.
pub open spec fn block_size(bits: nat) -> nat {
    2 * (bits / 8)
}

/// A block encrypted or decrypted under the subkeys `s`.
pub open spec fn transformed_block(bits: nat, s: Seq<nat>, block: (nat, nat), encrypting: bool) -> (
    nat,
    nat,
) {
    if encrypting {
        encrypted_block(bits, s, block)
    } else {
        decrypted_block(bits, s, block)
    }
}

/// The block that the bytes of `piece` write: two little-endian registers.
pub open spec fn block_of(bits: nat, piece: Seq<u8>) -> (nat, nat) {
    let width = bits / 8;
    (
        le_value(piece.subrange(0, width as int)),
        le_value(piece.subrange(width as int, 2 * width as int)),
    )
}

/// The bytes of a block: both registers, little-endian.
pub open spec fn block_bytes(bits: nat, block: (nat, nat)) -> Seq<u8> {
    le_bytes(block.0, bits / 8) + le_bytes(block.1, bits / 8)
}

/// One block's worth of bytes, transformed.
pub open spec fn transformed_chunk(bits: nat, s: Seq<nat>, piece: Seq<u8>, encrypting: bool) -> Seq<
    u8,
> {
    block_bytes(bits, transformed_block(bits, s, block_of(bits, piece), encrypting))
}

/// A buffer transformed block by block. Bytes past the last whole block do
/// not count.
pub open spec fn transformed_bytes(bits: nat, s: Seq<nat>, data: Seq<u8>, encrypting: bool) -> Seq<
    u8,
> {
    let size = block_size(bits);
    blockwise(
        data.len() / size,
        size,
        |j: int| transformed_chunk(bits, s, chunk(data, size, j), encrypting),
    )
}

/// The encryption of a buffer under the subkeys `s`.
pub open spec fn encrypted_bytes(bits: nat, s: Seq<nat>, data: Seq<u8>) -> Seq<u8> {
    transformed_bytes(bits, s, data, true)
}

/// The decryption of a buffer under the subkeys `s`.
pub open spec fn decrypted_bytes(bits: nat, s: Seq<nat>, data: Seq<u8>) -> Seq<u8> {
    transformed_bytes(bits, s, data, false)
}

/// A block is written in as many bytes as a block has.
pub proof fn lemma_block_bytes_len(bits: nat, block: (nat, nat))
    ensures
        block_bytes(bits, block).len() == block_size(bits),
{
    lemma_le_bytes_len(block.0, bits / 8);
    lemma_le_bytes_len(block.1, bits / 8);
}

/// A buffer of whole blocks keeps its length when it is transformed.
pub proof fn lemma_transformed_bytes_len(bits: nat, s: Seq<nat>, data: Seq<u8>, encrypting: bool)
    requires
        bits >= 8,
        data.len() % block_size(bits) == 0,
    ensures
        transformed_bytes(bits, s, data, encrypting).len() == data.len(),
{
    let size = block_size(bits) as int;
    lemma_fundamental_div_mod(data.len() as int, size);
    assert((data.len() / block_size(bits)) * block_size(bits) == data.len()) by (nonlinear_arith)
        requires
            data.len() == size * (data.len() as int / size) + 0,
            size == block_size(bits),
    ;
}

/// Reading the bytes of a block whose registers fit gives the block back.
pub proof fn lemma_block_of_bytes(bits: nat, block: (nat, nat))
    requires
        bits % 8 == 0,
        block_fits(bits, block),
    ensures
        block_of(bits, block_bytes(bits, block)) == block,
{
    let width = bits / 8;
    assert(8 * width == bits);
    let lo = le_bytes(block.0, width);
    let hi = le_bytes(block.1, width);
    lemma_le_bytes_len(block.0, width);
    lemma_le_bytes_len(block.1, width);
    assert((lo + hi).subrange(0, width as int) =~= lo);
    assert((lo + hi).subrange(width as int, 2 * width as int) =~= hi);
    lemma_le_value_of_bytes(block.0, width);
    lemma_le_value_of_bytes(block.1, width);
}

/// Writing the block that a block's worth of bytes reads as gives the bytes
/// back, and the registers read fit.
pub proof fn lemma_bytes_of_block(bits: nat, piece: Seq<u8>)
    requires
        bits % 8 == 0,
        piece.len() == block_size(bits),
    ensures
        block_bytes(bits, block_of(bits, piece)) == piece,
        block_fits(bits, block_of(bits, piece)),
{
    let width = bits / 8;
    assert(8 * width == bits);
    let lo = piece.subrange(0, width as int);
    let hi = piece.subrange(width as int, 2 * width as int);
    lemma_le_bytes_of_value(lo);
    lemma_le_bytes_of_value(hi);
    lemma_le_value_bound(lo);
    lemma_le_value_bound(hi);
    assert(lo + hi =~= piece);
}

/// Decrypting an encrypted block's worth of bytes gives the bytes back.
pub proof fn lemma_chunk_round_trip(bits: nat, s: Seq<nat>, piece: Seq<u8>)
    requires
        8 <= bits <= 128,
        bits % 8 == 0,
        piece.len() == block_size(bits),
    ensures
        transformed_chunk(bits, s, transformed_chunk(bits, s, piece, true), false) == piece,
{
    let block = block_of(bits, piece);
    lemma_bytes_of_block(bits, piece);
    lemma_block_round_trip(bits, s, block);
    lemma_block_of_bytes(bits, encrypted_block(bits, s, block));
}

/// Decrypting an encrypted buffer of whole blocks gives the buffer back.
pub proof fn lemma_bytes_round_trip(bits: nat, s: Seq<nat>, data: Seq<u8>)
    requires
        8 <= bits <= 128,
        bits % 8 == 0,
        data.len() % block_size(bits) == 0,
    ensures
        decrypted_bytes(bits, s, encrypted_bytes(bits, s, data)) == data,
{
    let size = block_size(bits);
    let count = data.len() / size;
    let sealed = encrypted_bytes(bits, s, data);
    let opened = decrypted_bytes(bits, s, sealed);
    let forth = |j: int| transformed_chunk(bits, s, chunk(data, size, j), true);
    let back = |j: int| transformed_chunk(bits, s, chunk(sealed, size, j), false);
    lemma_transformed_bytes_len(bits, s, data, true);
    lemma_transformed_bytes_len(bits, s, sealed, false);
    assert(opened.len() == data.len());
    lemma_fundamental_div_mod(data.len() as int, size as int);
    assert forall|k: int| 0 <= k < data.len() implies opened[k] == data[k] by {
        let j = k / (size as int);
        let r = k % (size as int);
        lemma_fundamental_div_mod(k, size as int);
        lemma_mod_bound(k, size as int);
        assert(0 <= j < count) by (nonlinear_arith)
            requires
                k == size * j + r,
                0 <= r < size,
                0 <= k < data.len(),
                data.len() == size * count + 0,
        ;
        lemma_piece_bounds(count, size, j);
        let piece = chunk(data, size, j);
        assert(piece.len() == size);
        lemma_block_bytes_len(bits, transformed_block(bits, s, block_of(bits, piece), true));
        lemma_blockwise_chunk(count, size, forth, j);
        assert(chunk(sealed, size, j) == forth(j));
        lemma_chunk_round_trip(bits, s, piece);
        assert(back(j) == piece);
        assert(opened[k] == back(j)[r]);
        assert(piece[r] == data[j * size + r]);
        assert(j * size + r == k) by (nonlinear_arith)
            requires
                k == size * j + r,
        ;
    }
    assert(opened =~= data);
}

/// Writes a sequence of registers to bytes, each register in its
/// `BITS / 8` little-endian bytes.
pub fn encode_words<W: Word>(words: &[W]) -> (bytes: Vec<u8>)
    ensures
        bytes@ == word_bytes(values(words@), W::bits() / 8),
        bytes.len() == words.len() * (W::bits() / 8),
{
    proof {
        W::lemma_constants();
    }
    let ghost width = W::bits() / 8;
    let ghost vals = values(words@);
    let ghost piece = |j: int| le_bytes(vals[j], width);
    let mut out: Vec<u8> = Vec::new();
    let mut j: usize = 0;
    proof {
        assert(out@ =~= blockwise(0, width, piece));
    }
    while j < words.len()
        invariant
            j <= words.len(),
            width == W::bits() / 8,
            width > 0,
            vals == values(words@),
            piece == |j: int| le_bytes(vals[j], width),
            out@ == blockwise(j as nat, width, piece),
            out@.len() == j * width,
        decreases words.len() - j,
    {
        let mut next = words[j].to_le_bytes();
        proof {
            lemma_le_bytes_len(vals[j as int], width);
            lemma_blockwise_push(j as nat, width, piece);
            assert((j + 1) * width == j * width + width) by (nonlinear_arith);
        }
        out.append(&mut next);
        j += 1;
    }
    out
}

/// Reads a sequence of registers from bytes, `BITS / 8` little-endian bytes
/// to a register. Fails with [`Error::InvalidBytes`] unless the bytes make
/// up whole registers.
pub fn decode_words<W: Word>(bytes: &[u8]) -> (r: Result<Vec<W>, Error>)
    ensures
        bytes@.len() % (W::bits() / 8) == 0 ==> r is Ok && values(r->Ok_0@) == bytes_words(
            bytes@,
            W::bits() / 8,
        ),
        bytes@.len() % (W::bits() / 8) != 0 ==> r is Err && r->Err_0 == Error::InvalidBytes,
{
    proof {
        W::lemma_constants();
    }
    let width: usize = W::BITS / 8;
    if bytes.len() % width != 0 {
        return Err(Error::InvalidBytes);
    }
    let count: usize = bytes.len() / width;
    let mut words: Vec<W> = Vec::new();
    let mut j: usize = 0;
    proof {
        lemma_fundamental_div_mod(bytes.len() as int, width as int);
    }
    while j < count
        invariant
            j <= count,
            width == W::BITS / 8,
            W::BITS == W::bits(),
            width > 0,
            count == bytes.len() / width,
            bytes.len() == width * count,
            words.len() == j,
            forall|i: int|
                0 <= i < j ==> (#[trigger] words@[i]).value() == le_value(
                    chunk(bytes@, width as nat, i),
                ),
        decreases count - j,
    {
        proof {
            lemma_piece_bounds(count as nat, width as nat, j as int);
            assert(width * count == count * width) by (nonlinear_arith);
        }
        let piece = vstd::slice::slice_subrange(bytes, j * width, j * width + width);
        let word = match W::from_le_bytes(piece) {
            Ok(w) => w,
            Err(e) => { return Err(e); },
        };
        words.push(word);
        j += 1;
    }
    proof {
        assert(values(words@) =~= bytes_words(bytes@, width as nat));
    }
    Ok(words)
}

/// Transforms a buffer block by block under an expanded key: encrypts it
/// if `encrypting`, else decrypts it.
///
/// Fails with [`Error::InvalidInputLength`] unless the buffer is made of
/// whole blocks. Otherwise the result is as long as the buffer.
pub fn transform<W: Word>(expanded_key: &[W], data: &[u8], encrypting: bool) -> (r: Result<
    Vec<u8>,
    Error,
>)
    requires
        expanded_key.len() >= 2,
    ensures
        data@.len() % block_size(W::bits()) != 0 ==> r is Err && r->Err_0
            == Error::InvalidInputLength,
        data@.len() % block_size(W::bits()) == 0 ==> r is Ok && r->Ok_0@ == transformed_bytes(
            W::bits(),
            values(expanded_key@),
            data@,
            encrypting,
        ) && r->Ok_0.len() == data.len(),
{
    proof {
        W::lemma_constants();
    }
    let word_bytes: usize = W::BITS / 8;
    let block_size: usize = 2 * word_bytes;
    if data.len() % block_size != 0 {
        return Err(Error::InvalidInputLength);
    }
    let count: usize = data.len() / block_size;
    let ghost bits = W::bits();
    let ghost s = values(expanded_key@);
    let ghost size = block_size as nat;
    let ghost piece = |j: int| transformed_chunk(bits, s, chunk(data@, size, j), encrypting);
    let mut out: Vec<u8> = Vec::new();
    let mut j: usize = 0;
    proof {
        lemma_fundamental_div_mod(data.len() as int, block_size as int);
        assert(out@ =~= blockwise(0, size, piece));
    }
    while j < count
        invariant
            j <= count,
            expanded_key.len() >= 2,
            word_bytes == W::BITS / 8,
            block_size == 2 * word_bytes,
            word_bytes > 0,
            W::BITS == W::bits(),
            8 <= W::BITS <= 128,
            W::BITS % 8 == 0,
            bits == W::bits(),
            size == block_size as nat,
            size == crate::codec::block_size(bits),
            s == values(expanded_key@),
            count == data.len() / block_size,
            data.len() == block_size * count,
            piece == |j: int| transformed_chunk(bits, s, chunk(data@, size, j), encrypting),
            out@ == blockwise(j as nat, size, piece),
            out@.len() == j * size,
        decreases count - j,
    {
        proof {
            lemma_piece_bounds(count as nat, size, j as int);
            assert(block_size * count == count * size) by (nonlinear_arith)
                requires
                    size == block_size,
            ;
        }
        let start: usize = j * block_size;
        let first = vstd::slice::slice_subrange(data, start, start + word_bytes);
        let second = vstd::slice::slice_subrange(data, start + word_bytes, start + block_size);
        let a = match W::from_le_bytes(first) {
            Ok(w) => w,
            Err(e) => { return Err(e); },
        };
        let b = match W::from_le_bytes(second) {
            Ok(w) => w,
            Err(e) => { return Err(e); },
        };
        let block = [a, b];
        let done = if encrypting {
            encrypt_block(expanded_key, block)
        } else {
            decrypt_block(expanded_key, block)
        };
        let done = match done {
            Ok(pair) => pair,
            Err(e) => { return Err(e); },
        };
        let mut low = done[0].to_le_bytes();
        let mut high = done[1].to_le_bytes();
        proof {
            let part = chunk(data@, size, j as int);
            assert(part.subrange(0, word_bytes as int) =~= first@);
            assert(part.subrange(word_bytes as int, 2 * word_bytes as int) =~= second@);
            assert(block_of(bits, part) == (a.value(), b.value()));
            let moved = transformed_block(bits, s, block_of(bits, part), encrypting);
            assert(moved == (done[0].value(), done[1].value()));
            assert(low@ + high@ == piece(j as int));
            lemma_block_bytes_len(bits, moved);
            lemma_blockwise_push(j as nat, size, piece);
            assert((j + 1) * size == j * size + size) by (nonlinear_arith);
            assert(out@ + low@ + high@ =~= out@ + (low@ + high@));
        }
        out.append(&mut low);
        out.append(&mut high);
        j += 1;
    }
    Ok(out)
}

/// Overwrites every register of `words` with zero.
pub fn scrub<W: Word>(words: &mut Vec<W>)
    ensures
        final(words).len() == old(words).len(),
        forall|i: int| 0 <= i < final(words).len() ==> (#[trigger] final(words)@[i]).value() == 0,
{
    let n: usize = words.len();
    let mut i: usize = 0;
    while i < n
        invariant
            i <= n,
            words.len() == n,
            forall|k: int| 0 <= k < i ==> (#[trigger] words@[k]).value() == 0,
        decreases n - i,
    {
        words.set(i, W::zero());
        i += 1;
    }
}

} // verus!
