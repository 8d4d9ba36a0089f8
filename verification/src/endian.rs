//! Little-endian byte strings and the numbers they write.

use vstd::arithmetic::power2::{lemma_pow2_adds, lemma_pow2_pos, pow2};
use vstd::prelude::*;

verus! {

/// The number that `bytes` writes, least significant byte first.
pub open spec fn le_value(bytes: Seq<u8>) -> nat
    decreases bytes.len(),
{
    if bytes.len() == 0 {
        0
    } else {
        bytes[0] as nat + 256 * le_value(bytes.drop_first())
    }
}

/// The `width` low bytes of `x`, least significant byte first.
pub open spec fn le_bytes(x: nat, width: nat) -> Seq<u8>
    decreases width,
{
    if width == 0 {
        Seq::empty()
    } else {
        seq![(x % 256) as u8] + le_bytes(x / 256, (width - 1) as nat)
    }
}

/// One more byte multiplies the range by 256.
pub proof fn lemma_pow2_next_byte(n: nat)
    ensures
        pow2(8 * (n + 1)) == 256 * pow2(8 * n),
        pow2(8 * n) > 0,
{
    vstd::arithmetic::power2::lemma2_to64();
    lemma_pow2_adds(8, 8 * n);
    lemma_pow2_pos(8 * n);
    assert(8 + 8 * n == 8 * (n + 1));
}

/// `le_bytes` gives exactly as many bytes as were asked for.
pub proof fn lemma_le_bytes_len(x: nat, width: nat)
    ensures
        le_bytes(x, width).len() == width,
    decreases width,
{
    if width > 0 {
        lemma_le_bytes_len(x / 256, (width - 1) as nat);
    }
}

/// A string of `n` bytes writes a number below `2^(8n)`.
pub proof fn lemma_le_value_bound(bytes: Seq<u8>)
    ensures
        le_value(bytes) < pow2(8 * bytes.len()),
    decreases bytes.len(),
{
    if bytes.len() == 0 {
        vstd::arithmetic::power2::lemma2_to64();
    } else {
        let rest = bytes.drop_first();
        lemma_le_value_bound(rest);
        lemma_pow2_next_byte(rest.len());
        assert(bytes.len() == rest.len() + 1);
    }
}

/// Reading the bytes of a number that fits them gives the number back.
pub proof fn lemma_le_value_of_bytes(x: nat, width: nat)
    requires
        x < pow2(8 * width),
    ensures
        le_value(le_bytes(x, width)) == x,
    decreases width,
{
    if width == 0 {
        vstd::arithmetic::power2::lemma2_to64();
    } else {
        let w = (width - 1) as nat;
        lemma_pow2_next_byte(w);
        assert(8 * (w + 1) == 8 * width);
        assert(x / 256 < pow2(8 * w));
        lemma_le_value_of_bytes(x / 256, w);
        let s = le_bytes(x, width);
        assert(s.drop_first() =~= le_bytes(x / 256, w));
        assert(s[0] == (x % 256) as u8);
    }
}

/// Writing the number that a byte string reads as gives the string back.
pub proof fn lemma_le_bytes_of_value(bytes: Seq<u8>)
    ensures
        le_bytes(le_value(bytes), bytes.len()) == bytes,
    decreases bytes.len(),
{
    if bytes.len() == 0 {
        assert(le_bytes(le_value(bytes), 0) =~= bytes);
    } else {
        let rest = bytes.drop_first();
        lemma_le_bytes_of_value(rest);
        let x = le_value(bytes);
        assert(x % 256 == bytes[0]);
        assert(x / 256 == le_value(rest));
        assert(le_bytes(x, bytes.len()) =~= bytes);
    }
}

/// Reads up to sixteen bytes as a little-endian number.
pub fn read_le(bytes: &[u8]) -> (x: u128)
    requires
        bytes.len() <= 16,
    ensures
        x == le_value(bytes@),
{
    let n: usize = bytes.len();
    let mut acc: u128 = 0;
    let mut i: usize = n;
    proof {
        vstd::arithmetic::power2::lemma2_to64();
        assert(bytes@.subrange(n as int, n as int) =~= Seq::<u8>::empty());
    }
    while i > 0
        invariant
            n == bytes.len(),
            i <= n <= 16,
            acc == le_value(bytes@.subrange(i as int, n as int)),
            acc < pow2(8 * ((n - i) as nat)),
        decreases i,
    {
        proof {
            let tail = bytes@.subrange(i - 1, n as int);
            assert(tail.drop_first() =~= bytes@.subrange(i as int, n as int));
            lemma_pow2_next_byte((n - i) as nat);
            assert(8 * ((n - i) as nat + 1) == 8 * ((n - (i - 1)) as nat));
            if n - (i - 1) < 16 {
                vstd::arithmetic::power2::lemma_pow2_strictly_increases(
                    8 * ((n - (i - 1)) as nat),
                    128,
                );
            }
            crate::arith::lemma_modulus_128();
        }
        i -= 1;
        acc = acc * 256 + bytes[i] as u128;
    }
    proof {
        assert(bytes@.subrange(0, n as int) =~= bytes@);
    }
    acc
}

/// Writes the `width` low bytes of `x`, least significant byte first.
pub fn write_le(x: u128, width: usize) -> (bytes: Vec<u8>)
    ensures
        bytes@ == le_bytes(x as nat, width as nat),
{
    let mut out: Vec<u8> = Vec::new();
    let mut rest: u128 = x;
    let mut i: usize = 0;
    while i < width
        invariant
            i <= width,
            out@.len() == i,
            out@ + le_bytes(rest as nat, (width - i) as nat) == le_bytes(x as nat, width as nat),
        decreases width - i,
    {
        let ghost before = out@;
        out.push((rest % 256) as u8);
        proof {
            let tail = le_bytes((rest / 256) as nat, (width - i - 1) as nat);
            assert(out@ + tail =~= before + le_bytes(rest as nat, (width - i) as nat));
        }
        rest = rest / 256;
        i += 1;
    }
    proof {
        assert(out@ + le_bytes(rest as nat, 0) =~= out@);
    }
    out
}

} // verus!
