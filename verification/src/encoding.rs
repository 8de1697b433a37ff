//! Fixed-width, endianness-fixed byte encoding of field elements.
//!
//! Every 64-bit word that crosses the protocol boundary — transcript
//! messages and the serialized proof — is written as eight big-endian
//! bytes, so that transcript derivation and proof encoding are
//! reproducible across platforms.

use vstd::prelude::*;

verus! {

/// The eight big-endian bytes of a 64-bit word.
pub open spec fn u64_be_bytes(x: u64) -> Seq<u8> {
    seq![
        (x >> 56) as u8,
        (x >> 48) as u8,
        (x >> 40) as u8,
        (x >> 32) as u8,
        (x >> 24) as u8,
        (x >> 16) as u8,
        (x >> 8) as u8,
        x as u8,
    ]
}

/// The big-endian encodings of the first n words of a sequence,
/// concatenated in order.
pub open spec fn be_words_prefix(s: Seq<u64>, n: int) -> Seq<u8>
    decreases n,
{
    if n <= 0 {
        Seq::empty()
    } else {
        be_words_prefix(s, n - 1) + u64_be_bytes(s[n - 1])
    }
}

/// The big-endian encoding of a whole sequence of 64-bit words.
pub open spec fn be_words(s: Seq<u64>) -> Seq<u8> {
    be_words_prefix(s, s.len() as int)
}

/// The encoding of the first n words takes exactly 8n bytes.
pub proof fn lemma_be_words_prefix_len(s: Seq<u64>, n: int)
    requires
        0 <= n,
    ensures
        be_words_prefix(s, n).len() == 8 * n,
    decreases n,
{
    if n > 0 {
        lemma_be_words_prefix_len(s, n - 1);
    }
}

/// The encoding of a word sequence takes exactly 8 bytes per word.
pub proof fn lemma_be_words_len(s: Seq<u64>)
    ensures
        be_words(s).len() == 8 * s.len(),
{
    lemma_be_words_prefix_len(s, s.len() as int);
}

/// Append the eight big-endian bytes of x to a byte vector.
pub fn push_u64_be(out: &mut Vec<u8>, x: u64)
    ensures
        final(out)@ == old(out)@ + u64_be_bytes(x),
{
    out.push((x >> 56) as u8);
    out.push((x >> 48) as u8);
    out.push((x >> 40) as u8);
    out.push((x >> 32) as u8);
    out.push((x >> 24) as u8);
    out.push((x >> 16) as u8);
    out.push((x >> 8) as u8);
    out.push(x as u8);
    proof {
        assert(final(out)@ =~= old(out)@ + u64_be_bytes(x));
    }
}

/// Encode a vector of 64-bit words as fixed-width big-endian bytes.
pub fn words_to_be_bytes(values: &Vec<u64>) -> (r: Vec<u8>)
    ensures
        r@ == be_words(values@),
        r@.len() == 8 * values@.len(),
{
    proof {
        lemma_be_words_len(values@);
    }
    let mut out: Vec<u8> = Vec::new();
    let mut i: usize = 0;
    while i < values.len()
        invariant
            i <= values@.len(),
            out@ == be_words_prefix(values@, i as int),
        decreases values@.len() - i,
    {
        push_u64_be(&mut out, values[i]);
        i = i + 1;
    }
    out
}

/// Recover the 64-bit word from its eight big-endian bytes.
pub fn u64_from_be(bytes: &[u8], start: usize) -> (r: u64)
    requires
        start + 8 <= bytes@.len(),
    ensures
        u64_be_bytes(r) == bytes@.subrange(start as int, start as int + 8),
{
    let b0 = bytes[start];
    let b1 = bytes[start + 1];
    let b2 = bytes[start + 2];
    let b3 = bytes[start + 3];
    let b4 = bytes[start + 4];
    let b5 = bytes[start + 5];
    let b6 = bytes[start + 6];
    let b7 = bytes[start + 7];
    let r: u64 = ((b0 as u64) << 56) | ((b1 as u64) << 48) | ((b2 as u64) << 40) | ((b3 as u64)
        << 32) | ((b4 as u64) << 24) | ((b5 as u64) << 16) | ((b6 as u64) << 8) | (b7 as u64);
    proof {
        lemma_be_bytes_of_word(b0, b1, b2, b3, b4, b5, b6, b7);
        assert(u64_be_bytes(r) =~= bytes@.subrange(start as int, start as int + 8));
    }
    r
}

/// Shifting the word assembled from eight bytes recovers each byte.
proof fn lemma_be_bytes_of_word(b0: u8, b1: u8, b2: u8, b3: u8, b4: u8, b5: u8, b6: u8, b7: u8)
    by (bit_vector)
    ensures
        ({
            let r: u64 = ((b0 as u64) << 56) | ((b1 as u64) << 48) | ((b2 as u64) << 40) | ((
            b3 as u64) << 32) | ((b4 as u64) << 24) | ((b5 as u64) << 16) | ((b6 as u64) << 8) | (
            b7 as u64);
            &&& (r >> 56) as u8 == b0
            &&& (r >> 48) as u8 == b1
            &&& (r >> 40) as u8 == b2
            &&& (r >> 32) as u8 == b3
            &&& (r >> 24) as u8 == b4
            &&& (r >> 16) as u8 == b5
            &&& (r >> 8) as u8 == b6
            &&& r as u8 == b7
        }),
{
}

/// Two words with the same big-endian bytes are the same word.
pub proof fn lemma_be_bytes_injective(x: u64, y: u64)
    requires
        u64_be_bytes(x) == u64_be_bytes(y),
    ensures
        x == y,
{
    assert(u64_be_bytes(x)[0] == u64_be_bytes(y)[0]);
    assert(u64_be_bytes(x)[1] == u64_be_bytes(y)[1]);
    assert(u64_be_bytes(x)[2] == u64_be_bytes(y)[2]);
    assert(u64_be_bytes(x)[3] == u64_be_bytes(y)[3]);
    assert(u64_be_bytes(x)[4] == u64_be_bytes(y)[4]);
    assert(u64_be_bytes(x)[5] == u64_be_bytes(y)[5]);
    assert(u64_be_bytes(x)[6] == u64_be_bytes(y)[6]);
    assert(u64_be_bytes(x)[7] == u64_be_bytes(y)[7]);
    assert((x >> 56) as u8 == (y >> 56) as u8 && (x >> 48) as u8 == (y >> 48) as u8 && (x
        >> 40) as u8 == (y >> 40) as u8 && (x >> 32) as u8 == (y >> 32) as u8 && (x >> 24) as u8 == (
    y >> 24) as u8 && (x >> 16) as u8 == (y >> 16) as u8 && (x >> 8) as u8 == (y >> 8) as u8 && x as u8
        == y as u8 ==> x == y) by (bit_vector);
}

/// Word j of a prefix encoding occupies bytes 8j through 8j + 8.
pub proof fn lemma_be_words_prefix_index(s: Seq<u64>, n: int, j: int)
    requires
        0 <= j < n,
    ensures
        be_words_prefix(s, n).subrange(8 * j, 8 * j + 8) == u64_be_bytes(s[j]),
    decreases n,
{
    lemma_be_words_prefix_len(s, n);
    lemma_be_words_prefix_len(s, n - 1);
    if j == n - 1 {
        assert(be_words_prefix(s, n).subrange(8 * j, 8 * j + 8) =~= u64_be_bytes(s[j]));
    } else {
        lemma_be_words_prefix_index(s, n - 1, j);
        assert(be_words_prefix(s, n).subrange(8 * j, 8 * j + 8) =~= be_words_prefix(
            s,
            n - 1,
        ).subrange(8 * j, 8 * j + 8));
    }
}

} // verus!
