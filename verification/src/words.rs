//! 32-bit words and their bytes in device buffers.
//!
//! Buffers are exchanged with the device as raw memory, so a word occupies
//! four bytes in the byte order of the machine that runs the host.

use vstd::endian::{endianness, Endian};
use vstd::prelude::*;

verus! {

/// Number of bytes in one word.
pub const WORD_BYTES: usize = 4;

/// The word whose four bytes, in buffer order, are `b0`, `b1`, `b2`, `b3`.
pub open spec fn word_from_bytes(order: Endian, b0: u8, b1: u8, b2: u8, b3: u8) -> u32 {
    match order {
        Endian::Little => (b0 + 256 * b1 + 65536 * b2 + 16777216 * b3) as u32,
        Endian::Big => (b3 + 256 * b2 + 65536 * b1 + 16777216 * b0) as u32,
    }
}

/// Byte `i` (0 to 3, in buffer order) of the word `w`.
pub open spec fn word_byte(order: Endian, w: u32, i: int) -> u8 {
    let place = match order {
        Endian::Little => i,
        Endian::Big => 3 - i,
    };
    if place == 0 {
        (w % 256) as u8
    } else if place == 1 {
        (w / 256 % 256) as u8
    } else if place == 2 {
        (w / 65536 % 256) as u8
    } else {
        (w / 16777216) as u8
    }
}

/// The bytes of a sequence of words, word after word.
pub open spec fn words_to_bytes(order: Endian, words: Seq<u32>) -> Seq<u8> {
    Seq::new(4 * words.len(), |i: int| word_byte(order, words[i / 4], i % 4))
}

/// The whole words held by a sequence of bytes; up to three trailing bytes
/// that do not fill a word are left out.
pub open spec fn bytes_to_words(order: Endian, bytes: Seq<u8>) -> Seq<u32> {
    Seq::new(
        bytes.len() / 4,
        |i: int|
            word_from_bytes(order, bytes[4 * i], bytes[4 * i + 1], bytes[4 * i + 2], bytes[4 * i + 3]),
    )
}

/// The bytes of a buffer that holds `words`, on this machine.
pub open spec fn native_bytes(words: Seq<u32>) -> Seq<u8> {
    words_to_bytes(endianness(), words)
}

/// The words that a buffer with the given bytes holds, on this machine.
pub open spec fn native_words(bytes: Seq<u8>) -> Seq<u32> {
    bytes_to_words(endianness(), bytes)
}

/// Splitting a word into bytes and joining them again gives the word back.
pub proof fn lemma_word_round_trip(order: Endian, w: u32)
    ensures
        word_from_bytes(
            order,
            word_byte(order, w, 0),
            word_byte(order, w, 1),
            word_byte(order, w, 2),
            word_byte(order, w, 3),
        ) == w,
{
}

/// The four base-256 digits of `a + 256 b + 65536 c + 16777216 d`.
proof fn lemma_digits(a: int, b: int, c: int, d: int)
    requires
        0 <= a < 256,
        0 <= b < 256,
        0 <= c < 256,
        0 <= d < 256,
    ensures
        0 <= a + 256 * b + 65536 * c + 16777216 * d < 0x1_0000_0000,
        (a + 256 * b + 65536 * c + 16777216 * d) % 256 == a,
        (a + 256 * b + 65536 * c + 16777216 * d) / 256 % 256 == b,
        (a + 256 * b + 65536 * c + 16777216 * d) / 65536 % 256 == c,
        (a + 256 * b + 65536 * c + 16777216 * d) / 16777216 == d,
{
    let w = a + 256 * b + 65536 * c + 16777216 * d;
    assert(w / 256 == b + 256 * c + 65536 * d);
    assert(w / 65536 == c + 256 * d);
    assert(w / 16777216 == d);
}

/// Joining four bytes into a word and splitting it again gives the bytes back.
pub proof fn lemma_byte_round_trip(order: Endian, b0: u8, b1: u8, b2: u8, b3: u8)
    ensures
        word_byte(order, word_from_bytes(order, b0, b1, b2, b3), 0) == b0,
        word_byte(order, word_from_bytes(order, b0, b1, b2, b3), 1) == b1,
        word_byte(order, word_from_bytes(order, b0, b1, b2, b3), 2) == b2,
        word_byte(order, word_from_bytes(order, b0, b1, b2, b3), 3) == b3,
{
    match order {
        Endian::Little => lemma_digits(b0 as int, b1 as int, b2 as int, b3 as int),
        Endian::Big => lemma_digits(b3 as int, b2 as int, b1 as int, b0 as int),
    }
}

/// Words written to a buffer are read back unchanged.
pub proof fn lemma_words_round_trip(order: Endian, words: Seq<u32>)
    ensures
        words_to_bytes(order, words).len() == 4 * words.len(),
        bytes_to_words(order, words_to_bytes(order, words)) == words,
{
    let bytes = words_to_bytes(order, words);
    let back = bytes_to_words(order, bytes);
    assert(back.len() == words.len());
    assert forall|i: int| 0 <= i < words.len() implies back[i] == words[i] by {
        lemma_word_round_trip(order, words[i]);
    }
    assert(back =~= words);
}

/// A buffer whose length is a whole number of words is rebuilt, byte for
/// byte, from the words it holds.
pub proof fn lemma_bytes_round_trip(order: Endian, bytes: Seq<u8>)
    requires
        bytes.len() % 4 == 0,
    ensures
        words_to_bytes(order, bytes_to_words(order, bytes)) == bytes,
{
    let words = bytes_to_words(order, bytes);
    let back = words_to_bytes(order, words);
    assert(back.len() == bytes.len());
    assert forall|i: int| 0 <= i < bytes.len() implies back[i] == bytes[i] by {
        let q = i / 4;
        lemma_byte_round_trip(
            order,
            bytes[4 * q],
            bytes[4 * q + 1],
            bytes[4 * q + 2],
            bytes[4 * q + 3],
        );
    }
    assert(back =~= bytes);
}

/// Calls `u32::from_ne_bytes` on the array of the four bytes. The result is
/// the word that these bytes form in the byte order of this machine.
#[verifier::external_body]
pub(crate) fn word_from_ne_bytes(b0: u8, b1: u8, b2: u8, b3: u8) -> (w: u32)
    ensures
        w == word_from_bytes(endianness(), b0, b1, b2, b3),
{
    u32::from_ne_bytes([b0, b1, b2, b3])
}

/// Calls `bytemuck::cast_slice` to view the words as bytes, and copies them.
/// The result is the memory of the slice: four bytes for each word, in the
/// byte order of this machine, word after word. From `u32` to `u8` the cast
/// neither fails nor leaves anything over.
#[verifier::external_body]
pub(crate) fn cast_words(words: &[u32]) -> (bytes: Vec<u8>)
    ensures
        bytes@ == native_bytes(words@),
{
    bytemuck::cast_slice::<u32, u8>(words).to_vec()
}

} // verus!
