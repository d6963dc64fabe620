//! Reading device memory as words.

use crate::words::{native_words, word_from_ne_bytes, WORD_BYTES};
use vstd::prelude::*;

verus! {

/// Reads a byte buffer as 32-bit words in the byte order of this machine.
/// Trailing bytes that do not fill a word are ignored.
pub fn bytes_to_u32(bytes: &[u8]) -> (results: Vec<u32>)
    ensures
        results@ == native_words(bytes@),
{
    let mut results: Vec<u32> = Vec::new();
    let count: usize = bytes.len() / WORD_BYTES;
    let mut i: usize = 0;
    while i < count
        invariant
            count == bytes@.len() / 4,
            bytes@.len() <= usize::MAX,
            i <= count,
            results@.len() == i,
            forall|n: int| 0 <= n < i ==> results@[n] == native_words(bytes@)[n],
        decreases count - i,
    {
        let value = word_from_ne_bytes(
            bytes[i * 4],
            bytes[i * 4 + 1],
            bytes[i * 4 + 2],
            bytes[i * 4 + 3],
        );
        results.push(value);
        i = i + 1;
    }
    assert(results@ =~= native_words(bytes@));
    results
}

} // verus!
