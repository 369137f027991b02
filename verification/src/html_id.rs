//! Identifiers for elements of a page, made from any text.

use crate::numerals::{hexadecimal, push_numeral};
use vstd::prelude::*;
use vstd::string::StringSliceAdditionalSpecFns;

verus! {

/// The hash after one more byte: thirty-three times the hash, in 64 bits,
/// with the byte mixed in.
pub open spec fn hash_step(hash: u64, byte: u8) -> u64 {
    hash.wrapping_shl(5).wrapping_add(hash) ^ (byte as u64)
}

/// The hash of the bytes, taken from the first to the last.
pub open spec fn hash_of(bytes: Seq<u8>) -> u64
    decreases bytes.len(),
{
    if bytes.len() == 0 {
        5381
    } else {
        hash_step(hash_of(bytes.drop_last()), bytes.last())
    }
}

/// The hash of the text's bytes.
pub fn text_hash(input: &str) -> (r: u64)
    ensures
        r == hash_of(input.spec_bytes()),
{
    let bytes = input.as_bytes();
    let n: usize = bytes.len();
    let mut hash: u64 = 5381;
    let mut i: usize = 0;
    while i < n
        invariant
            n == bytes@.len(),
            0 <= i <= n,
            hash == hash_of(bytes@.take(i as int)),
        decreases n - i,
    {
        proof {
            assert(bytes@.take(i + 1).drop_last() =~= bytes@.take(i as int));
        }
        hash = hash.wrapping_shl(5).wrapping_add(hash) ^ (bytes[i] as u64);
        i = i + 1;
    }
    proof {
        assert(bytes@.take(n as int) =~= bytes@);
    }
    hash
}

/// An identifier that is safe in a page whatever the text holds: `id` and
/// the text's hash in hexadecimal digits.
pub fn safe_html_id(input: &str) -> (r: String)
    ensures
        r@ == "id"@ + hexadecimal(hash_of(input.spec_bytes()) as nat),
{
    let mut out = "id".to_owned();
    push_numeral(&mut out, text_hash(input), 16);
    out
}

} // verus!
