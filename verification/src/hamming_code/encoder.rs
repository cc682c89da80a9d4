//! Encoding text: the Hamming code of its UTF-8 bytes, written as decimal
//! numbers.
use crate::hamming;
use crate::hamming_code::text::{joined_numbers, push_decimal, spaced_numbers};
use vstd::prelude::*;
use vstd::string::StringExecFns;

pub use crate::hamming::{copy_bits, is_power_of_two, set_parity};

verus! {

/// Writes the bytes of `vec` as decimal numbers separated by single spaces.
pub fn to_str(vec: Vec<u8>) -> (r: String)
    ensures
        r@ == joined_numbers(vec@),
{
    let mut output = String::new();
    let n = vec.len();
    let mut x: usize = 0;
    proof {
        reveal_strlit(" ");
    }
    while x < n
        invariant
            n == vec@.len(),
            x <= n,
            x < n ==> output@ == spaced_numbers(vec@.take(x as int)),
            x == n && n > 0 ==> output@ == joined_numbers(vec@),
            n == 0 ==> output@ == Seq::<char>::empty(),
        decreases n - x,
    {
        assert(vec@.take(x + 1).drop_last() =~= vec@.take(x as int));
        if x != n - 1 {
            push_decimal(&mut output, vec[x]);
            proof {
                reveal_strlit(" ");
            }
            output.append(" ");
            assert(" "@ == seq![' ']);
            assert(vec@.take(x + 1).last() == vec@[x as int]);
            assert(spaced_numbers(vec@.take(x + 1)) == spaced_numbers(vec@.take(x as int)) + crate::hamming_code::text::dec_digits(vec@[x as int] as nat) + seq![' ']);
        } else {
            push_decimal(&mut output, vec[x]);
            assert(vec@.drop_last() =~= vec@.take(x as int));
        }
        x += 1;
    }
    output
}

/// The text that `encode` writes for `word`.
pub open spec fn spec_encode(word: Seq<char>) -> Seq<char> {
    joined_numbers(hamming::spec_encode(vstd::utf8::encode_utf8(word)))
}

/// Encodes the UTF-8 bytes of `word` with the Hamming [7,4] code and writes
/// the coded bytes as decimal numbers separated by spaces.
pub fn encode(word: String) -> (r: String)
    requires
        vstd::utf8::encode_utf8(word@).len() * 8 <= usize::MAX,
        hamming::block_count(vstd::utf8::encode_utf8(word@).len()) * 7 < usize::MAX,
    ensures
        r@ == spec_encode(word@),
{
    let bytes = word.as_str().as_bytes();
    let coded = hamming::encode(bytes);
    to_str(coded)
}

} // verus!
