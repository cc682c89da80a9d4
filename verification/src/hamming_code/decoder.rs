//! Decoding text written by the encoder back to the text it encodes.
use crate::hamming;
use crate::hamming_code::encoder;
use crate::hamming_code::text::{
    dec_digits, from_utf8_lossy, joined_numbers, lemma_split_joined, parse_u8, parses_as_u8, split_spaces,
    u8_value, utf8_lossy,
};
use vstd::prelude::*;
use vstd::string::StrSliceExecFns;

pub use crate::hamming::{
    append, checking_for_eight, copy_bits, count_mistakes, flipped_bit, indexes_to_check, parity_check,
};

verus! {

/// The texts of a list of string slices.
pub open spec fn texts(line: Seq<&str>) -> Seq<Seq<char>> {
    line.map_values(|s: &str| s@)
}

/// The bytes read from texts that each hold one decimal byte.
pub open spec fn parsed_bytes(pieces: Seq<Seq<char>>) -> Seq<u8> {
    pieces.map_values(|t: Seq<char>| u8_value(t))
}

/// Reads each text as a decimal byte; it panics, unwrapping a parse error,
/// on a text that `u8::from_str` does not accept.
pub fn parse_to_u8(line: Vec<&str>) -> (r: Vec<u8>)
    requires
        forall|i: int| 0 <= i < line@.len() ==> parses_as_u8(#[trigger] line@[i]@),
    ensures
        r@ == parsed_bytes(texts(line@)),
{
    let mut output: Vec<u8> = Vec::new();
    let n = line.len();
    let mut x: usize = 0;
    while x < n
        invariant
            n == line@.len(),
            forall|i: int| 0 <= i < line@.len() ==> parses_as_u8(#[trigger] line@[i]@),
            x <= n,
            output@ == parsed_bytes(texts(line@.take(x as int))),
        decreases n - x,
    {
        let v = parse_u8(line[x]);
        output.push(v.unwrap());
        assert(parsed_bytes(texts(line@.take(x + 1))) =~= parsed_bytes(texts(line@.take(x as int))).push(
            u8_value(line@[x as int]@),
        ));
        x += 1;
    }
    assert(line@.take(n as int) =~= line@);
    output
}

/// Cuts `s` at every space, as `str::split(' ')` does.
fn split_at_spaces(s: &str) -> (r: Vec<&str>)
    ensures
        texts(r@) == split_spaces(s@),
{
    let n = s.unicode_len();
    let ghost t = s@;
    let mut pieces: Vec<&str> = Vec::new();
    let mut start: usize = 0;
    let mut i: usize = 0;
    assert(t.take(0) =~= Seq::<char>::empty());
    assert(t.subrange(0, 0) =~= Seq::<char>::empty());
    assert(texts(pieces@) =~= Seq::<Seq<char>>::empty());
    assert(split_spaces(t.take(0)) =~= texts(pieces@).push(t.subrange(0, 0)));
    while i < n
        invariant
            n == t.len(),
            t == s@,
            start <= i <= n,
            split_spaces(t.take(i as int)) == texts(pieces@).push(t.subrange(start as int, i as int)),
        decreases n - i,
    {
        let c = s.get_char(i);
        let ghost before = t.take(i as int);
        assert(t.take(i + 1).drop_last() =~= before);
        assert(t.take(i + 1).last() == c);
        assert(t.take(i + 1).len() > 0);
        if c == ' ' {
            let ghost old_pieces = pieces@;
            let ghost r = split_spaces(before);
            assert(split_spaces(t.take(i + 1)) == r.push(Seq::<char>::empty()));
            pieces.push(s.substring_char(start, i));
            assert(texts(pieces@) =~= texts(old_pieces).push(t.subrange(start as int, i as int)));
            start = i + 1;
            assert(t.subrange(start as int, i + 1) =~= Seq::<char>::empty());
            assert(split_spaces(t.take(i + 1)) =~= texts(pieces@).push(t.subrange(start as int, i + 1)));
        } else {
            let ghost r = split_spaces(before);
            assert(split_spaces(t.take(i + 1)) == r.update(r.len() - 1, r.last().push(c)));
            assert(t.subrange(start as int, i + 1) =~= t.subrange(start as int, i as int).push(c));
            assert(split_spaces(t.take(i + 1)) =~= texts(pieces@).push(t.subrange(start as int, i + 1)));
        }
        i += 1;
    }
    pieces.push(s.substring_char(start, n));
    assert(t.take(n as int) =~= t);
    assert(texts(pieces@) =~= texts(pieces@.drop_last()).push(t.subrange(start as int, n as int)));
    pieces
}

/// Splitting gives at least one piece.
proof fn lemma_split_nonempty(s: Seq<char>)
    ensures
        split_spaces(s).len() >= 1,
    decreases s.len(),
{
    if s.len() > 0 {
        lemma_split_nonempty(s.drop_last());
    }
}

/// The bytes that `decode` reads as UTF-8: the Hamming decoding of the
/// numbers between the spaces of `coded`.
pub open spec fn spec_decode_bytes(coded: Seq<char>) -> Seq<u8> {
    hamming::spec_decode(parsed_bytes(split_spaces(coded)))
}

/// The text that `decode` returns for `coded`.
pub open spec fn spec_decode(coded: Seq<char>) -> Seq<char> {
    utf8_lossy(spec_decode_bytes(coded))
}

/// Decodes text written by `encode`: reads the decimal numbers between the
/// spaces, decodes those bytes with the Hamming [7,4] code and reads the
/// result as UTF-8.  It panics, unwrapping a parse error, when a piece
/// between spaces is not a decimal byte.
pub fn decode(coded: String) -> (r: String)
    requires
        forall|i: int|
            0 <= i < split_spaces(coded@).len() ==> parses_as_u8(#[trigger] split_spaces(coded@)[i]),
        split_spaces(coded@).len() * 8 <= usize::MAX,
    ensures
        r@ == spec_decode(coded@),
        vstd::utf8::valid_utf8(spec_decode_bytes(coded@)) ==> r@ == vstd::utf8::decode_utf8(
            spec_decode_bytes(coded@),
        ),
{
    let v = split_at_spaces(coded.as_str());
    assert forall|i: int| 0 <= i < v@.len() implies parses_as_u8(#[trigger] v@[i]@) by {
        assert(texts(v@)[i] == v@[i]@);
    }
    let parsed = parse_to_u8(v);
    proof {
        lemma_split_nonempty(coded@);
    }
    let vec = hamming::decode(parsed.as_slice());
    from_utf8_lossy(vec.as_slice())
}

/// The text that `encode` writes decodes back to the encoded text's UTF-8
/// bytes, every piece of it is a decimal byte, and those bytes decode to
/// the text: so `decode` gives the text back.  This holds when the UTF-8
/// length leaves remainder 0 or 3 divided by 4 and its bit count fits in a
/// `u32`.
pub proof fn lemma_text_roundtrip(word: Seq<char>)
    requires
        vstd::utf8::encode_utf8(word).len() % 4 == 0 || vstd::utf8::encode_utf8(word).len() % 4 == 3,
        vstd::utf8::encode_utf8(word).len() * 8 < 0x1_0000_0000,
    ensures
        forall|i: int|
            0 <= i < split_spaces(encoder::spec_encode(word)).len() ==> parses_as_u8(
                #[trigger] split_spaces(encoder::spec_encode(word))[i],
            ),
        spec_decode_bytes(encoder::spec_encode(word)) == vstd::utf8::encode_utf8(word),
        vstd::utf8::valid_utf8(vstd::utf8::encode_utf8(word)),
        vstd::utf8::decode_utf8(vstd::utf8::encode_utf8(word)) == word,
{
    let bytes = vstd::utf8::encode_utf8(word);
    let coded = hamming::spec_encode(bytes);
    assert(coded.len() > 0);
    lemma_split_joined(coded);
    let pieces = split_spaces(joined_numbers(coded));
    assert(parsed_bytes(pieces) =~= coded);
    hamming::lemma_roundtrip(bytes);
    vstd::utf8::encode_utf8_valid_utf8(word);
    vstd::utf8::encode_utf8_decode_utf8(word);
}

/// The pieces of what `to_str` writes for a non-empty byte string, split at
/// the spaces, each parse as a byte, and `parse_to_u8` reads the bytes back.
pub proof fn lemma_parse_to_str(v: Seq<u8>)
    requires
        v.len() > 0,
    ensures
        forall|i: int|
            0 <= i < split_spaces(joined_numbers(v)).len() ==> parses_as_u8(
                #[trigger] split_spaces(joined_numbers(v))[i],
            ),
        parsed_bytes(split_spaces(joined_numbers(v))) == v,
{
    lemma_split_joined(v);
    let p = split_spaces(joined_numbers(v));
    assert forall|i: int| 0 <= i < p.len() implies parses_as_u8(#[trigger] p[i]) by {
        assert(p[i] == dec_digits(v[i] as nat));
    }
    assert forall|i: int| 0 <= i < v.len() implies #[trigger] parsed_bytes(p)[i] == v[i] by {
        assert(p[i] == dec_digits(v[i] as nat));
    }
    assert(parsed_bytes(p) =~= v);
}

} // verus!
