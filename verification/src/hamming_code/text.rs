//! Decimal numbers in text, and text decoded from UTF-8.
use vstd::prelude::*;
use vstd::string::{StrSliceExecFns, StringExecFns};

verus! {

/// The character of decimal digit `d`.
pub open spec fn digit_char(d: nat) -> char {
    (48 + d) as char
}

/// The decimal digits of `n`, without leading zeros.
pub open spec fn dec_digits(n: nat) -> Seq<char>
    decreases n,
{
    if n < 10 {
        seq![digit_char(n)]
    } else {
        dec_digits(n / 10).push(digit_char(n % 10))
    }
}

/// The decimal numbers of `v`, each followed by a space.
pub open spec fn spaced_numbers(v: Seq<u8>) -> Seq<char>
    decreases v.len(),
{
    if v.len() == 0 {
        Seq::<char>::empty()
    } else {
        spaced_numbers(v.drop_last()) + dec_digits(v.last() as nat) + seq![' ']
    }
}

/// The decimal numbers of `v` separated by single spaces.
pub open spec fn joined_numbers(v: Seq<u8>) -> Seq<char> {
    if v.len() == 0 {
        Seq::<char>::empty()
    } else {
        spaced_numbers(v.drop_last()) + dec_digits(v.last() as nat)
    }
}

/// The pieces of `s` between the characters `' '`, as `str::split(' ')`
/// cuts them (an empty text is one empty piece).
pub open spec fn split_spaces(s: Seq<char>) -> Seq<Seq<char>>
    decreases s.len(),
{
    if s.len() == 0 {
        seq![Seq::<char>::empty()]
    } else {
        let r = split_spaces(s.drop_last());
        if s.last() == ' ' {
            r.push(Seq::<char>::empty())
        } else {
            r.update(r.len() - 1, r.last().push(s.last()))
        }
    }
}

/// Whether `c` is a decimal digit.
pub open spec fn is_digit(c: char) -> bool {
    '0' <= c <= '9'
}

/// The value of the decimal digits `d`.
pub open spec fn digits_value(d: Seq<char>) -> nat
    decreases d.len(),
{
    if d.len() == 0 {
        0
    } else {
        digits_value(d.drop_last()) * 10 + ((d.last() as nat) - 48) as nat
    }
}

/// The digits that `u8::from_str` reads: the text without one leading `+`.
pub open spec fn digit_part(t: Seq<char>) -> Seq<char> {
    if t.len() > 0 && t[0] == '+' {
        t.drop_first()
    } else {
        t
    }
}

/// Whether `u8::from_str` accepts `t`: an optional `+`, then at least one
/// decimal digit, with a value that fits in a byte.
pub open spec fn parses_as_u8(t: Seq<char>) -> bool {
    let d = digit_part(t);
    &&& d.len() > 0
    &&& forall|i: int| 0 <= i < d.len() ==> is_digit(#[trigger] d[i])
    &&& digits_value(d) <= 255
}

/// The byte that `u8::from_str` reads from an accepted text.
pub open spec fn u8_value(t: Seq<char>) -> u8 {
    digits_value(digit_part(t)) as u8
}

/// The text of decimal digit `d`.
fn digit_str(d: u8) -> (r: &'static str)
    requires
        d < 10,
    ensures
        r@ == seq![digit_char(d as nat)],
{
    proof {
        reveal_strlit("0");
        reveal_strlit("1");
        reveal_strlit("2");
        reveal_strlit("3");
        reveal_strlit("4");
        reveal_strlit("5");
        reveal_strlit("6");
        reveal_strlit("7");
        reveal_strlit("8");
        reveal_strlit("9");
    }
    match d {
        0 => "0",
        1 => "1",
        2 => "2",
        3 => "3",
        4 => "4",
        5 => "5",
        6 => "6",
        7 => "7",
        8 => "8",
        _ => "9",
    }
}

/// Appends the decimal digits of `v` to `out`.
pub fn push_decimal(out: &mut String, v: u8)
    ensures
        final(out)@ == old(out)@ + dec_digits(v as nat),
{
    reveal_with_fuel(dec_digits, 3);
    if v >= 100 {
        out.append(digit_str(v / 100));
    }
    if v >= 10 {
        out.append(digit_str((v / 10) % 10));
    }
    out.append(digit_str(v % 10));
    proof {
        if v >= 100 {
            assert(dec_digits(v as nat / 10) == dec_digits(v as nat / 100).push(digit_char((v as nat / 10) % 10)));
        }
    }
}

/// Reads a byte written in decimal, as `u8::from_str` does; `None` when it
/// does not accept the text.
pub fn parse_u8(s: &str) -> (r: Option<u8>)
    ensures
        r is Some <==> parses_as_u8(s@),
        r is Some ==> r->0 == u8_value(s@),
{
    let n = s.unicode_len();
    let ghost t = s@;
    let mut i: usize = 0;
    if n > 0 && s.get_char(0) == '+' {
        i = 1;
    }
    let start = i;
    let ghost d = digit_part(t);
    assert(d =~= t.subrange(start as int, n as int));
    if start == n {
        return None;
    }
    let mut v: u32 = 0;
    while i < n
        invariant
            n == t.len(),
            t == s@,
            start <= i <= n,
            d == t.subrange(start as int, n as int),
            d == digit_part(s@),
            forall|j: int| start <= j < i ==> is_digit(#[trigger] t[j]),
            v == digits_value(t.subrange(start as int, i as int)),
            v <= 255,
        decreases n - i,
    {
        let c = s.get_char(i);
        assert(t.subrange(start as int, i + 1).drop_last() =~= t.subrange(start as int, i as int));
        if !('0' <= c && c <= '9') {
            assert(!is_digit(d[i - start]));
            assert(!(forall|j: int| 0 <= j < d.len() ==> is_digit(#[trigger] d[j])));
            return None;
        }
        v = v * 10 + ((c as u32) - 48);
        if v > 255 {
            proof {
                assert(d.subrange(0, i + 1 - start) =~= t.subrange(start as int, i + 1));
                if forall|j: int| 0 <= j < d.len() ==> is_digit(#[trigger] d[j]) {
                    lemma_digits_value_grows(d, (i + 1 - start) as int);
                }
            }
            return None;
        }
        i += 1;
    }
    assert(t.subrange(start as int, n as int) =~= d);
    Some(v as u8)
}

/// A prefix of a digit string has no larger value.
proof fn lemma_digits_value_grows(d: Seq<char>, k: int)
    requires
        0 <= k <= d.len(),
        forall|i: int| 0 <= i < d.len() ==> is_digit(#[trigger] d[i]),
    ensures
        digits_value(d.subrange(0, k)) <= digits_value(d),
    decreases d.len(),
{
    if k < d.len() {
        assert(d.drop_last().subrange(0, k) =~= d.subrange(0, k));
        lemma_digits_value_grows(d.drop_last(), k);
    } else {
        assert(d.subrange(0, k) =~= d);
    }
}

/// The text that the UTF-8 bytes decode to, invalid sequences replaced.
pub uninterp spec fn utf8_lossy(bytes: Seq<u8>) -> Seq<char>;

/// `String::from_utf8_lossy`: decodes UTF-8, each invalid sequence replaced
/// by U+FFFD; the result is a function of the bytes, and valid UTF-8
/// decodes exactly.  Which characters replace invalid input is not stated.
#[verifier::external_body]
pub(crate) fn from_utf8_lossy(bytes: &[u8]) -> (r: String)
    ensures
        r@ == utf8_lossy(bytes@),
        vstd::utf8::valid_utf8(bytes@) ==> r@ == vstd::utf8::decode_utf8(bytes@),
{
    String::from_utf8_lossy(bytes).into_owned()
}

/// Whether `d` holds no space.
pub open spec fn no_space(d: Seq<char>) -> bool {
    forall|i: int| 0 <= i < d.len() ==> d[i] != ' '
}

/// Appending text without spaces extends the last piece.
proof fn lemma_split_extend(s: Seq<char>, d: Seq<char>)
    requires
        no_space(d),
    ensures
        split_spaces(s + d) == split_spaces(s).update(
            split_spaces(s).len() - 1,
            split_spaces(s).last() + d,
        ),
        split_spaces(s + d).len() == split_spaces(s).len(),
    decreases d.len(),
{
    lemma_split_len(s);
    if d.len() == 0 {
        assert(s + d =~= s);
        assert(split_spaces(s).last() + d =~= split_spaces(s).last());
        assert(split_spaces(s).update(split_spaces(s).len() - 1, split_spaces(s).last()) =~= split_spaces(s));
    } else {
        let d0 = d.drop_last();
        lemma_split_extend(s, d0);
        assert((s + d).drop_last() =~= s + d0);
        assert((s + d).last() == d.last());
        assert(split_spaces(s).last() + d =~= (split_spaces(s).last() + d0).push(d.last()));
        assert(split_spaces(s + d) =~= split_spaces(s).update(split_spaces(s).len() - 1, split_spaces(s).last() + d));
    }
}

/// Splitting gives at least one piece.
pub proof fn lemma_split_len(s: Seq<char>)
    ensures
        split_spaces(s).len() >= 1,
    decreases s.len(),
{
    if s.len() > 0 {
        lemma_split_len(s.drop_last());
    }
}

/// Decimal digits hold no space and only digits.
proof fn lemma_dec_digits(n: nat)
    ensures
        no_space(dec_digits(n)),
        dec_digits(n).len() > 0,
        forall|i: int| 0 <= i < dec_digits(n).len() ==> is_digit(#[trigger] dec_digits(n)[i]),
        digits_value(dec_digits(n)) == n,
    decreases n,
{
    assert((digit_char(n % 10) as nat) == 48 + n % 10);
    let d = dec_digits(n);
    if n >= 10 {
        lemma_dec_digits(n / 10);
        assert(d.drop_last() =~= dec_digits(n / 10));
        assert(d.last() == digit_char(n % 10));
        assert(digits_value(d) == digits_value(dec_digits(n / 10)) * 10 + n % 10);
    } else {
        assert(d.drop_last() =~= Seq::<char>::empty());
        assert(digits_value(d.drop_last()) == 0);
        assert(d.len() == 1);
        assert(d.last() == digit_char(n % 10));
        assert(n % 10 == n);
    }
}

/// The pieces of numbers written each followed by a space, then `d`.
proof fn lemma_split_spaced(v: Seq<u8>, d: Seq<char>)
    requires
        no_space(d),
    ensures
        split_spaces(spaced_numbers(v) + d) == v.map_values(|b: u8| dec_digits(b as nat)).push(d),
    decreases v.len(),
{
    if v.len() == 0 {
        assert(spaced_numbers(v) + d =~= Seq::<char>::empty() + d);
        lemma_split_extend(Seq::<char>::empty(), d);
        assert(split_spaces(Seq::<char>::empty()) == seq![Seq::<char>::empty()]);
        assert(Seq::<char>::empty() + d =~= d);
        assert(split_spaces(spaced_numbers(v) + d) =~= seq![d]);
        assert(v.map_values(|b: u8| dec_digits(b as nat)).push(d) =~= seq![d]);
    } else {
        let v0 = v.drop_last();
        let l = dec_digits(v.last() as nat);
        lemma_dec_digits(v.last() as nat);
        lemma_split_spaced(v0, l);
        let s = spaced_numbers(v0) + l;
        assert(spaced_numbers(v) + d =~= (s + seq![' ']) + d);
        assert((s + seq![' ']).drop_last() =~= s);
        assert(split_spaces(s + seq![' ']) == split_spaces(s).push(Seq::<char>::empty()));
        lemma_split_extend(s + seq![' '], d);
        assert(Seq::<char>::empty() + d =~= d);
        assert(v.map_values(|b: u8| dec_digits(b as nat)) =~= v0.map_values(|b: u8| dec_digits(b as nat)).push(l));
        assert(split_spaces(spaced_numbers(v) + d) =~= v.map_values(|b: u8| dec_digits(b as nat)).push(d));
    }
}

/// The pieces of numbers separated by spaces are the numbers.
pub proof fn lemma_split_joined(v: Seq<u8>)
    requires
        v.len() > 0,
    ensures
        split_spaces(joined_numbers(v)) == v.map_values(|b: u8| dec_digits(b as nat)),
        forall|i: int| 0 <= i < v.len() ==> parses_as_u8(#[trigger] dec_digits(v[i] as nat)),
        forall|i: int| 0 <= i < v.len() ==> u8_value(#[trigger] dec_digits(v[i] as nat)) == v[i],
{
    let v0 = v.drop_last();
    lemma_dec_digits(v.last() as nat);
    lemma_split_spaced(v0, dec_digits(v.last() as nat));
    assert(v0.map_values(|b: u8| dec_digits(b as nat)).push(dec_digits(v.last() as nat)) =~= v.map_values(
        |b: u8| dec_digits(b as nat),
    ));
    assert forall|i: int| 0 <= i < v.len() implies parses_as_u8(#[trigger] dec_digits(v[i] as nat))
        && u8_value(dec_digits(v[i] as nat)) == v[i] by {
        lemma_dec_digits(v[i] as nat);
        let d = dec_digits(v[i] as nat);
        assert(d[0] != '+');
        assert(digit_part(d) == d);
    }
}

} // verus!
