use vstd::prelude::*;
use vstd::string::*;
use crate::alphabet::{
    char_digit, char_to_digit, digit_char, digit_to_char, lemma_char_digit_of_digit,
    lemma_digit_char_of_char,
};
use crate::radix::{
    be_digits, be_value, digits_below, leading_zeros, lemma_be_digits_of_le,
    lemma_be_digits_value, lemma_be_value_digits, lemma_be_value_zeros_prefix,
    lemma_leading_zeros_prefix, lemma_leading_zeros_scan, lemma_leading_zeros_split, rebase,
    reversed, zeros,
};

verus! {

/// Relies on String::push: the character is appended at the end.
pub assume_specification[ String::push ](s: &mut String, ch: char)
    ensures
        final(s)@ == old(s)@.push(ch),
;

/// The symbols for a sequence of digits below 58.
pub open spec fn symbols_of(d: Seq<u8>) -> Seq<char> {
    Seq::new(d.len(), |i: int| digit_char(d[i]))
}

/// Every character of `s` belongs to the alphabet.
pub open spec fn is_base58(s: Seq<char>) -> bool {
    forall|i: int| 0 <= i < s.len() ==> char_digit(s[i]) is Some
}

/// The digits of a string whose characters all belong to the alphabet.
pub open spec fn digits_of(s: Seq<char>) -> Seq<u8> {
    Seq::new(s.len(), |i: int| char_digit(s[i])->0)
}

/// `index` is the position of the first character of `s` outside the alphabet.
pub open spec fn first_invalid(s: Seq<char>, index: int) -> bool {
    &&& 0 <= index < s.len()
    &&& char_digit(s[index]) is None
    &&& forall|j: int| 0 <= j < index ==> char_digit(s[j]) is Some
}

/// The encoding of `b`: one zero symbol for each leading zero byte, then the
/// minimal base-58 digits of `b` read as a big-endian number.
pub open spec fn base58_encode(b: Seq<u8>) -> Seq<char> {
    symbols_of(zeros(leading_zeros(b)) + be_digits(be_value(b, 256), 58))
}

/// The bytes of a valid string: one zero byte for each leading zero symbol,
/// then the minimal big-endian bytes of the number the digits spell.
pub open spec fn base58_decode(s: Seq<char>) -> Seq<u8> {
    let d = digits_of(s);
    zeros(leading_zeros(d)) + be_digits(be_value(d, 58), 256)
}

/// Why a string cannot be decoded.
#[derive(Debug, Clone, Copy, PartialEq, Eq)]
pub enum DecodeError {
    /// The first character outside the alphabet, and its position among the
    /// string's characters.
    InvalidCharacter { character: char, index: usize },
}

/// Encodes `input` as a base58 string.
pub fn encode_bytes(input: &[u8]) -> (r: String)
    ensures
        r@ == base58_encode(input@),
{
    let mut z: usize = 0;
    while z < input.len() && input[z] == 0
        invariant
            z <= input@.len(),
            forall|k: int| 0 <= k < z ==> input@[k] == 0,
        decreases input@.len() - z,
    {
        z += 1;
    }
    proof {
        lemma_leading_zeros_scan(input@, z as nat);
    }
    let out = rebase(input, 256, 58);
    proof {
        lemma_be_digits_of_le(out@, 58);
    }
    let ghost target = symbols_of(zeros(z as nat) + reversed(out@));
    assert(target == base58_encode(input@));
    let mut r = String::new();
    let mut k: usize = 0;
    while k < z
        invariant
            k <= z,
            z <= input@.len(),
            target == symbols_of(zeros(z as nat) + reversed(out@)),
            r@ == target.take(k as int),
        decreases z - k,
    {
        r.push(digit_to_char(0));
        k += 1;
        assert(r@ =~= target.take(k as int));
    }
    let mut m: usize = out.len();
    while m > 0
        invariant
            m <= out@.len(),
            z <= input@.len(),
            digits_below(out@, 58),
            target == symbols_of(zeros(z as nat) + reversed(out@)),
            r@ == target.take(z + (out@.len() - m)),
        decreases m,
    {
        m -= 1;
        r.push(digit_to_char(out[m]));
        assert(r@ =~= target.take(z + (out@.len() - m)));
    }
    assert(r@ =~= target);
    r
}

/// Decodes a base58 string, failing on the first character outside the
/// alphabet.
pub fn decode_string(input: &str) -> (r: Result<Vec<u8>, DecodeError>)
    ensures
        r is Ok <==> is_base58(input@),
        r matches Ok(v) ==> v@ == base58_decode(input@),
        r matches Err(DecodeError::InvalidCharacter { character, index }) ==> first_invalid(
            input@,
            index as int,
        ) && character == input@[index as int],
{
    let n = input.unicode_len();
    let mut digits: Vec<u8> = Vec::new();
    let mut i: usize = 0;
    while i < n
        invariant
            n == input@.len(),
            i <= n,
            forall|j: int| 0 <= j < i ==> char_digit(input@[j]) is Some,
            digits@ == digits_of(input@).take(i as int),
        decreases n - i,
    {
        let c = input.get_char(i);
        match char_to_digit(c) {
            Some(d) => {
                digits.push(d);
            },
            None => {
                return Err(DecodeError::InvalidCharacter { character: c, index: i });
            },
        }
        i += 1;
        assert(digits@ =~= digits_of(input@).take(i as int));
    }
    assert(digits@ =~= digits_of(input@));
    assert forall|j: int| 0 <= j < digits@.len() implies digits@[j] < 58 by {
        lemma_digit_char_of_char(input@[j]);
    }
    let mut z: usize = 0;
    while z < digits.len() && digits[z] == 0
        invariant
            z <= digits@.len(),
            forall|k: int| 0 <= k < z ==> digits@[k] == 0,
        decreases digits@.len() - z,
    {
        z += 1;
    }
    proof {
        lemma_leading_zeros_scan(digits@, z as nat);
    }
    let out = rebase(digits.as_slice(), 58, 256);
    proof {
        lemma_be_digits_of_le(out@, 256);
    }
    let ghost target = zeros(z as nat) + reversed(out@);
    let mut v: Vec<u8> = Vec::new();
    let mut k: usize = 0;
    while k < z
        invariant
            k <= z,
            target == zeros(z as nat) + reversed(out@),
            v@ == target.take(k as int),
        decreases z - k,
    {
        v.push(0);
        k += 1;
        assert(v@ =~= target.take(k as int));
    }
    let mut m: usize = out.len();
    while m > 0
        invariant
            m <= out@.len(),
            target == zeros(z as nat) + reversed(out@),
            v@ == target.take(z + (out@.len() - m)),
        decreases m,
    {
        m -= 1;
        v.push(out[m]);
        assert(v@ =~= target.take(z + (out@.len() - m)));
    }
    assert(v@ =~= target);
    Ok(v)
}

/// Symbols of digits below 58 read back as those digits.
proof fn lemma_digits_of_symbols(d: Seq<u8>)
    requires
        digits_below(d, 58),
    ensures
        is_base58(symbols_of(d)),
        digits_of(symbols_of(d)) == d,
{
    assert forall|i: int| 0 <= i < d.len() implies char_digit(symbols_of(d)[i]) == Some(d[i]) by {
        lemma_char_digit_of_digit(d[i]);
    }
    assert(digits_of(symbols_of(d)) =~= d);
}

/// A valid string is the symbols of its digits, and those digits are below 58.
proof fn lemma_symbols_of_digits(s: Seq<char>)
    requires
        is_base58(s),
    ensures
        digits_below(digits_of(s), 58),
        symbols_of(digits_of(s)) == s,
{
    assert forall|i: int| 0 <= i < s.len() implies digits_of(s)[i] < 58 && digit_char(
        digits_of(s)[i],
    ) == s[i] by {
        lemma_digit_char_of_char(s[i]);
    }
    assert(symbols_of(digits_of(s)) =~= s);
}

/// For digits `d` below `from`, re-expressing them in base `to` with their
/// leading zeros kept, and then going back to base `from`, gives `d` again.
proof fn lemma_rebase_twice(d: Seq<u8>, from: nat, to: nat)
    requires
        2 <= from <= 256,
        2 <= to <= 256,
        digits_below(d, from),
    ensures
        ({
            let e = zeros(leading_zeros(d)) + be_digits(be_value(d, from), to);
            &&& digits_below(e, to)
            &&& leading_zeros(e) == leading_zeros(d)
            &&& be_value(e, to) == be_value(d, from)
            &&& zeros(leading_zeros(e)) + be_digits(be_value(e, to), from) == d
        }),
{
    let z = leading_zeros(d);
    let v = be_value(d, from);
    let t = be_digits(v, to);
    let e = zeros(z) + t;
    lemma_be_digits_value(v, to);
    lemma_leading_zeros_prefix(z, t);
    lemma_be_value_zeros_prefix(z, t, to);
    assert(digits_below(e, to));
    lemma_leading_zeros_split(d);
    let rest = d.skip(z as int);
    lemma_be_value_zeros_prefix(z, rest, from);
    assert(digits_below(rest, from));
    lemma_be_value_digits(rest, from);
}

/// Decoding an encoding gives back the bytes: every byte sequence survives the
/// round trip, and its encoding is a valid base58 string.
pub proof fn lemma_decode_encode(b: Seq<u8>)
    ensures
        is_base58(base58_encode(b)),
        base58_decode(base58_encode(b)) == b,
{
    let e = zeros(leading_zeros(b)) + be_digits(be_value(b, 256), 58);
    lemma_rebase_twice(b, 256, 58);
    lemma_digits_of_symbols(e);
}

/// Encoding the bytes of a valid base58 string gives back the string.
pub proof fn lemma_encode_decode(s: Seq<char>)
    requires
        is_base58(s),
    ensures
        base58_encode(base58_decode(s)) == s,
{
    let d = digits_of(s);
    lemma_symbols_of_digits(s);
    lemma_rebase_twice(d, 58, 256);
}

/// Leading zeros are kept both ways: the encoding of `b` starts with as many
/// zero symbols as `b` has leading zero bytes, and the bytes of a valid string
/// start with as many zero bytes as it has leading zero symbols.
pub proof fn lemma_leading_zeros_kept(b: Seq<u8>, s: Seq<char>)
    requires
        is_base58(s),
    ensures
        leading_zeros(digits_of(base58_encode(b))) == leading_zeros(b),
        leading_zeros(base58_decode(s)) == leading_zeros(digits_of(s)),
{
    lemma_rebase_twice(b, 256, 58);
    lemma_digits_of_symbols(zeros(leading_zeros(b)) + be_digits(be_value(b, 256), 58));
    lemma_symbols_of_digits(s);
    lemma_rebase_twice(digits_of(s), 58, 256);
}

} // verus!
