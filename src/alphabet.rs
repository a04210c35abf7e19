use vstd::prelude::*;

verus! {

/// Code point of the symbol for digit `d`. The 58 symbols, in digit order, are
/// `123456789ABCDEFGHJKLMNPQRSTUVWXYZabcdefghijkmnopqrstuvwxyz`: the digits and
/// Latin letters without `0`, `O`, `I` and `l`.
pub open spec fn digit_code(d: u8) -> u8 {
    if d < 9 {
        (49 + d) as u8
    } else if d < 17 {
        (56 + d) as u8
    } else if d < 22 {
        (57 + d) as u8
    } else if d < 33 {
        (58 + d) as u8
    } else if d < 44 {
        (64 + d) as u8
    } else {
        (65 + d) as u8
    }
}

/// The symbol that stands for digit `d` (for `d < 58`).
pub open spec fn digit_char(d: u8) -> char {
    digit_code(d) as char
}

/// The digit that symbol `c` stands for, or `None` where `c` is not in the
/// alphabet.
pub open spec fn char_digit(c: char) -> Option<u8> {
    let x = c as u32;
    if 49 <= x <= 57 {
        Some((x - 49) as u8)
    } else if 65 <= x <= 72 {
        Some((x - 56) as u8)
    } else if 74 <= x <= 78 {
        Some((x - 57) as u8)
    } else if 80 <= x <= 90 {
        Some((x - 58) as u8)
    } else if 97 <= x <= 107 {
        Some((x - 64) as u8)
    } else if 109 <= x <= 122 {
        Some((x - 65) as u8)
    } else {
        None
    }
}

/// Every digit's symbol reads back as that digit.
pub proof fn lemma_char_digit_of_digit(d: u8)
    requires
        d < 58,
    ensures
        char_digit(digit_char(d)) == Some(d),
{
    assert((digit_code(d) as char) as u32 == digit_code(d) as u32);
}

/// Every symbol of the alphabet is the symbol of the digit it reads as.
pub proof fn lemma_digit_char_of_char(c: char)
    requires
        char_digit(c) is Some,
    ensures
        char_digit(c)->0 < 58,
        digit_char(char_digit(c)->0) == c,
{
    let x = c as u32;
    let d = char_digit(c)->0;
    assert(digit_code(d) as u32 == x);
    assert((x as char) == c);
}

/// The symbol for digit `d`.
pub fn digit_to_char(d: u8) -> (c: char)
    requires
        d < 58,
    ensures
        c == digit_char(d),
{
    let code: u8 = if d < 9 {
        49 + d
    } else if d < 17 {
        56 + d
    } else if d < 22 {
        57 + d
    } else if d < 33 {
        58 + d
    } else if d < 44 {
        64 + d
    } else {
        65 + d
    };
    code as char
}

/// The digit for symbol `c`, or `None` where `c` is not in the alphabet.
pub fn char_to_digit(c: char) -> (r: Option<u8>)
    ensures
        r == char_digit(c),
{
    let x: u32 = c as u32;
    if 49 <= x && x <= 57 {
        Some((x - 49) as u8)
    } else if 65 <= x && x <= 72 {
        Some((x - 56) as u8)
    } else if 74 <= x && x <= 78 {
        Some((x - 57) as u8)
    } else if 80 <= x && x <= 90 {
        Some((x - 58) as u8)
    } else if 97 <= x && x <= 107 {
        Some((x - 64) as u8)
    } else if 109 <= x && x <= 122 {
        Some((x - 65) as u8)
    } else {
        None
    }
}

} // verus!
