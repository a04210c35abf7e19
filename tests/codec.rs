use base58::alphabet::{char_to_digit, digit_to_char};
use base58::radix::rebase;
use base58::{decode_string, encode_bytes, DecodeError};

const ALPHABET: &str = "123456789ABCDEFGHJKLMNPQRSTUVWXYZabcdefghijkmnopqrstuvwxyz";

fn invalid(character: char, index: usize) -> Result<Vec<u8>, DecodeError> {
    Err(DecodeError::InvalidCharacter { character, index })
}

#[test]
fn empty_input() {
    assert_eq!(encode_bytes(&[]), "");
    assert_eq!(decode_string(""), Ok(vec![]));
}

#[test]
fn leading_zeros_are_kept() {
    assert_eq!(encode_bytes(&[0, 0, 1]), "112");
    assert_eq!(decode_string("112"), Ok(vec![0, 0, 1]));
}

#[test]
fn all_zero_bytes() {
    assert_eq!(encode_bytes(&[0]), "1");
    assert_eq!(encode_bytes(&[0, 0, 0, 0, 0]), "11111");
    assert_eq!(decode_string("1111"), Ok(vec![0, 0, 0, 0]));
}

#[test]
fn hello_world_vector() {
    assert_eq!(encode_bytes("Hello World".as_bytes()), "JxF12TrwUP45BMd");
    assert_eq!(decode_string("JxF12TrwUP45BMd"), Ok("Hello World".as_bytes().to_vec()));
}

#[test]
fn known_vectors() {
    assert_eq!(encode_bytes(&[57]), "z");
    assert_eq!(encode_bytes(&[58]), "21");
    assert_eq!(encode_bytes(&[255]), "5Q");
    assert_eq!(encode_bytes(&[0, 255]), "15Q");
    assert_eq!(encode_bytes(&[1, 0]), "5R");
    assert_eq!(decode_string("5Q"), Ok(vec![255]));
    assert_eq!(decode_string("z"), Ok(vec![57]));
}

#[test]
fn excluded_characters_are_rejected() {
    assert_eq!(decode_string("0OIl"), invalid('0', 0));
    assert_eq!(decode_string("0"), invalid('0', 0));
    assert_eq!(decode_string("O"), invalid('O', 0));
    assert_eq!(decode_string("I"), invalid('I', 0));
    assert_eq!(decode_string("l"), invalid('l', 0));
}

#[test]
fn first_invalid_character_is_reported() {
    assert_eq!(decode_string("abc0OIl"), invalid('0', 3));
    assert_eq!(decode_string("11 2"), invalid(' ', 2));
    assert_eq!(decode_string("2é"), invalid('é', 1));
    assert_eq!(decode_string("Jx+"), invalid('+', 2));
}

#[test]
fn case_is_significant() {
    assert_eq!(decode_string("i"), Ok(vec![41]));
    assert_eq!(decode_string("L"), Ok(vec![19]));
    assert_eq!(decode_string("o"), Ok(vec![46]));
    assert_eq!(decode_string("l"), invalid('l', 0));
    assert_eq!(decode_string("I"), invalid('I', 0));
    assert_eq!(decode_string("O"), invalid('O', 0));
    assert_ne!(decode_string("a"), decode_string("A"));
    assert_eq!(decode_string("a"), Ok(vec![33]));
    assert_eq!(decode_string("A"), Ok(vec![9]));
}

#[test]
fn alphabet_table() {
    for (d, c) in ALPHABET.chars().enumerate() {
        assert_eq!(digit_to_char(d as u8), c);
        assert_eq!(char_to_digit(c), Some(d as u8));
    }
    for c in ['0', 'O', 'I', 'l', ' ', '+', '/', '=', 'é'] {
        assert_eq!(char_to_digit(c), None);
    }
}

#[test]
fn rebase_digits() {
    assert_eq!(rebase(&[1, 0], 256, 58), vec![24, 4]);
    assert_eq!(rebase(&[0, 0], 256, 58), Vec::<u8>::new());
    assert_eq!(rebase(&[4, 24], 58, 256), vec![0, 1]);
    assert_eq!(rebase(&[1, 1, 1], 2, 10), vec![7]);
}

#[test]
fn round_trip_bytes() {
    let samples: Vec<Vec<u8>> = vec![
        vec![],
        vec![0],
        vec![0, 0, 0],
        vec![1, 2, 3, 4, 5],
        vec![255; 40],
        vec![0, 0, 255, 0, 1],
        (0..=255).collect(),
    ];
    for b in samples {
        assert_eq!(decode_string(&encode_bytes(&b)), Ok(b));
    }
}

#[test]
fn round_trip_strings() {
    for s in ["", "1", "111", "2", "z", "11zz", "JxF12TrwUP45BMd", "SPoo1Ku8WFXoNDMHPsrGSTSG1Y47rzgn41SLUNakuHy"] {
        let b = decode_string(s).unwrap();
        assert_eq!(encode_bytes(&b), s);
    }
}

#[test]
fn leading_zero_count_matches() {
    let b = [0u8, 0, 0, 7, 0, 9];
    let s = encode_bytes(&b);
    assert!(s.starts_with("111"));
    assert!(!s[3..].starts_with('1'));
    let back = decode_string("1111Ab").unwrap();
    assert_eq!(&back[..4], &[0, 0, 0, 0]);
    assert_ne!(back[4], 0);
}

#[test]
fn long_input() {
    let b: Vec<u8> = (0..2000u32).map(|i| (i * 7 + 3) as u8).collect();
    let s = encode_bytes(&b);
    assert_eq!(decode_string(&s), Ok(b));
}

#[test]
fn agrees_with_bs58() {
    let samples: Vec<Vec<u8>> = vec![
        vec![],
        vec![0, 0, 1],
        b"Hello World".to_vec(),
        vec![255; 33],
        (0..=255).rev().collect(),
        vec![0, 0, 0, 200, 3, 0],
    ];
    for b in samples {
        let s = bs58::encode(&b).into_string();
        assert_eq!(encode_bytes(&b), s);
        assert_eq!(decode_string(&s), Ok(bs58::decode(&s).into_vec().unwrap()));
    }
    assert!(bs58::decode("0OIl").into_vec().is_err());
}
