use system_trace::hex::{from_hex, to_hex};

#[test]
fn hex_round_trips() {
    let b = [0u8, 15, 16, 255, 42];
    assert_eq!(from_hex(&to_hex(&b)).unwrap(), b);
}

#[test]
fn to_hex_writes_two_lower_case_digits_per_byte() {
    assert_eq!(to_hex(&[0u8, 15, 16, 255, 42]), "000f10ff2a");
    assert_eq!(to_hex(&[]), "");
    assert_eq!(to_hex(&[0xab, 0xcd]), "abcd");
}

#[test]
fn from_hex_reads_either_case() {
    assert_eq!(from_hex("ABcd").unwrap(), vec![0xab, 0xcd]);
    assert_eq!(from_hex("").unwrap(), Vec::<u8>::new());
}

#[test]
fn from_hex_takes_a_plus_sign_as_u8_parsing_does() {
    assert_eq!(from_hex("+f").unwrap(), vec![15]);
    assert_eq!(from_hex("++"), None);
    assert_eq!(from_hex("f+"), None);
}

#[test]
fn from_hex_refuses_odd_length_and_non_digits() {
    assert_eq!(from_hex("abc"), None);
    assert_eq!(from_hex("zz"), None);
    assert_eq!(from_hex("0g"), None);
}

#[test]
fn from_hex_refuses_non_ascii_text() {
    // "é" is two bytes: the pair holds the whole character, which is no digit.
    assert_eq!(from_hex("é"), None);
    // "a€" is four bytes: the first pair holds part of "€".
    assert_eq!(from_hex("a€"), None);
    assert_eq!(from_hex("aéb"), None);
    assert_eq!(from_hex("00€a"), None);
}
