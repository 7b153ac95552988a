//! Lower-case hex encoding of byte strings, and its inverse.

use vstd::prelude::*;
use vstd::string::StringSliceAdditionalSpecFns;
use vstd::utf8::*;

verus! {

/// The lower-case hex digit for a value below 16.
pub open spec fn hex_digit(n: int) -> char {
    if n < 10 {
        (n + 48) as char
    } else {
        (n + 87) as char
    }
}

/// The hex text of `bytes`: two lower-case digits per byte, high nibble first.
pub open spec fn spec_to_hex(bytes: Seq<u8>) -> Seq<char> {
    Seq::new(
        2 * bytes.len(),
        |i: int|
            if i % 2 == 0 {
                hex_digit(bytes[i / 2] as int / 16)
            } else {
                hex_digit(bytes[i / 2] as int % 16)
            },
    )
}

/// The value of one hex digit byte, in either case.
pub open spec fn hex_value(b: u8) -> Option<u8> {
    if 48 <= b <= 57 {
        Some((b - 48) as u8)
    } else if 97 <= b <= 102 {
        Some((b - 87) as u8)
    } else if 65 <= b <= 70 {
        Some((b - 55) as u8)
    } else {
        None
    }
}

/// The byte that a two-byte slice denotes when read as an unsigned number in
/// base 16: either two hex digits, or a `+` sign followed by one digit.
pub open spec fn hex_pair(hi: u8, lo: u8) -> Option<u8> {
    if hi == 43 {
        hex_value(lo)
    } else {
        match (hex_value(hi), hex_value(lo)) {
            (Some(h), Some(l)) => Some((h * 16 + l) as u8),
            _ => None,
        }
    }
}

/// The `k`-th pair of `bytes` denotes a byte.
pub open spec fn pair_ok(bytes: Seq<u8>, k: int) -> bool {
    hex_pair(bytes[2 * k], bytes[2 * k + 1]) is Some
}

/// The bytes that hex text decodes to: `None` when its length is odd or any
/// pair is not a number in base 16.
pub open spec fn spec_from_hex(text: Seq<u8>) -> Option<Seq<u8>> {
    if text.len() % 2 != 0 {
        None
    } else if forall|k: int| 0 <= k < text.len() / 2 ==> #[trigger] pair_ok(text, k) {
        Some(Seq::new(text.len() / 2, |k: int| hex_pair(text[2 * k], text[2 * k + 1])->0))
    } else {
        None
    }
}

fn hex_digit_exec(n: u8) -> (c: char)
    requires
        n < 16,
    ensures
        c == hex_digit(n as int),
{
    if n < 10 {
        (n + 48) as char
    } else {
        (n + 87) as char
    }
}

/// Encodes bytes as lower-case hex, two digits per byte.
pub fn to_hex(bytes: &[u8]) -> (text: String)
    ensures
        text@ == spec_to_hex(bytes@),
{
    let mut text = String::new();
    let mut i: usize = 0;
    while i < bytes.len()
        invariant
            i <= bytes.len(),
            text@ == spec_to_hex(bytes@.take(i as int)),
        decreases bytes.len() - i,
    {
        let b = bytes[i];
        let hi = hex_digit_exec(b / 16);
        let lo = hex_digit_exec(b % 16);
        let ghost before = text@;
        text.push(hi);
        text.push(lo);
        proof {
            assert(bytes@.take(i as int + 1).drop_last() =~= bytes@.take(i as int));
            assert(text@ =~= spec_to_hex(bytes@.take(i as int + 1)));
        }
        i = i + 1;
    }
    assert(bytes@.take(bytes@.len() as int) =~= bytes@);
    text
}

/// `String::push` appends one character.
pub assume_specification[ String::push ](s: &mut String, ch: char)
    ensures
        final(s)@ == old(s)@.push(ch),
;

fn hex_value_exec(b: u8) -> (r: Option<u8>)
    ensures
        r == hex_value(b),
{
    if 48 <= b && b <= 57 {
        Some(b - 48)
    } else if 97 <= b && b <= 102 {
        Some(b - 87)
    } else if 65 <= b && b <= 70 {
        Some(b - 55)
    } else {
        None
    }
}

fn hex_pair_exec(hi: u8, lo: u8) -> (r: Option<u8>)
    ensures
        r == hex_pair(hi, lo),
{
    if hi == 43 {
        hex_value_exec(lo)
    } else {
        match (hex_value_exec(hi), hex_value_exec(lo)) {
            (Some(h), Some(l)) => Some(h * 16 + l),
            _ => None,
        }
    }
}

/// Decodes hex text (either case) into bytes, reading its UTF-8 bytes in
/// pairs; `None` when the text has an odd number of bytes or holds a pair
/// that is not a number in base 16 (a pair holding part of a non-ASCII
/// character is not one).
pub fn from_hex(text: &str) -> (r: Option<Vec<u8>>)
    ensures
        match r {
            Some(v) => spec_from_hex(text.spec_bytes()) == Some(v@),
            None => spec_from_hex(text.spec_bytes()) is None,
        },
{
    let bytes = text.as_bytes();
    if bytes.len() % 2 != 0 {
        return None;
    }
    let mut out: Vec<u8> = Vec::new();
    let mut k: usize = 0;
    while k < bytes.len() / 2
        invariant
            bytes@ == text.spec_bytes(),
            bytes@.len() % 2 == 0,
            k <= bytes@.len() / 2,
            out@.len() == k,
            forall|j: int| 0 <= j < k ==> #[trigger] pair_ok(bytes@, j),
            forall|j: int|
                0 <= j < k ==> out@[j] == hex_pair(bytes@[2 * j], bytes@[2 * j + 1])->0,
        decreases bytes@.len() / 2 - k,
    {
        match hex_pair_exec(bytes[2 * k], bytes[2 * k + 1]) {
            Some(v) => out.push(v),
            None => {
                assert(!pair_ok(bytes@, k as int));
                return None;
            },
        }
        k = k + 1;
    }
    assert(out@ =~= Seq::new(
        bytes@.len() / 2,
        |j: int| hex_pair(bytes@[2 * j], bytes@[2 * j + 1])->0,
    ));
    Some(out)
}

/// Hex text is ASCII, so its UTF-8 bytes are its characters.
pub open spec fn ascii_bytes(cs: Seq<char>) -> Seq<u8> {
    Seq::new(cs.len(), |i: int| (cs[i] as u32) as u8)
}

proof fn lemma_encode_ascii(cs: Seq<char>)
    requires
        forall|i: int| 0 <= i < cs.len() ==> (cs[i] as u32) < 128,
    ensures
        encode_utf8(cs) == ascii_bytes(cs),
    decreases cs.len(),
{
    if cs.len() > 0 {
        lemma_encode_ascii(cs.drop_first());
        let v = cs[0] as u32;
        assert(v < 128 ==> ((v & 0x7F) as u8) == (v as u8)) by (bit_vector);
        assert(encode_scalar(v) =~= seq![v as u8]);
        assert(ascii_bytes(cs) =~= seq![v as u8] + ascii_bytes(cs.drop_first()));
        assert(encode_utf8(cs) =~= ascii_bytes(cs));
    } else {
        assert(encode_utf8(cs) =~= ascii_bytes(cs));
    }
}

/// Hex text is two characters per byte, each a digit or a lower-case letter
/// `a` to `f`, the first standing for the high nibble; text of odd length
/// decodes to nothing, and upper-case digits decode as lower-case ones do.
pub proof fn lemma_hex_text_shape(bytes: Seq<u8>, text: Seq<u8>, k: int)
    requires
        0 <= k < bytes.len(),
    ensures
        spec_to_hex(bytes).len() == 2 * bytes.len(),
        forall|i: int|
            0 <= i < spec_to_hex(bytes).len() ==> ('0' <= #[trigger] spec_to_hex(bytes)[i] <= '9'
                || 'a' <= spec_to_hex(bytes)[i] <= 'f'),
        hex_value(spec_to_hex(bytes)[2 * k] as u8) == Some((bytes[k] / 16) as u8),
        hex_value(spec_to_hex(bytes)[2 * k + 1] as u8) == Some((bytes[k] % 16) as u8),
        text.len() % 2 == 1 ==> spec_from_hex(text) is None,
        forall|d: u8| 65 <= d <= 70 ==> #[trigger] hex_value(d) == hex_value((d + 32) as u8),
{
    assert forall|i: int| 0 <= i < spec_to_hex(bytes).len() implies ('0' <= #[trigger] spec_to_hex(
        bytes,
    )[i] <= '9' || 'a' <= spec_to_hex(bytes)[i] <= 'f') by {
        assert(0 <= bytes[i / 2] as int / 16 < 16);
        assert(0 <= bytes[i / 2] as int % 16 < 16);
    }
    assert(spec_to_hex(bytes)[2 * k] == hex_digit(bytes[k] as int / 16));
    assert(spec_to_hex(bytes)[2 * k + 1] == hex_digit(bytes[k] as int % 16));
}

/// Decoding the hex text of any byte string gives that byte string back.
pub proof fn lemma_hex_round_trip(bytes: Seq<u8>)
    ensures
        spec_from_hex(encode_utf8(spec_to_hex(bytes))) == Some(bytes),
{
    let cs = spec_to_hex(bytes);
    assert forall|i: int| 0 <= i < cs.len() implies (cs[i] as u32) < 128 by {
        assert(0 <= bytes[i / 2] as int / 16 < 16);
        assert(0 <= bytes[i / 2] as int % 16 < 16);
    }
    lemma_encode_ascii(cs);
    let text = encode_utf8(cs);
    assert forall|k: int| 0 <= k < text.len() / 2 implies #[trigger] pair_ok(text, k)
        && hex_pair(text[2 * k], text[2 * k + 1]) == Some(bytes[k]) by {
        let b = bytes[k];
        assert(text[2 * k] == hex_digit(b as int / 16) as u8);
        assert(text[2 * k + 1] == hex_digit(b as int % 16) as u8);
        assert((b as int / 16) * 16 + b as int % 16 == b);
    }
    assert(spec_from_hex(text)->0 =~= bytes);
}

} // verus!
