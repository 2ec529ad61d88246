//! Bytes as hexadecimal text.
use crate::text::chars_of;
use vstd::prelude::*;

verus! {

/// The character of the hexadecimal digit `n`.
pub open spec fn hex_digit(n: int) -> char {
    if n < 10 {
        (48 + n) as char
    } else {
        (87 + n) as char
    }
}

/// The hexadecimal text of `data`: two lower case digits for each byte.
pub open spec fn hex_text(data: Seq<u8>) -> Seq<char> {
    Seq::new(
        2 * data.len(),
        |i: int|
            hex_digit(
                if i % 2 == 0 {
                    data[i / 2] as int / 16
                } else {
                    data[i / 2] as int % 16
                },
            ),
    )
}

/// The value of a hexadecimal digit, in either case.
pub open spec fn hex_value(c: char) -> Option<int> {
    if '0' <= c <= '9' {
        Some(c as int - 48)
    } else if 'a' <= c <= 'f' {
        Some(c as int - 87)
    } else if 'A' <= c <= 'F' {
        Some(c as int - 55)
    } else {
        None
    }
}

/// The byte that two characters stand for: two digits, or one digit behind a plus sign.
pub open spec fn pair_value(high: char, low: char) -> Option<u8> {
    match (hex_value(high), hex_value(low)) {
        (Some(h), Some(l)) => Some((16 * h + l) as u8),
        (None, Some(l)) => if high == '+' {
            Some(l as u8)
        } else {
            None
        },
        _ => None,
    }
}

/// The bytes that a hexadecimal text stands for, if it does. A text that starts with a character
/// which fills a pair on its own does not.
pub open spec fn decoded(s: Seq<char>) -> Option<Seq<u8>>
    decreases s.len(),
{
    if s.len() == 0 {
        Some(Seq::empty())
    } else if s.len() == 1 || s[0] as u32 >= 0x80 {
        None
    } else {
        match (pair_value(s[0], s[1]), decoded(s.skip(2))) {
            (Some(byte), Some(rest)) => Some(seq![byte] + rest),
            _ => None,
        }
    }
}

/// Up to the first pair that stands for no byte, the text is made of pairs that can be cut out of
/// its UTF-8 encoding: two ASCII characters, or one character of two bytes.
pub open spec fn splits_in_pairs(s: Seq<char>) -> bool
    decreases s.len(),
{
    ||| s.len() == 0
    ||| 0x80 <= (s[0] as u32) < 0x800
    ||| {
        &&& (s[0] as u32) < 0x80
        &&& s.len() >= 2
        &&& (s[1] as u32) < 0x80
        &&& pair_value(s[0], s[1]) is None || splits_in_pairs(s.skip(2))
    }
}

/// Decoding the hexadecimal text of some bytes gives the bytes back.
pub proof fn law_hex_round_trip(data: Seq<u8>)
    ensures
        decoded(hex_text(data)) == Some(data),
        splits_in_pairs(hex_text(data)),
    decreases data.len(),
{
    let s = hex_text(data);
    if data.len() == 0 {
        assert(decoded(s).unwrap() =~= data);
    } else {
        let rest = data.drop_first();
        law_hex_round_trip(rest);
        assert(s.skip(2) =~= hex_text(rest)) by {
            assert forall|i: int| 0 <= i < s.len() - 2 implies s.skip(2)[i] == hex_text(
                rest,
            )[i] by {
                assert((i + 2) / 2 == i / 2 + 1);
                assert((i + 2) % 2 == i % 2);
            }
        }
        let h = data[0] as int / 16;
        let l = data[0] as int % 16;
        assert(s[0] == hex_digit(h));
        assert(s[1] == hex_digit(l));
        assert(hex_value(hex_digit(h)) == Some(h));
        assert(hex_value(hex_digit(l)) == Some(l));
        assert(seq![data[0]] + rest =~= data);
    }
}

/// The characters of hexadecimal text are digits, so none of them needs care.
pub proof fn lemma_hex_text_plain(data: Seq<u8>, i: int)
    requires
        0 <= i < hex_text(data).len(),
    ensures
        hex_value(hex_text(data)[i]) is Some,
{
    let n = if i % 2 == 0 {
        data[i / 2] as int / 16
    } else {
        data[i / 2] as int % 16
    };
    assert(hex_value(hex_digit(n)) == Some(n));
}

/// The hexadecimal digit `n`.
pub fn digit(n: u8) -> (r: char)
    requires
        n < 16,
    ensures
        r == hex_digit(n as int),
{
    if n < 10 {
        (48 + n) as char
    } else {
        (87 + n) as char
    }
}

/// Writes bytes as hexadecimal text.
pub fn encode_hex(data: &Vec<u8>) -> (r: String)
    ensures
        r@ == hex_text(data@),
{
    let mut r: String = String::new();
    let mut i: usize = 0;
    assert(hex_text(data@).take(0) =~= Seq::<char>::empty());
    while i < data.len()
        invariant
            i <= data@.len(),
            r@ == hex_text(data@).take(2 * i),
        decreases data@.len() - i,
    {
        r.push(digit(data[i] / 16));
        r.push(digit(data[i] % 16));
        i = i + 1;
        assert(r@ =~= hex_text(data@).take(2 * i));
    }
    assert(hex_text(data@).take(2 * i) =~= hex_text(data@));
    r
}

/// The value of a hexadecimal digit.
pub fn value_of(c: char) -> (r: Option<u8>)
    ensures
        match r {
            Some(v) => v < 16 && hex_value(c) == Some(v as int),
            None => hex_value(c) is None,
        },
{
    let u: u32 = c as u32;
    if 48 <= u && u <= 57 {
        Some((u - 48) as u8)
    } else if 97 <= u && u <= 102 {
        Some((u - 87) as u8)
    } else if 65 <= u && u <= 70 {
        Some((u - 55) as u8)
    } else {
        None
    }
}

/// The byte that two characters stand for.
fn byte_of(high: char, low: char) -> (r: Option<u8>)
    ensures
        r == pair_value(high, low),
{
    match value_of(low) {
        None => None,
        Some(l) => match value_of(high) {
            Some(h) => Some(16 * h + l),
            None => if high == '+' {
                Some(l)
            } else {
                None
            },
        },
    }
}

/// A text stands for no bytes.
#[derive(Debug, Clone, Copy, PartialEq, Eq, Structural)]
pub struct InvalidHex;

/// `first` followed by `rest`, if there is a rest.
spec fn continued(first: Seq<u8>, rest: Option<Seq<u8>>) -> Option<Seq<u8>> {
    match rest {
        Some(bytes) => Some(first + bytes),
        None => None,
    }
}

/// Reads bytes from hexadecimal text.
pub fn decode_hex(s: &str) -> (r: Result<Vec<u8>, InvalidHex>)
    requires
        splits_in_pairs(s@),
    ensures
        match r {
            Ok(bytes) => decoded(s@) == Some(bytes@),
            Err(_) => decoded(s@) is None,
        },
{
    let text: Vec<char> = chars_of(s);
    let n: usize = text.len();
    let mut bytes: Vec<u8> = Vec::new();
    let mut i: usize = 0;
    proof {
        assert(text@.skip(0) =~= text@);
        assert(continued(bytes@, decoded(s@)) =~= decoded(s@)) by {
            if let Some(all) = decoded(s@) {
                assert(bytes@ + all =~= all);
            }
        }
    }
    while i < n
        invariant
            n == text@.len(),
            i <= n,
            text@ == s@,
            splits_in_pairs(text@.skip(i as int)),
            decoded(s@) == continued(bytes@, decoded(text@.skip(i as int))),
        decreases n - i,
    {
        let ghost rest = text@.skip(i as int);
        assert(rest[0] == text@[i as int]);
        if text[i] as u32 >= 0x80 {
            return Err(InvalidHex);
        }
        assert(rest.len() >= 2);
        assert(rest[1] == text@[i + 1]);
        match byte_of(text[i], text[i + 1]) {
            None => {
                return Err(InvalidHex);
            },
            Some(byte) => {
                proof {
                    assert(rest.skip(2) =~= text@.skip(i + 2));
                    let tail = decoded(text@.skip(i + 2));
                    assert(continued(bytes@, continued(seq![byte], tail)) =~= continued(
                        bytes@.push(byte),
                        tail,
                    )) by {
                        if let Some(t) = tail {
                            assert(bytes@ + (seq![byte] + t) =~= bytes@.push(byte) + t);
                        }
                    }
                }
                bytes.push(byte);
                i = i + 2;
            },
        }
    }
    proof {
        assert(text@.skip(i as int) =~= Seq::<char>::empty());
        assert(bytes@ + Seq::<u8>::empty() =~= bytes@);
    }
    Ok(bytes)
}

/// Tells whether hexadecimal text can be cut into pairs as far as it has to be read.
pub fn can_be_split(s: &str) -> (r: bool)
    ensures
        r == splits_in_pairs(s@),
{
    let text: Vec<char> = chars_of(s);
    let n: usize = text.len();
    let mut i: usize = 0;
    assert(text@.skip(0) =~= text@);
    while i < n
        invariant
            n == text@.len(),
            i <= n,
            text@ == s@,
            splits_in_pairs(s@) == splits_in_pairs(text@.skip(i as int)),
        decreases n - i,
    {
        let ghost rest = text@.skip(i as int);
        let c: u32 = text[i] as u32;
        assert(rest[0] == text@[i as int]);
        if c >= 0x80 {
            return c < 0x800;
        }
        if n - i < 2 {
            return false;
        }
        assert(rest[1] == text@[i + 1]);
        if text[i + 1] as u32 >= 0x80 {
            return false;
        }
        if byte_of(text[i], text[i + 1]).is_none() {
            return true;
        }
        assert(rest.skip(2) =~= text@.skip(i + 2));
        i = i + 2;
    }
    true
}

} // verus!
