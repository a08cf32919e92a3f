//! Bytes as hex pairs, the form a TXT string takes.

use vstd::prelude::*;
use vstd::utf8::{
    char_u32_cast, encode_scalar, encode_utf8, encode_utf8_first_scalar, is_ascii_chars,
    is_ascii_chars_encode_utf8,
};

use crate::error;
use crate::error::{Error, ErrorView};
use crate::text;

verus! {

/// The lower-case hex digit of `n`, which is below sixteen.
pub open spec fn hex_digit(n: u8) -> char {
    if n < 10 {
        (48 + n) as char
    } else {
        (87 + n) as char
    }
}

/// `bytes` as lower-case hex pairs, the high digit of each byte first.
pub open spec fn hex_text(bytes: Seq<u8>) -> Seq<char> {
    Seq::new(
        2 * bytes.len(),
        |i: int|
            if i % 2 == 0 {
                hex_digit(bytes[i / 2] / 16)
            } else {
                hex_digit(bytes[i / 2] % 16)
            },
    )
}

/// The number that the character `b`, a hex digit of either case, stands for.
pub open spec fn nibble(b: u8) -> Option<u8> {
    if 48 <= b <= 57 {
        Some((b - 48) as u8)
    } else if 65 <= b <= 70 {
        Some((b - 55) as u8)
    } else if 97 <= b <= 102 {
        Some((b - 87) as u8)
    } else {
        None
    }
}

/// The byte that two hex digits spell.
pub open spec fn pair(high: u8, low: u8) -> Option<u8> {
    match (nibble(high), nibble(low)) {
        (Some(h), Some(l)) => Some((16 * h + l) as u8),
        _ => None,
    }
}

/// Whether each two of `ascii` spell a byte.
pub open spec fn pairs_up(ascii: Seq<u8>) -> bool {
    forall|i: int|
        0 <= i < ascii.len() / 2 ==> (#[trigger] pair(ascii[2 * i], ascii[2 * i + 1])) is Some
}

/// The bytes that each two of `ascii` spell.
pub open spec fn paired(ascii: Seq<u8>) -> Seq<u8> {
    Seq::new(ascii.len() / 2, |i: int| pair(ascii[2 * i], ascii[2 * i + 1])->0)
}

/// The bytes that `digits` spell, or what they are refused for.
pub open spec fn unhexed(digits: Seq<char>) -> Result<Seq<u8>, ErrorView> {
    let ascii = encode_utf8(digits);
    if ascii.len() % 2 != 0 {
        Err(ErrorView::OddHex(digits))
    } else if pairs_up(ascii) {
        Ok(paired(ascii))
    } else {
        Err(ErrorView::NotHex(digits))
    }
}

/// The lower-case hex digit of `n`.
fn digit_of(n: u8) -> (c: char)
    requires
        n < 16,
    ensures
        c == hex_digit(n),
{
    if n < 10 {
        (48 + n) as char
    } else {
        (87 + n) as char
    }
}

/// `bytes` as lower-case hex pairs, the form a TXT string takes.
pub fn hex(bytes: &[u8]) -> (out: String)
    ensures
        out@ == hex_text(bytes@),
{
    let mut out = String::new();
    for at in 0..bytes.len()
        invariant
            out@ == hex_text(bytes@.take(at as int)),
    {
        let byte = bytes[at];
        out.push(digit_of(byte / 16));
        out.push(digit_of(byte % 16));
        assert(out@ =~= hex_text(bytes@.take(at + 1)));
    }
    assert(bytes@.take(bytes.len() as int) =~= bytes@);
    out
}

/// The number that the character `b`, a hex digit of either case, stands for.
fn nibble_of(b: u8) -> (r: Option<u8>)
    ensures
        r == nibble(b),
{
    if 48 <= b && b <= 57 {
        Some(b - 48)
    } else if 65 <= b && b <= 70 {
        Some(b - 55)
    } else if 97 <= b && b <= 102 {
        Some(b - 87)
    } else {
        None
    }
}

/// The byte that two hex digits spell.
fn pair_of(high: u8, low: u8) -> (r: Option<u8>)
    ensures
        r == pair(high, low),
{
    match (nibble_of(high), nibble_of(low)) {
        (Some(h), Some(l)) => Some(16 * h + l),
        _ => None,
    }
}

/// The bytes `digits` spell, refused where they do not.
pub fn unhex(digits: &str) -> (r: Result<Vec<u8>, Error>)
    ensures
        error::outcome(r) == unhexed(digits@),
{
    let ascii = digits.as_bytes();
    if ascii.len() % 2 != 0 {
        return Err(Error::OddHex(digits.to_owned()));
    }
    let mut out: Vec<u8> = Vec::new();
    let count: usize = ascii.len() / 2;
    for at in 0..count
        invariant
            2 * count == ascii.len(),
            ascii@ == encode_utf8(digits@),
            forall|i: int|
                0 <= i < at ==> (#[trigger] pair(ascii@[2 * i], ascii@[2 * i + 1])) is Some,
            out@ == paired(ascii@).take(at as int),
    {
        match pair_of(ascii[2 * at], ascii[2 * at + 1]) {
            Some(byte) => {
                out.push(byte);
                assert(out@ =~= paired(ascii@).take(at + 1));
            },
            None => {
                assert(pair(ascii@[2 * at as int], ascii@[2 * at + 1]) is None);
                return Err(Error::NotHex(digits.to_owned()));
            },
        }
    }
    assert(paired(ascii@).take(count as int) =~= paired(ascii@));
    Ok(out)
}

/// Hex reads back: what [`hex`] writes of any bytes, [`unhex`] reads as those
/// bytes.
pub proof fn law_hex_reads_back(bytes: Seq<u8>)
    ensures
        unhexed(hex_text(bytes)) == Ok::<Seq<u8>, ErrorView>(bytes),
{
    let text = hex_text(bytes);
    let ascii = encode_utf8(text);
    assert(is_ascii_chars(text));
    is_ascii_chars_encode_utf8(text);
    assert forall|i: int| 0 <= i < bytes.len() implies pair(ascii[2 * i], ascii[2 * i + 1]) == Some(
        bytes[i],
    ) by {
        assert(ascii[2 * i] == text[2 * i] as u8);
        assert(ascii[2 * i + 1] == text[2 * i + 1] as u8);
    }
    assert(paired(ascii) =~= bytes);
}

/// Hex goes byte by byte: the hex of two runs of bytes is that of the one and
/// then of the other, and the hex of one byte is the digit of its sixteens
/// and the digit of its ones, of ten digits and six lower-case letters.
pub proof fn law_hex_goes_byte_by_byte(a: Seq<u8>, b: Seq<u8>, byte: u8)
    ensures
        hex_text(a + b) == hex_text(a) + hex_text(b),
        hex_text(seq![byte]) == seq![
            "0123456789abcdef"@[(byte / 16) as int],
            "0123456789abcdef"@[(byte % 16) as int],
        ],
{
    reveal_strlit("0123456789abcdef");
    let both = hex_text(a) + hex_text(b);
    assert forall|i: int| 0 <= i < both.len() implies hex_text(a + b)[i] == both[i] by {
        if i < 2 * a.len() {
            assert((a + b)[i / 2] == a[i / 2]);
        } else {
            let k = i - 2 * a.len();
            assert(i / 2 == a.len() + k / 2);
            assert((a + b)[i / 2] == b[k / 2]);
        }
    }
    assert(hex_text(a + b) =~= both);
    let n = byte / 16;
    let m = byte % 16;
    assert(hex_text(seq![byte]) =~= seq![hex_digit(n), hex_digit(m)]);
    assert(hex_digit(n) == "0123456789abcdef"@[n as int]);
    assert(hex_digit(m) == "0123456789abcdef"@[m as int]);
}

/// A character that stands for a number as a hex digit is, in lower case, the
/// digit of that number.
proof fn lemma_nibble(c: char, n: u8)
    requires
        (c as int) < 128,
    ensures
        n < 16 ==> (nibble(c as u8) == Some(n) <==> text::lower(c) == hex_digit(n)),
        nibble(c as u8) == Some(n) ==> n < 16,
{
}

/// Text whose UTF-8 is ASCII is ASCII.
proof fn lemma_ascii_text(s: Seq<char>)
    requires
        forall|i: int| 0 <= i < encode_utf8(s).len() ==> #[trigger] encode_utf8(s)[i] < 128,
    ensures
        is_ascii_chars(s),
    decreases s.len(),
{
    if s.len() > 0 {
        let rest = s.drop_first();
        let first = encode_scalar(s[0] as u32);
        let bytes = encode_utf8(s);
        encode_utf8_first_scalar(s);
        assert(bytes[0] < 128);
        assert(first.len() == 1);
        assert(bytes =~= first + encode_utf8(rest));
        assert forall|i: int| 0 <= i < encode_utf8(rest).len() implies #[trigger] encode_utf8(
            rest,
        )[i] < 128 by {
            assert(bytes[i + 1] == encode_utf8(rest)[i]);
        }
        lemma_ascii_text(rest);
        assert forall|i: int| 0 <= i < s.len() implies '\0' <= #[trigger] s[i] <= '\u{7f}' by {
            if i > 0 {
                assert(s[i] == rest[i - 1]);
            } else {
                char_u32_cast(s[0], s[0] as u32);
            }
        }
    }
}

/// Hex is read just where it is written, whatever the case of its letters:
/// digits spell bytes where they are, in lower case, the hex of those bytes.
/// What is not is refused, as odd where its UTF-8 is, else as no hex.
pub proof fn law_hex_is_read_just_where_written(digits: Seq<char>, bytes: Seq<u8>)
    ensures
        unhexed(digits) == Ok::<Seq<u8>, ErrorView>(bytes) <==> text::lowered(digits) == hex_text(
            bytes,
        ),
        unhexed(digits) is Err ==> unhexed(digits) == Err::<Seq<u8>, ErrorView>(
            if encode_utf8(digits).len() % 2 != 0 {
                ErrorView::OddHex(digits)
            } else {
                ErrorView::NotHex(digits)
            },
        ),
{
    let ascii = encode_utf8(digits);
    if text::lowered(digits) == hex_text(bytes) {
        assert(digits.len() == text::lowered(digits).len());
        assert forall|i: int| 0 <= i < digits.len() implies '\0' <= #[trigger] digits[i]
            <= '\u{7f}' by {
            assert(text::lowered(digits)[i] == text::lower(digits[i]));
            assert(hex_text(bytes)[i] as int <= 102);
        }
        assert(is_ascii_chars(digits));
        is_ascii_chars_encode_utf8(digits);
        assert forall|i: int| 0 <= i < bytes.len() implies #[trigger] pair(
            ascii[2 * i],
            ascii[2 * i + 1],
        ) == Some(bytes[i]) by {
            lemma_nibble(digits[2 * i], bytes[i] / 16);
            lemma_nibble(digits[2 * i + 1], bytes[i] % 16);
            assert(text::lowered(digits)[2 * i] == hex_text(bytes)[2 * i]);
            assert(text::lowered(digits)[2 * i + 1] == hex_text(bytes)[2 * i + 1]);
        }
        assert(paired(ascii) =~= bytes);
    }
    if unhexed(digits) == Ok::<Seq<u8>, ErrorView>(bytes) {
        assert forall|i: int| 0 <= i < ascii.len() implies nibble(#[trigger] ascii[i]) is Some by {
            let k = i / 2;
            assert(pair(ascii[2 * k], ascii[2 * k + 1]) is Some);
            assert(i == 2 * k || i == 2 * k + 1);
        }
        lemma_ascii_text(digits);
        is_ascii_chars_encode_utf8(digits);
        let text = hex_text(bytes);
        assert forall|i: int| 0 <= i < text.len() implies text::lowered(digits)[i] == text[i] by {
            let k = i / 2;
            let (h, l) = (ascii[2 * k], ascii[2 * k + 1]);
            assert(pair(h, l) == Some(bytes[k]));
            lemma_nibble(digits[2 * k], nibble(h)->0);
            lemma_nibble(digits[2 * k + 1], nibble(l)->0);
            assert(bytes[k] == 16 * nibble(h)->0 + nibble(l)->0);
            assert(bytes[k] / 16 == nibble(h)->0 && bytes[k] % 16 == nibble(l)->0);
            assert(i == 2 * k || i == 2 * k + 1);
        }
        assert(text::lowered(digits) =~= text);
    }
}

} // verus!
