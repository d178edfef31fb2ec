use vstd::prelude::*;
use vstd::utf8::{decode_utf8, encode_utf8, is_ascii_chars, valid_utf8};

verus! {

/// Error that `base64` reports for text that is not a base64 encoding.
#[verifier::external_type_specification]
#[verifier::external_body]
pub struct ExDecodeError(base64::DecodeError);

/// The character of the standard base64 alphabet for the digit `v`, from 0
/// to 63: `A`-`Z`, `a`-`z`, `0`-`9`, `+` and `/`.
pub open spec fn base64_digit(v: int) -> char {
    if v < 26 {
        (65 + v) as char
    } else if v < 52 {
        (71 + v) as char
    } else if v < 62 {
        (v - 4) as char
    } else if v == 62 {
        '+'
    } else {
        '/'
    }
}

/// The padded, standard-alphabet base64 encoding of `data`: each group of
/// three bytes, read as 24 bits, gives four digits of six bits; a last group
/// of one or two bytes is filled with zero bits and its missing digits are
/// written `=`.
pub open spec fn base64_encoding(data: Seq<u8>) -> Seq<char>
    decreases data.len(),
{
    if data.len() == 0 {
        Seq::empty()
    } else {
        let a = data[0] as int;
        let b = if data.len() > 1 { data[1] as int } else { 0 };
        let c = if data.len() > 2 { data[2] as int } else { 0 };
        let head = seq![
            base64_digit(a / 4),
            base64_digit((a % 4) * 16 + b / 16),
            if data.len() > 1 { base64_digit((b % 16) * 4 + c / 64) } else { '=' },
            if data.len() > 2 { base64_digit(c % 64) } else { '=' },
        ];
        if data.len() > 3 {
            head + base64_encoding(data.skip(3))
        } else {
            head
        }
    }
}

/// The bytes whose encoding is `text`, or `None` when `text` is no
/// padded, standard-alphabet base64 encoding.
pub open spec fn base64_decoding(text: Seq<char>) -> Option<Seq<u8>> {
    if exists|data: Seq<u8>| base64_encoding(data) == text {
        Some(choose|data: Seq<u8>| base64_encoding(data) == text)
    } else {
        None
    }
}

proof fn lemma_digit(v: int, w: int)
    requires
        0 <= v < 64,
        0 <= w < 64,
    ensures
        base64_digit(v) == base64_digit(w) ==> v == w,
        base64_digit(v) != '=',
        '\0' <= base64_digit(v) <= '\u{7f}',
{
}

/// Encodings are made of ASCII characters, four for each group of up to three bytes.
pub proof fn lemma_encoding_shape(data: Seq<u8>)
    ensures
        is_ascii_chars(base64_encoding(data)),
        base64_encoding(data).len() == 4 * ((data.len() + 2) / 3),
    decreases data.len(),
{
    if data.len() > 0 {
        let a = data[0] as int;
        let b = if data.len() > 1 { data[1] as int } else { 0 };
        let c = if data.len() > 2 { data[2] as int } else { 0 };
        lemma_digit(a / 4, 0);
        lemma_digit((a % 4) * 16 + b / 16, 0);
        lemma_digit((b % 16) * 4 + c / 64, 0);
        lemma_digit(c % 64, 0);
        let e = base64_encoding(data);
        if data.len() > 3 {
            lemma_encoding_shape(data.skip(3));
            let r = base64_encoding(data.skip(3));
            assert forall|i: int| 0 <= i < e.len() implies '\0' <= #[trigger] e[i] <= '\u{7f}' by {
                if i >= 4 {
                    assert(e[i] == r[i - 4]);
                }
            }
        }
    }
}


/// Bytes are given back by the digits that encode them.
proof fn lemma_group_digits(a1: int, b1: int, c1: int, a2: int, b2: int, c2: int)
    requires
        0 <= a1 < 256, 0 <= b1 < 256, 0 <= c1 < 256,
        0 <= a2 < 256, 0 <= b2 < 256, 0 <= c2 < 256,
        a1 / 4 == a2 / 4,
        (a1 % 4) * 16 + b1 / 16 == (a2 % 4) * 16 + b2 / 16,
        (b1 % 16) * 4 + c1 / 64 == (b2 % 16) * 4 + c2 / 64,
        c1 % 64 == c2 % 64,
    ensures
        a1 == a2,
        b1 == b2,
        c1 == c2,
{
}

/// Different bytes have different encodings.
pub proof fn lemma_encoding_injective(d1: Seq<u8>, d2: Seq<u8>)
    requires
        base64_encoding(d1) == base64_encoding(d2),
    ensures
        d1 == d2,
    decreases d1.len(),
{
    lemma_encoding_shape(d1);
    lemma_encoding_shape(d2);
    if d1.len() > 0 && d2.len() > 0 {
        let e = base64_encoding(d1);
        let a1 = d1[0] as int;
        let b1 = if d1.len() > 1 { d1[1] as int } else { 0 };
        let c1 = if d1.len() > 2 { d1[2] as int } else { 0 };
        let a2 = d2[0] as int;
        let b2 = if d2.len() > 1 { d2[1] as int } else { 0 };
        let c2 = if d2.len() > 2 { d2[2] as int } else { 0 };
        lemma_digit(a1 / 4, a2 / 4);
        lemma_digit((a1 % 4) * 16 + b1 / 16, (a2 % 4) * 16 + b2 / 16);
        lemma_digit((b1 % 16) * 4 + c1 / 64, (b2 % 16) * 4 + c2 / 64);
        lemma_digit(c1 % 64, c2 % 64);
        assert(e[0] == base64_digit(a1 / 4) && e[0] == base64_digit(a2 / 4));
        assert(e[1] == base64_digit((a1 % 4) * 16 + b1 / 16));
        assert(e[1] == base64_digit((a2 % 4) * 16 + b2 / 16));
        assert((d1.len() > 1) == (d2.len() > 1)) by {
            assert(d1.len() > 1 ==> e[2] == base64_digit((b1 % 16) * 4 + c1 / 64));
            assert(d2.len() > 1 ==> e[2] == base64_digit((b2 % 16) * 4 + c2 / 64));
        }
        assert((d1.len() > 2) == (d2.len() > 2)) by {
            assert(d1.len() > 2 ==> e[3] == base64_digit(c1 % 64));
            assert(d2.len() > 2 ==> e[3] == base64_digit(c2 % 64));
        }
        if d1.len() > 1 {
            assert(e[2] == base64_digit((b1 % 16) * 4 + c1 / 64));
            assert(e[2] == base64_digit((b2 % 16) * 4 + c2 / 64));
        }
        if d1.len() > 2 {
            assert(e[3] == base64_digit(c1 % 64) && e[3] == base64_digit(c2 % 64));
        }
        lemma_group_digits(a1, b1, c1, a2, b2, c2);
        if d1.len() > 3 && d2.len() > 3 {
            assert(base64_encoding(d1.skip(3)) =~= e.skip(4));
            assert(base64_encoding(d2.skip(3)) =~= e.skip(4));
            lemma_encoding_injective(d1.skip(3), d2.skip(3));
        }
        assert(d1.len() == d2.len()) by {
            if d1.len() > 3 && d2.len() > 3 {
            } else if d1.len() > 3 || d2.len() > 3 {
                lemma_encoding_shape(d1.skip(3));
                lemma_encoding_shape(d2.skip(3));
            }
        }
        assert(d1 =~= d2) by {
            if d1.len() > 3 {
                assert forall|i: int| 3 <= i < d1.len() implies d1[i] == d2[i] by {
                    assert(d1[i] == d1.skip(3)[i - 3]);
                    assert(d2[i] == d2.skip(3)[i - 3]);
                }
            }
        }
    }
}

/// Decoding the encoding of bytes gives them back.
pub proof fn lemma_decoding_encoding(data: Seq<u8>)
    ensures
        base64_decoding(base64_encoding(data)) == Some(data),
{
    let text = base64_encoding(data);
    assert(exists|d: Seq<u8>| base64_encoding(d) == text);
    let d = choose|d: Seq<u8>| base64_encoding(d) == text;
    lemma_encoding_injective(d, data);
}

/// Calls `base64::encode` (standard engine, with padding). Trusted claim: the
/// result is `base64_encoding` of the bytes.
#[verifier::external_body]
#[allow(deprecated)]
pub(crate) fn base64_encode(data: &[u8]) -> (text: String)
    ensures
        text@ == base64_encoding(data@),
{
    base64::encode(data)
}

/// Calls `base64::decode` (standard engine, which requires canonical padding
/// and rejects trailing bits). Trusted claim: it succeeds exactly on the texts
/// that are `base64_encoding` of some bytes, and returns those bytes.
#[verifier::external_body]
#[allow(deprecated)]
pub(crate) fn base64_decode(text: &str) -> (bytes: Result<Vec<u8>, base64::DecodeError>)
    ensures
        match bytes {
            Ok(b) => base64_decoding(text@) == Some(b@),
            Err(_) => base64_decoding(text@) is None,
        },
{
    base64::decode(text)
}

/// Calls `steganography::util::str_to_bytes`, which returns `msg.as_bytes()`.
/// Trusted claim: the result is the UTF-8 encoding of the text.
#[verifier::external_body]
pub(crate) fn text_bytes(msg: &String) -> (bytes: &[u8])
    ensures
        bytes@ == encode_utf8(msg@),
{
    steganography::util::str_to_bytes(msg)
}

/// Calls `steganography::util::bytes_to_str`, which unwraps
/// `std::str::from_utf8` and so panics unless the bytes are UTF-8. Trusted
/// claim: the result is the text those bytes encode.
#[verifier::external_body]
pub(crate) fn bytes_text(bytes: &[u8]) -> (text: &str)
    requires
        valid_utf8(bytes@),
    ensures
        text@ == decode_utf8(bytes@),
{
    steganography::util::bytes_to_str(bytes)
}

/// Calls `std::str::from_utf8`. Trusted claim: it succeeds exactly on UTF-8
/// byte sequences.
#[verifier::external_body]
pub(crate) fn is_utf8(bytes: &[u8]) -> (b: bool)
    ensures
        b == valid_utf8(bytes@),
{
    std::str::from_utf8(bytes).is_ok()
}

} // verus!
