//! Validated, percent-decoded IIIF resource identifiers.
use vstd::prelude::*;
use vstd::utf8::*;

use crate::error::IiifError;
use crate::text::{contains_chars, contains_seq, str_chars, string_from_utf8};

verus! {

/// Whether a byte is an ASCII hexadecimal digit (either case).
pub open spec fn is_hex_byte(b: u8) -> bool {
    (48 <= b <= 57) || (65 <= b <= 70) || (97 <= b <= 102)
}

/// The value of an ASCII hexadecimal digit.
pub open spec fn hex_byte_value(b: u8) -> u8 {
    if 48 <= b <= 57 {
        (b - 48) as u8
    } else if 65 <= b <= 70 {
        (b - 55) as u8
    } else {
        (b - 87) as u8
    }
}

/// The byte that the two characters after a `%` stand for, if both are
/// hexadecimal digits.
pub open spec fn escape_value(hi: u8, lo: u8) -> Option<u8> {
    if is_hex_byte(hi) && is_hex_byte(lo) {
        Some((hex_byte_value(hi) * 16 + hex_byte_value(lo)) as u8)
    } else {
        None
    }
}

/// Strict percent-decoding: every `%` must be followed by two characters
/// forming a byte value; other bytes are kept as they are.
pub open spec fn pct_decode(b: Seq<u8>) -> Option<Seq<u8>>
    decreases b.len(),
{
    if b.len() == 0 {
        Some(Seq::empty())
    } else if b[0] == 37u8 {
        if b.len() < 3 {
            None
        } else {
            match escape_value(b[1], b[2]) {
                Some(v) => match pct_decode(b.skip(3)) {
                    Some(rest) => Some(seq![v] + rest),
                    None => None,
                },
                None => None,
            }
        }
    } else {
        match pct_decode(b.skip(1)) {
            Some(rest) => Some(seq![b[0]] + rest),
            None => None,
        }
    }
}

/// `o` with `p` put in front of its value.
pub open spec fn prepend(p: Seq<u8>, o: Option<Seq<u8>>) -> Option<Seq<u8>> {
    match o {
        Some(r) => Some(p + r),
        None => None,
    }
}

/// Why strict percent-decoding fails, at the first `%` that fails: one
/// with fewer than two characters after it is incomplete, one whose two
/// characters are no byte value is invalid.
pub open spec fn pct_error(b: Seq<u8>) -> Seq<char>
    decreases b.len(),
{
    if b.len() == 0 {
        Seq::empty()
    } else if b[0] == 37u8 {
        if b.len() < 3 {
            "Incomplete percent-encoding"@
        } else if escape_value(b[1], b[2]) is None {
            "Invalid percent-encoding"@
        } else {
            pct_error(b.skip(3))
        }
    } else {
        pct_error(b.skip(1))
    }
}

/// The text a raw segment percent-decodes to, or why it does not.
pub open spec fn pct_decoded_text(raw: Seq<char>) -> Result<Seq<char>, Seq<char>> {
    match pct_decode(encode_utf8(raw)) {
        None => Err(pct_error(encode_utf8(raw))),
        Some(bytes) => if valid_utf8(bytes) {
            Ok(decode_utf8(bytes))
        } else {
            Err("Identifier is not valid UTF-8"@)
        },
    }
}

/// Why a raw request segment is refused as an identifier, if it is.
pub open spec fn identifier_error(raw: Seq<char>) -> Option<Seq<char>> {
    if raw.len() == 0 {
        Some("Image identifier must not be empty"@)
    } else {
        match pct_decoded_text(raw) {
            Err(m) => Some(m),
            Ok(id) => if contains_seq(id, ".."@) {
                Some("Image identifier must not contain path traversal sequences"@)
            } else if id.len() > 0 && (id[0] == '/' || id[0] == '\\') {
                Some("Image identifier must not start with a path separator"@)
            } else {
                None
            },
        }
    }
}

/// The identifier that a raw request segment stands for, if it is accepted:
/// non-empty, percent-decodable, valid UTF-8 once decoded, free of `..`, and
/// not starting with `/` or `\`.
pub open spec fn decoded_identifier(raw: Seq<char>) -> Option<Seq<char>> {
    if raw.len() == 0 {
        None
    } else {
        match pct_decode(encode_utf8(raw)) {
            Some(bytes) => if !valid_utf8(bytes) {
                None
            } else {
                let id = decode_utf8(bytes);
                if contains_seq(id, ".."@) || (id.len() > 0 && (id[0] == '/' || id[0] == '\\')) {
                    None
                } else {
                    Some(id)
                }
            },
            None => None,
        }
    }
}

fn hex_value_exec(b: u8) -> (v: u8)
    requires
        is_hex_byte(b),
    ensures
        v == hex_byte_value(b),
{
    if b <= 57 {
        b - 48
    } else if b <= 70 {
        b - 55
    } else {
        b - 87
    }
}

/// Strictly percent-decodes bytes; an incomplete or malformed escape is a
/// `BadRequest` saying which.
fn percent_decode_bytes(input: &[u8]) -> (r: Result<Vec<u8>, IiifError>)
    ensures
        match pct_decode(input@) {
            Some(v) => r matches Ok(x) && x@ == v,
            None => r matches Err(e) && e == IiifError::BadRequest(e->BadRequest_0)
                && e->BadRequest_0@ == pct_error(input@),
        },
{
    let mut out: Vec<u8> = Vec::new();
    let mut i: usize = 0;
    assert(input@.skip(0) == input@);
    while i < input.len()
        invariant
            i <= input@.len(),
            pct_decode(input@) == prepend(out@, pct_decode(input@.skip(i as int))),
            pct_error(input@) == pct_error(input@.skip(i as int)),
        decreases input@.len() - i,
    {
        let b = input[i];
        let ghost rest = input@.skip(i as int);
        if b == 37u8 {
            if input.len() - i < 3 {
                return Err(IiifError::BadRequest(String::from_str("Incomplete percent-encoding")));
            }
            let hi = input[i + 1];
            let lo = input[i + 2];
            assert(rest[1] == hi && rest[2] == lo);
            let v: u8;
            if is_hex_exec(hi) && is_hex_exec(lo) {
                v = ((hex_value_exec(hi) as u16) * 16 + hex_value_exec(lo) as u16) as u8;
            } else {
                return Err(IiifError::BadRequest(String::from_str("Invalid percent-encoding")));
            }
            assert(rest.skip(3) == input@.skip(i + 3));
            let ghost old_out = out@;
            out.push(v);
            assert(out@ == old_out + seq![v]);
            proof {
                match pct_decode(rest.skip(3)) {
                    Some(t) => {
                        assert(old_out + (seq![v] + t) == out@ + t);
                    },
                    None => {},
                }
            }
            i = i + 3;
        } else {
            assert(rest.skip(1) == input@.skip(i + 1));
            let ghost old_out = out@;
            out.push(b);
            proof {
                match pct_decode(rest.skip(1)) {
                    Some(t) => {
                        assert(old_out + (seq![b] + t) == out@ + t);
                    },
                    None => {},
                }
            }
            i = i + 1;
        }
    }
    assert(input@.skip(i as int) == Seq::<u8>::empty());
    assert(out@ + Seq::<u8>::empty() == out@);
    Ok(out)
}

/// Strictly percent-decodes `input` and reads the bytes as UTF-8; an
/// incomplete or malformed escape, or bytes that are not UTF-8, is a
/// `BadRequest` saying which.
pub fn percent_decode(input: &str) -> (r: Result<String, IiifError>)
    ensures
        match pct_decoded_text(input@) {
            Ok(t) => r matches Ok(s) && s@ == t,
            Err(m) => r matches Err(e) && e == IiifError::BadRequest(e->BadRequest_0)
                && e->BadRequest_0@ == m,
        },
{
    let bytes = match percent_decode_bytes(input.as_bytes()) {
        Ok(b) => b,
        Err(e) => {
            return Err(e);
        },
    };
    match string_from_utf8(bytes) {
        Ok(t) => Ok(t),
        Err(_) => Err(IiifError::BadRequest(String::from_str("Identifier is not valid UTF-8"))),
    }
}

fn is_hex_exec(b: u8) -> (r: bool)
    ensures
        r == is_hex_byte(b),
{
    (48 <= b && b <= 57) || (65 <= b && b <= 70) || (97 <= b && b <= 102)
}

/// A validated, percent-decoded IIIF resource identifier: valid UTF-8 after
/// decoding and free of path traversal sequences.
#[derive(Debug, Clone, PartialEq, Eq, Hash)]
pub struct ImageIdentifier(String);

impl View for ImageIdentifier {
    type V = Seq<char>;

    closed spec fn view(&self) -> Seq<char> {
        self.0@
    }
}

impl ImageIdentifier {
    /// Create a new identifier from a raw, possibly percent-encoded string.
    /// Every rejection is a `BadRequest`.
    pub fn from_encoded(raw: &str) -> (r: Result<Self, IiifError>)
        ensures
            r matches Ok(id) ==> decoded_identifier(raw@) == Some(id@),
            r is Err <==> decoded_identifier(raw@) is None,
            match identifier_error(raw@) {
                Some(m) => r matches Err(e) && e == IiifError::BadRequest(e->BadRequest_0)
                    && e->BadRequest_0@ == m,
                None => r is Ok,
            },
    {
        if raw.is_empty() {
            return Err(IiifError::BadRequest(
                String::from_str("Image identifier must not be empty"),
            ));
        }
        let text = match percent_decode(raw) {
            Ok(t) => t,
            Err(e) => {
                return Err(e);
            },
        };
        let chars = str_chars(text.as_str());
        let dots = str_chars("..");
        proof {
            reveal_strlit("..");
        }
        if contains_chars(&chars, &dots) {
            return Err(IiifError::BadRequest(
                String::from_str("Image identifier must not contain path traversal sequences"),
            ));
        }
        if chars.len() > 0 && (chars[0] == '/' || chars[0] == '\\') {
            return Err(IiifError::BadRequest(
                String::from_str("Image identifier must not start with a path separator"),
            ));
        }
        Ok(ImageIdentifier(text))
    }

    /// The decoded identifier.
    pub fn as_str(&self) -> (r: &str)
        ensures
            r@ == self@,
    {
        self.0.as_str()
    }
}


/// An accepted identifier is safe to use as a path: it holds no `..` and
/// does not start with a path separator.
pub proof fn lemma_identifier_is_safe(raw: Seq<char>)
    requires
        decoded_identifier(raw) is Some,
    ensures
        ({
            let id = decoded_identifier(raw)->Some_0;
            &&& !contains_seq(id, ".."@)
            &&& id.len() > 0 ==> id[0] != '/' && id[0] != '\\'
        }),
{
}

/// Lenient percent-decoding, as `percent_encoding::percent_decode` does it:
/// a `%` followed by two hex digits becomes that byte; any other byte,
/// a stray `%` included, stays as it is.
pub open spec fn lenient_decode(b: Seq<u8>) -> Seq<u8>
    decreases b.len(),
{
    if b.len() == 0 {
        Seq::empty()
    } else if b[0] == 37u8 && b.len() >= 3 && is_hex_byte(b[1]) && is_hex_byte(b[2]) {
        seq![(hex_byte_value(b[1]) * 16 + hex_byte_value(b[2])) as u8] + lenient_decode(b.skip(3))
    } else {
        seq![b[0]] + lenient_decode(b.skip(1))
    }
}

/// Leniently percent-decodes `input`.
pub fn lenient_percent_decode(input: &[u8]) -> (r: Vec<u8>)
    ensures
        r@ == lenient_decode(input@),
{
    let mut out: Vec<u8> = Vec::new();
    let mut i: usize = 0;
    assert(input@.skip(0) == input@);
    while i < input.len()
        invariant
            i <= input@.len(),
            lenient_decode(input@) == out@ + lenient_decode(input@.skip(i as int)),
        decreases input@.len() - i,
    {
        let b = input[i];
        let ghost rest = input@.skip(i as int);
        if b == 37u8 && input.len() - i >= 3 && is_hex_exec(input[i + 1]) && is_hex_exec(input[i + 2]) {
            let v = hex_value_exec(input[i + 1]) * 16 + hex_value_exec(input[i + 2]);
            assert(rest.skip(3) == input@.skip(i + 3));
            out.push(v);
            assert(lenient_decode(input@) == out@ + lenient_decode(input@.skip(i + 3)));
            i = i + 3;
        } else {
            assert(rest.skip(1) == input@.skip(i + 1));
            out.push(b);
            assert(lenient_decode(input@) == out@ + lenient_decode(input@.skip(i + 1)));
            i = i + 1;
        }
    }
    assert(input@.skip(i as int).len() == 0);
    assert(out@ + Seq::<u8>::empty() == out@);
    out
}

} // verus!
