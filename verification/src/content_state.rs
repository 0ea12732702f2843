//! IIIF Content State API 1.0: base64url (RFC 4648 §5, padding stripped)
//! encoding of content-state JSON, and its decoding.
use vstd::prelude::*;
use vstd::utf8::*;

use crate::error::IiifError;
use crate::image_params::is_bad_request;
use crate::text::{
    push_char, starts_with, starts_with_chars, str_chars, str_eq, string_from_utf8, utf8_error_text,
};

verus! {

/// The base64url alphabet character for a 6-bit value.
pub open spec fn b64_char(v: u32) -> u8 {
    if v < 26 {
        (v + 65) as u8
    } else if v < 52 {
        (v - 26 + 97) as u8
    } else if v < 62 {
        (v - 52 + 48) as u8
    } else if v == 62 {
        45u8
    } else {
        95u8
    }
}

/// The 6-bit value of a base64url alphabet character, if it is one.
pub open spec fn b64_value(c: u8) -> Option<u32> {
    if 65 <= c <= 90 {
        Some((c - 65) as u32)
    } else if 97 <= c <= 122 {
        Some((c - 97 + 26) as u32)
    } else if 48 <= c <= 57 {
        Some((c - 48 + 52) as u32)
    } else if c == 45 {
        Some(62u32)
    } else if c == 95 {
        Some(63u32)
    } else {
        None
    }
}

/// The 24-bit group of three bytes.
pub open spec fn triple(b0: u8, b1: u8, b2: u8) -> u32 {
    ((b0 as u32) << 16u32) | ((b1 as u32) << 8u32) | (b2 as u32)
}

/// Encoding of the final group of `n` (1 to 3) bytes, padding stripped.
pub open spec fn encode_group(b0: u8, b1: u8, b2: u8, n: nat) -> Seq<u8> {
    let t = triple(b0, b1, b2);
    let c0 = b64_char((t >> 18u32) & 63u32);
    let c1 = b64_char((t >> 12u32) & 63u32);
    let c2 = b64_char((t >> 6u32) & 63u32);
    let c3 = b64_char(t & 63u32);
    if n == 1 {
        seq![c0, c1]
    } else if n == 2 {
        seq![c0, c1, c2]
    } else {
        seq![c0, c1, c2, c3]
    }
}

/// Base64url encoding (alphabet bytes) of `data`, without padding.
pub open spec fn b64_encode(data: Seq<u8>) -> Seq<u8>
    decreases data.len(),
{
    if data.len() == 0 {
        Seq::empty()
    } else if data.len() == 1 {
        encode_group(data[0], 0, 0, 1)
    } else if data.len() == 2 {
        encode_group(data[0], data[1], 0, 2)
    } else {
        encode_group(data[0], data[1], data[2], 3) + b64_encode(data.skip(3))
    }
}

/// Decoding of one group of `n` (2 to 4) values.
pub open spec fn decode_group(v0: u32, v1: u32, v2: u32, v3: u32, n: nat) -> Seq<u8> {
    let t = (v0 << 18u32) | (v1 << 12u32) | (v2 << 6u32) | v3;
    let b0 = (t >> 16u32) as u8;
    let b1 = ((t >> 8u32) & 255u32) as u8;
    let b2 = (t & 255u32) as u8;
    if n == 2 {
        seq![b0]
    } else if n == 3 {
        seq![b0, b1]
    } else {
        seq![b0, b1, b2]
    }
}

/// The value at `i` of `s`, or 0 past its end.
pub open spec fn value_or_zero(s: Seq<u8>, i: int) -> u32 {
    if 0 <= i < s.len() {
        match b64_value(s[i]) {
            Some(v) => v,
            None => 0,
        }
    } else {
        0
    }
}

/// Whether every byte of `s` is a base64url alphabet character.
pub open spec fn all_b64(s: Seq<u8>) -> bool {
    forall|i: int| 0 <= i < s.len() ==> (#[trigger] b64_value(s[i])) is Some
}

/// Base64url decoding of alphabet bytes (padding already stripped), in groups
/// of four; `None` on a byte outside the alphabet or a final group of one.
pub open spec fn b64_decode(s: Seq<u8>) -> Option<Seq<u8>>
    decreases s.len(),
{
    if s.len() == 0 {
        Some(Seq::empty())
    } else {
        let n: nat = if s.len() >= 4 {
            4
        } else {
            s.len()
        };
        let g = s.take(n as int);
        if !all_b64(g) || n == 1 {
            None
        } else {
            match b64_decode(s.skip(n as int)) {
                Some(rest) => Some(
                    decode_group(
                        value_or_zero(g, 0),
                        value_or_zero(g, 1),
                        value_or_zero(g, 2),
                        value_or_zero(g, 3),
                        n,
                    ) + rest,
                ),
                None => None,
            }
        }
    }
}

/// `s` without its trailing `=` bytes.
pub open spec fn trim_padding(s: Seq<u8>) -> Seq<u8>
    decreases s.len(),
{
    if s.len() > 0 && s.last() == 61u8 {
        trim_padding(s.drop_last())
    } else {
        s
    }
}

/// Characters of an ASCII byte sequence.
pub open spec fn ascii_chars(s: Seq<u8>) -> Seq<char> {
    s.map_values(|b: u8| b as char)
}

/// The content state that an encoded text decodes to, if any: the base64url
/// decoding of its bytes (trailing `=` ignored), read as UTF-8.
pub open spec fn decoded_content_state(encoded: Seq<char>) -> Option<Seq<char>> {
    match b64_decode(trim_padding(encode_utf8(encoded))) {
        Some(bytes) => if valid_utf8(bytes) {
            Some(decode_utf8(bytes))
        } else {
            None
        },
        None => None,
    }
}

fn b64_char_exec(v: u32) -> (c: u8)
    requires
        v < 64,
    ensures
        c == b64_char(v),
{
    if v < 26 {
        (v + 65) as u8
    } else if v < 52 {
        (v - 26 + 97) as u8
    } else if v < 62 {
        (v - 52 + 48) as u8
    } else if v == 62 {
        45u8
    } else {
        95u8
    }
}

fn b64_value_exec(c: u8) -> (r: Option<u32>)
    ensures
        r == b64_value(c),
{
    if 65 <= c && c <= 90 {
        Some((c - 65) as u32)
    } else if 97 <= c && c <= 122 {
        Some((c - 97 + 26) as u32)
    } else if 48 <= c && c <= 57 {
        Some((c - 48 + 52) as u32)
    } else if c == 45 {
        Some(62u32)
    } else if c == 95 {
        Some(63u32)
    } else {
        None
    }
}

proof fn lemma_group_indices(b0: u8, b1: u8, b2: u8)
    ensures
        (triple(b0, b1, b2) >> 18u32) & 63u32 < 64,
        (triple(b0, b1, b2) >> 12u32) & 63u32 < 64,
        (triple(b0, b1, b2) >> 6u32) & 63u32 < 64,
        triple(b0, b1, b2) & 63u32 < 64,
{
    let t = triple(b0, b1, b2);
    assert((t >> 18u32) & 63u32 < 64) by (bit_vector);
    assert((t >> 12u32) & 63u32 < 64) by (bit_vector);
    assert((t >> 6u32) & 63u32 < 64) by (bit_vector);
    assert(t & 63u32 < 64) by (bit_vector);
}

/// Base64url encoding of bytes, without padding.
pub fn base64url_encode(data: &[u8]) -> (r: String)
    ensures
        r@ == ascii_chars(b64_encode(data@)),
{
    let mut out = String::new();
    let mut i: usize = 0;
    let ghost enc: Seq<u8> = Seq::empty();
    assert(data@.skip(0) == data@);
    while i < data.len()
        invariant
            i <= data@.len(),
            out@ == ascii_chars(enc),
            b64_encode(data@) == enc + b64_encode(data@.skip(i as int)),
        decreases data@.len() - i,
    {
        let rest_len = data.len() - i;
        let b0 = data[i];
        let b1: u8 = if rest_len > 1 { data[i + 1] } else { 0 };
        let b2: u8 = if rest_len > 2 { data[i + 2] } else { 0 };
        let t: u32 = ((b0 as u32) << 16u32) | ((b1 as u32) << 8u32) | (b2 as u32);
        proof {
            lemma_group_indices(b0, b1, b2);
        }
        let n: usize = if rest_len >= 3 { 3 } else { rest_len };
        let ghost g = encode_group(b0, b1, b2, n as nat);
        let ghost rest = data@.skip(i as int);
        assert(rest[0] == b0);
        assert(n >= 2 ==> rest[1] == b1);
        assert(n >= 3 ==> rest[2] == b2);
        assert(rest_len >= 3 ==> rest.skip(3) == data@.skip(i + 3)) by {
            if rest_len >= 3 {
                assert(rest.skip(3) =~= data@.skip(i + 3));
            }
        }
        let c0 = b64_char_exec((t >> 18u32) & 63u32);
        let c1 = b64_char_exec((t >> 12u32) & 63u32);
        push_char(&mut out, c0 as char);
        push_char(&mut out, c1 as char);
        if rest_len > 1 {
            let c2 = b64_char_exec((t >> 6u32) & 63u32);
            push_char(&mut out, c2 as char);
        }
        if rest_len > 2 {
            let c3 = b64_char_exec(t & 63u32);
            push_char(&mut out, c3 as char);
        }
        proof {
            assert(out@ =~= ascii_chars(enc + g));
            if n == 3 {
                assert(b64_encode(rest) == g + b64_encode(rest.skip(3)));
                assert(enc + g + b64_encode(data@.skip(i + 3)) == enc + (g + b64_encode(
                    data@.skip(i + 3),
                )));
            } else {
                assert(b64_encode(rest) == g);
                assert(data@.skip(i + n) =~= Seq::<u8>::empty());
                assert(enc + g + Seq::<u8>::empty() == enc + g);
            }
            enc = enc + g;
        }
        i = i + n;
    }
    assert(data@.skip(i as int) =~= Seq::<u8>::empty());
    assert(enc + Seq::<u8>::empty() == enc);
    out
}

/// The position of the first byte from `i` on outside the base64url
/// alphabet, or the length when there is none.
pub open spec fn first_non_b64(s: Seq<u8>, i: int) -> int
    decreases s.len() - i,
{
    if i < 0 || i >= s.len() {
        s.len() as int
    } else if b64_value(s[i]) is None {
        i
    } else {
        first_non_b64(s, i + 1)
    }
}

/// Why base64url decoding fails: the first byte outside the alphabet (shown
/// as the character of that code), or else a dangling single character.
pub open spec fn b64_error_message(s: Seq<u8>) -> Seq<char> {
    let k = first_non_b64(s, 0);
    if k < s.len() {
        "Invalid base64url character: "@ + seq![s[k] as char]
    } else {
        "Invalid base64url length"@
    }
}

proof fn lemma_first_non_b64(s: Seq<u8>, i: int, m: int)
    requires
        0 <= i <= m <= s.len(),
        forall|j: int| i <= j < m ==> (#[trigger] b64_value(s[j])) is Some,
        m < s.len() ==> b64_value(s[m]) is None,
    ensures
        first_non_b64(s, i) == m,
    decreases m - i,
{
    if i < m {
        lemma_first_non_b64(s, i + 1, m);
    }
}

/// Base64url decoding of a text (trailing `=` stripped first); a byte
/// outside the alphabet or a dangling single character is a `BadRequest`.
pub fn base64url_decode(input: &str) -> (r: Result<Vec<u8>, IiifError>)
    ensures
        match b64_decode(trim_padding(encode_utf8(input@))) {
            Some(v) => r matches Ok(x) && x@ == v,
            None => r matches Err(e) && is_bad_request(e, b64_error_message(trim_padding(encode_utf8(input@)))),
        },
{
    let bytes = input.as_bytes();
    let mut end = bytes.len();
    assert(bytes@.subrange(0, end as int) == bytes@);
    while end > 0 && bytes[end - 1] == 61u8
        invariant
            bytes@ == encode_utf8(input@),
            end <= bytes@.len(),
            trim_padding(bytes@) == trim_padding(bytes@.subrange(0, end as int)),
        decreases end,
    {
        assert(bytes@.subrange(0, end as int).drop_last() == bytes@.subrange(0, end - 1));
        end = end - 1;
    }
    let ghost s = bytes@.subrange(0, end as int);
    assert(trim_padding(s) == s);
    assert(trim_padding(bytes@) == s);
    let mut out: Vec<u8> = Vec::new();
    let mut i: usize = 0;
    assert(s.skip(0) == s);
    while i < end
        invariant
            bytes@ == encode_utf8(input@),
            i <= end <= bytes@.len(),
            s == bytes@.subrange(0, end as int),
            trim_padding(bytes@) == s,
            b64_decode(s) == crate::identifier::prepend(out@, b64_decode(s.skip(i as int))),
            forall|j: int| 0 <= j < i ==> (#[trigger] b64_value(s[j])) is Some,
        decreases end - i,
    {
        let n: usize = if end - i >= 4 { 4 } else { end - i };
        let ghost rest = s.skip(i as int);
        let ghost g = rest.take(n as int);
        let mut vals: [u32; 4] = [0, 0, 0, 0];
        let mut k: usize = 0;
        while k < n
            invariant
            bytes@ == encode_utf8(input@),
                k <= n <= 4,
                i + n <= end <= bytes@.len(),
                s == bytes@.subrange(0, end as int),
                rest == s.skip(i as int),
                trim_padding(bytes@) == s,
                rest.len() == end - i,
                g == rest.take(n as int),
                b64_decode(s) == crate::identifier::prepend(out@, b64_decode(rest)),
                forall|j: int| 0 <= j < k ==> (#[trigger] b64_value(g[j])) is Some,
                forall|j: int| 0 <= j < i ==> (#[trigger] b64_value(s[j])) is Some,
                forall|j: int| 0 <= j < k ==> vals@[j] == value_or_zero(g, j),
                forall|j: int| k <= j < 4 ==> vals@[j] == 0,
            decreases n - k,
        {
            assert(g[k as int] == bytes@[i + k]);
            match b64_value_exec(bytes[i + k]) {
                Some(v) => {
                    vals.set(k, v);
                },
                None => {
                    assert(!all_b64(g));
                    proof {
                        assert forall|j: int| 0 <= j < i + k implies (#[trigger] b64_value(s[j])) is Some by {
                            if j >= i {
                                assert(s[j] == g[j - i]);
                            }
                        }
                        lemma_first_non_b64(s, 0, i + k);
                    }
                    let bad = bytes[i + k];
                    let mut m = String::from_str("Invalid base64url character: ");
                    push_char(&mut m, bad as char);
                    assert(s[i + k] == bad);
                    assert(m@ =~= "Invalid base64url character: "@ + seq![s[i + k] as char]);
                    assert(b64_decode(s) is None);
                    return Err(IiifError::BadRequest(m));
                },
            }
            k = k + 1;
        }
        assert(all_b64(g));
        if n == 1 {
            proof {
                assert forall|j: int| 0 <= j < s.len() implies (#[trigger] b64_value(s[j])) is Some by {
                    if j >= i {
                        assert(s[j] == g[j - i]);
                    }
                }
                lemma_first_non_b64(s, 0, s.len() as int);
                assert(b64_decode(s) is None);
            }
            return Err(IiifError::BadRequest(String::from_str("Invalid base64url length")));
        }
        assert forall|j: int| n <= j < 4 implies vals@[j] == value_or_zero(g, j) by {}
        let v0 = vals[0];
        let v1 = vals[1];
        let v2 = vals[2];
        let v3 = vals[3];
        let t: u32 = (v0 << 18u32) | (v1 << 12u32) | (v2 << 6u32) | v3;
        let ghost old_out = out@;
        out.push((t >> 16u32) as u8);
        if n > 2 {
            out.push(((t >> 8u32) & 255u32) as u8);
        }
        if n > 3 {
            out.push((t & 255u32) as u8);
        }
        proof {
            let dg = decode_group(v0, v1, v2, v3, n as nat);
            assert(out@ =~= old_out + dg);
            assert(rest.skip(n as int) =~= s.skip(i + n));
            match b64_decode(s.skip(i + n)) {
                Some(t2) => {
                    assert(old_out + (dg + t2) == out@ + t2);
                },
                None => {},
            }
            assert forall|j: int| 0 <= j < i + n implies (#[trigger] b64_value(s[j])) is Some by {
                if j >= i {
                    assert(s[j] == g[j - i]);
                }
            }
        }
        i = i + n;
    }
    assert(s.skip(i as int) =~= Seq::<u8>::empty());
    assert(out@ + Seq::<u8>::empty() == out@);
    Ok(out)
}

/// The encoded form of a content-state text: base64url of its UTF-8 bytes.
pub open spec fn encoded_content_state(json: Seq<char>) -> Seq<char> {
    ascii_chars(b64_encode(encode_utf8(json)))
}

/// Encode a content state JSON text to base64url (padding stripped).
pub fn encode_content_state(json: &str) -> (r: String)
    ensures
        r@ == encoded_content_state(json@),
{
    base64url_encode(json.as_bytes())
}

/// Why an encoded content state does not decode, if it does not: the
/// base64url failure, or the UTF-8 error of the decoded bytes.
pub open spec fn content_state_error(encoded: Seq<char>) -> Option<Seq<char>> {
    let s = trim_padding(encode_utf8(encoded));
    match b64_decode(s) {
        None => Some(b64_error_message(s)),
        Some(bytes) => if valid_utf8(bytes) {
            None
        } else {
            Some("Content state is not valid UTF-8: "@ + utf8_error_text(bytes))
        },
    }
}

/// Decode a base64url-encoded content state back to its JSON text; every
/// failure (bad alphabet, dangling character, invalid UTF-8) is a
/// `BadRequest` saying why.
pub fn decode_content_state(encoded: &str) -> (r: Result<String, IiifError>)
    ensures
        r matches Ok(s) ==> decoded_content_state(encoded@) == Some(s@),
        r is Err <==> decoded_content_state(encoded@) is None,
        match content_state_error(encoded@) {
            Some(m) => r matches Err(e) && is_bad_request(e, m),
            None => r is Ok,
        },
{
    let bytes = match base64url_decode(encoded) {
        Ok(b) => b,
        Err(e) => {
            return Err(e);
        },
    };
    match string_from_utf8(bytes) {
        Ok(s) => Ok(s),
        Err(e) => {
            let mut m = String::from_str("Content state is not valid UTF-8: ");
            m.append(e.as_str());
            Err(IiifError::BadRequest(m))
        },
    }
}

/// The body of the encode endpoint's answer.
#[derive(Debug, Clone)]
pub struct EncodeResponse {
    pub encoded: String,
}

/// A parsed JSON document as far as the content-state check reads it: an
/// object's members in order, each with its string value where it is a string;
/// a string; or any other value.
#[derive(Debug, Clone)]
pub enum JsonDoc {
    Object(Vec<(String, Option<String>)>),
    Text(String),
    Other,
}

/// The mathematical form of a `JsonDoc`.
pub enum JsonDocView {
    Object(Seq<(Seq<char>, Option<Seq<char>>)>),
    Text(Seq<char>),
    Other,
}

pub open spec fn member_view(m: (String, Option<String>)) -> (Seq<char>, Option<Seq<char>>) {
    (
        m.0@,
        match m.1 {
            Some(v) => Some(v@),
            None => None,
        },
    )
}

impl View for JsonDoc {
    type V = JsonDocView;

    open spec fn view(&self) -> JsonDocView {
        match self {
            JsonDoc::Object(ms) => JsonDocView::Object(ms@.map_values(|m: (String, Option<String>)| member_view(m))),
            JsonDoc::Text(t) => JsonDocView::Text(t@),
            JsonDoc::Other => JsonDocView::Other,
        }
    }
}

/// What `serde_json` makes of a text: the document, or the text of its error.
pub uninterp spec fn json_document(json: Seq<char>) -> Result<JsonDocView, Seq<char>>;

/// Parses `json` with `serde_json::from_str` into a `serde_json::Value` and
/// keeps of it what `JsonDoc` holds. Claimed: the outcome is
/// `json_document(json)`, a function of the text alone.
#[verifier::external_body]
fn parse_json_document(json: &str) -> (r: Result<JsonDoc, String>)
    ensures
        match r {
            Ok(d) => json_document(json@) == Ok::<JsonDocView, Seq<char>>(d@),
            Err(e) => json_document(json@) == Err::<JsonDocView, Seq<char>>(e@),
        },
{
    match serde_json::from_str::<serde_json::Value>(json) {
        Ok(serde_json::Value::Object(obj)) => Ok(JsonDoc::Object(
            obj.into_iter().map(|(k, v)| match v {
                serde_json::Value::String(t) => (k, Some(t)),
                _ => (k, None),
            }).collect(),
        )),
        Ok(serde_json::Value::String(t)) => Ok(JsonDoc::Text(t)),
        Ok(_) => Ok(JsonDoc::Other),
        Err(e) => Err(e.to_string()),
    }
}

/// The value of the first member named `key`, if there is one.
pub open spec fn member(ms: Seq<(Seq<char>, Option<Seq<char>>)>, key: Seq<char>) -> Option<Option<Seq<char>>>
    decreases ms.len(),
{
    if ms.len() == 0 {
        None
    } else if ms[0].0 == key {
        Some(ms[0].1)
    } else {
        member(ms.drop_first(), key)
    }
}

/// Whether a document is one of the three content-state forms: an Annotation
/// (an object whose `type` is the string `Annotation`), a resource (an object
/// with both `id` and `type`), or a URI string starting with `http`.
pub open spec fn is_content_state(doc: JsonDocView) -> bool {
    match doc {
        JsonDocView::Object(ms) => member(ms, "type"@) == Some(Some("Annotation"@)) || (member(ms, "id"@)
            is Some && member(ms, "type"@) is Some),
        JsonDocView::Text(t) => starts_with(t, "http"@),
        JsonDocView::Other => false,
    }
}

proof fn lemma_member_found(ms: Seq<(Seq<char>, Option<Seq<char>>)>, key: Seq<char>)
    ensures
        member(ms, key) is Some <==> exists|i: int| 0 <= i < ms.len() && #[trigger] ms[i].0 == key,
        member(ms, key) matches Some(v) ==> exists|i: int| 0 <= i < ms.len() && #[trigger] ms[i] == (key, v),
        forall|i: int|
            0 <= i < ms.len() && ms[i].0 == key && (forall|j: int| 0 <= j < i ==> #[trigger] ms[j].0 != key)
                ==> member(ms, key) == Some(#[trigger] ms[i].1),
    decreases ms.len(),
{
    if ms.len() > 0 {
        let rest = ms.drop_first();
        lemma_member_found(rest, key);
        if ms[0].0 != key {
            if exists|i: int| 0 <= i < ms.len() && #[trigger] ms[i].0 == key {
                let i = choose|i: int| 0 <= i < ms.len() && #[trigger] ms[i].0 == key;
                assert(rest[i - 1].0 == key);
            }
            if exists|i: int| 0 <= i < rest.len() && #[trigger] rest[i].0 == key {
                let i = choose|i: int| 0 <= i < rest.len() && #[trigger] rest[i].0 == key;
                assert(ms[i + 1].0 == key);
            }
            if member(ms, key) is Some {
                let v = member(ms, key)->0;
                let i = choose|i: int| 0 <= i < rest.len() && #[trigger] rest[i] == (key, v);
                assert(ms[i + 1] == (key, v));
            }
            assert forall|i: int|
                0 <= i < ms.len() && ms[i].0 == key && (forall|j: int| 0 <= j < i ==> #[trigger] ms[j].0 != key)
                    implies member(ms, key) == Some(#[trigger] ms[i].1) by {
                assert(i > 0);
                assert(rest[i - 1] == ms[i]);
                assert forall|j: int| 0 <= j < i - 1 implies #[trigger] rest[j].0 != key by {
                    assert(rest[j] == ms[j + 1]);
                }
            }
        } else {
            assert(ms[0].0 == key);
            assert(ms[0] == (key, ms[0].1));
        }
    }
}

/// Which JSON objects are content states: one holding both an `id` and a
/// `type` member is; one with no `id` member is only when its first `type`
/// member is the string `Annotation`, so an object with neither an `id` nor
/// an Annotation type is refused.
pub proof fn lemma_content_state_objects(ms: Seq<(Seq<char>, Option<Seq<char>>)>)
    ensures
        (exists|i: int| 0 <= i < ms.len() && #[trigger] ms[i].0 == "id"@) && (exists|j: int|
            0 <= j < ms.len() && #[trigger] ms[j].0 == "type"@) ==> is_content_state(JsonDocView::Object(ms)),
        (forall|i: int| 0 <= i < ms.len() ==> #[trigger] ms[i].0 != "id"@) && (forall|i: int|
            0 <= i < ms.len() ==> #[trigger] ms[i] != ("type"@, Some("Annotation"@))) ==> !is_content_state(
            JsonDocView::Object(ms),
        ),
        forall|i: int|
            0 <= i < ms.len() && #[trigger] ms[i] == ("type"@, Some("Annotation"@)) && (forall|j: int|
                0 <= j < i ==> #[trigger] ms[j].0 != "type"@) ==> is_content_state(JsonDocView::Object(ms)),
{
    lemma_member_found(ms, "id"@);
    lemma_member_found(ms, "type"@);
    assert forall|i: int|
        0 <= i < ms.len() && #[trigger] ms[i] == ("type"@, Some("Annotation"@)) && (forall|j: int|
            0 <= j < i ==> #[trigger] ms[j].0 != "type"@) implies is_content_state(JsonDocView::Object(ms)) by {
        assert(ms[i].0 == "type"@);
        assert(member(ms, "type"@) == Some(ms[i].1));
    }
}

pub open spec fn form_error_message() -> Seq<char> {
    "Content state must be an Annotation, a resource with id/type, or a URI string"@
}

/// The first member named `key`: its position, if any.
fn find_member(ms: &Vec<(String, Option<String>)>, key: &str) -> (r: Option<usize>)
    ensures
        member(ms@.map_values(|m: (String, Option<String>)| member_view(m)), key@) == match r {
            Some(i) => Some(member_view(ms@[i as int]).1),
            None => None::<Option<Seq<char>>>,
        },
        r matches Some(i) ==> i < ms.len(),
{
    let ghost all = ms@.map_values(|m: (String, Option<String>)| member_view(m));
    let mut i: usize = 0;
    assert(all.subrange(0, all.len() as int) =~= all);
    while i < ms.len()
        invariant
            i <= ms.len(),
            all == ms@.map_values(|m: (String, Option<String>)| member_view(m)),
            member(all, key@) == member(all.subrange(i as int, all.len() as int), key@),
        decreases ms.len() - i,
    {
        let ghost rest = all.subrange(i as int, all.len() as int);
        assert(rest.drop_first() =~= all.subrange(i + 1, all.len() as int));
        if str_eq(ms[i].0.as_str(), key) {
            return Some(i);
        }
        i = i + 1;
    }
    assert(all.subrange(i as int, all.len() as int) =~= Seq::<(Seq<char>, Option<Seq<char>>)>::empty());
    None
}

/// Whether a parsed document is a content state; otherwise the `BadRequest`
/// that names the three accepted forms.
pub fn check_content_state(doc: &JsonDoc) -> (r: Result<(), IiifError>)
    ensures
        r is Ok <==> is_content_state(doc@),
        r matches Err(e) ==> is_bad_request(e, form_error_message()),
{
    let ok = match doc {
        JsonDoc::Object(ms) => {
            let ty = find_member(ms, "type");
            let annotation = match ty {
                Some(i) => match &ms[i].1 {
                    Some(t) => str_eq(t.as_str(), "Annotation"),
                    None => false,
                },
                None => false,
            };
            annotation || (find_member(ms, "id").is_some() && ty.is_some())
        },
        JsonDoc::Text(t) => {
            let cs = str_chars(t.as_str());
            let http = str_chars("http");
            starts_with_chars(cs.as_slice(), http.as_slice())
        },
        JsonDoc::Other => false,
    };
    if ok {
        Ok(())
    } else {
        Err(IiifError::BadRequest(String::from_str("Content state must be an Annotation, a resource with id/type, or a URI string")))
    }
}

/// Parse a content-state JSON text and check that it has one of the three
/// content-state forms. A text that is not JSON is a `BadRequest` naming the
/// parser's complaint.
pub fn validate_content_state(json: &str) -> (r: Result<JsonDoc, IiifError>)
    ensures
        match json_document(json@) {
            Err(e) => r matches Err(x) && is_bad_request(x, "Invalid JSON in content state: "@ + e),
            Ok(d) => {
                &&& (r is Ok <==> is_content_state(d))
                &&& (r matches Ok(x) ==> x@ == d)
                &&& (r matches Err(x) ==> is_bad_request(x, form_error_message()))
            },
        },
{
    match parse_json_document(json) {
        Err(e) => {
            let mut m = String::from_str("Invalid JSON in content state: ");
            m.append(e.as_str());
            Err(IiifError::BadRequest(m))
        },
        Ok(doc) => match check_content_state(&doc) {
            Ok(()) => Ok(doc),
            Err(e) => Err(e),
        },
    }
}

proof fn lemma_char_value(v: u32)
    requires
        v < 64,
    ensures
        b64_value(b64_char(v)) == Some(v),
        b64_char(v) != 61u8,
        b64_char(v) < 128,
{
}

proof fn lemma_group_roundtrip(b0: u8, b1: u8, b2: u8)
    ensures
        ({
            let t = triple(b0, b1, b2);
            let v0 = (t >> 18u32) & 63u32;
            let v1 = (t >> 12u32) & 63u32;
            let v2 = (t >> 6u32) & 63u32;
            let v3 = t & 63u32;
            &&& decode_group(v0, v1, v2, v3, 4) == seq![b0, b1, b2]
            &&& decode_group(v0, v1, v2, 0, 3) == seq![b0, b1] || b2 != 0
            &&& decode_group(v0, v1, 0, 0, 2) == seq![b0] || b1 != 0 || b2 != 0
        }),
{
    let t = triple(b0, b1, b2);
    let v0 = (t >> 18u32) & 63u32;
    let v1 = (t >> 12u32) & 63u32;
    let v2 = (t >> 6u32) & 63u32;
    let v3 = t & 63u32;
    assert(((((b0 as u32) << 16u32) | ((b1 as u32) << 8u32) | (b2 as u32)) >> 18u32) & 63u32
        == v0);
    let t4 = (v0 << 18u32) | (v1 << 12u32) | (v2 << 6u32) | v3;
    assert(t4 == t) by (bit_vector)
        requires
            t == ((b0 as u32) << 16u32) | ((b1 as u32) << 8u32) | (b2 as u32),
            v0 == (t >> 18u32) & 63u32,
            v1 == (t >> 12u32) & 63u32,
            v2 == (t >> 6u32) & 63u32,
            v3 == t & 63u32,
            t4 == (v0 << 18u32) | (v1 << 12u32) | (v2 << 6u32) | v3,
    ;
    assert((t >> 16u32) as u8 == b0 && ((t >> 8u32) & 255u32) as u8 == b1 && (t & 255u32) as u8
        == b2) by (bit_vector)
        requires
            t == ((b0 as u32) << 16u32) | ((b1 as u32) << 8u32) | (b2 as u32),
    ;
    let t3 = (v0 << 18u32) | (v1 << 12u32) | (v2 << 6u32) | 0u32;
    assert(b2 == 0 ==> (t3 >> 16u32) as u8 == b0 && ((t3 >> 8u32) & 255u32) as u8 == b1)
        by (bit_vector)
        requires
            t == ((b0 as u32) << 16u32) | ((b1 as u32) << 8u32) | (b2 as u32),
            v0 == (t >> 18u32) & 63u32,
            v1 == (t >> 12u32) & 63u32,
            v2 == (t >> 6u32) & 63u32,
            t3 == (v0 << 18u32) | (v1 << 12u32) | (v2 << 6u32) | 0u32,
    ;
    let t2 = (v0 << 18u32) | (v1 << 12u32) | (0u32 << 6u32) | 0u32;
    assert(b1 == 0 && b2 == 0 ==> (t2 >> 16u32) as u8 == b0) by (bit_vector)
        requires
            t == ((b0 as u32) << 16u32) | ((b1 as u32) << 8u32) | (b2 as u32),
            v0 == (t >> 18u32) & 63u32,
            v1 == (t >> 12u32) & 63u32,
            t2 == (v0 << 18u32) | (v1 << 12u32) | (0u32 << 6u32) | 0u32,
    ;
}

proof fn lemma_encode_group_decodes(b0: u8, b1: u8, b2: u8, n: nat)
    requires
        1 <= n <= 3,
        n <= 1 ==> b1 == 0,
        n <= 2 ==> b2 == 0,
    ensures
        all_b64(encode_group(b0, b1, b2, n)),
        forall|i: int| 0 <= i < encode_group(b0, b1, b2, n).len() ==> #[trigger] encode_group(b0, b1, b2, n)[i] != 61u8
            && encode_group(b0, b1, b2, n)[i] < 128,
        encode_group(b0, b1, b2, n).len() == n + 1,
        ({
            let g = encode_group(b0, b1, b2, n);
            decode_group(
                value_or_zero(g, 0),
                value_or_zero(g, 1),
                value_or_zero(g, 2),
                value_or_zero(g, 3),
                n + 1,
            ) == if n == 1 {
                seq![b0]
            } else if n == 2 {
                seq![b0, b1]
            } else {
                seq![b0, b1, b2]
            }
        }),
{
    lemma_group_indices(b0, b1, b2);
    lemma_group_roundtrip(b0, b1, b2);
    let t = triple(b0, b1, b2);
    lemma_char_value((t >> 18u32) & 63u32);
    lemma_char_value((t >> 12u32) & 63u32);
    lemma_char_value((t >> 6u32) & 63u32);
    lemma_char_value(t & 63u32);
}

proof fn lemma_b64_roundtrip(data: Seq<u8>)
    ensures
        b64_decode(b64_encode(data)) == Some(data),
        forall|i: int| 0 <= i < b64_encode(data).len() ==> #[trigger] b64_encode(data)[i] != 61u8
            && b64_encode(data)[i] < 128,
    decreases data.len(),
{
    if data.len() == 0 {
    } else if data.len() < 3 {
        let n = data.len();
        let b0 = data[0];
        let b1: u8 = if n > 1 { data[1] } else { 0 };
        lemma_encode_group_decodes(b0, b1, 0, n);
        let e = b64_encode(data);
        assert(e == encode_group(b0, b1, 0, n));
        assert(e.take((n + 1) as int) == e);
        assert(e.skip((n + 1) as int) =~= Seq::<u8>::empty());
        assert(data =~= if n == 1 { seq![b0] } else { seq![b0, b1] });
        assert(b64_decode(e.skip((n + 1) as int)) == Some(Seq::<u8>::empty()));
        let dg = decode_group(value_or_zero(e, 0), value_or_zero(e, 1), value_or_zero(e, 2), value_or_zero(e, 3), n + 1);
        assert(dg + Seq::<u8>::empty() == dg);
        assert(b64_decode(e) == Some(dg));
    } else {
        let rest = data.skip(3);
        lemma_b64_roundtrip(rest);
        lemma_encode_group_decodes(data[0], data[1], data[2], 3);
        let g = encode_group(data[0], data[1], data[2], 3);
        let e = b64_encode(data);
        assert(e == g + b64_encode(rest));
        assert(e.take(4) =~= g);
        assert(e.skip(4) =~= b64_encode(rest));
        assert(data =~= seq![data[0], data[1], data[2]] + rest);
        assert(e.len() >= 4);
        let dg = decode_group(value_or_zero(g, 0), value_or_zero(g, 1), value_or_zero(g, 2), value_or_zero(g, 3), 4);
        assert(all_b64(e.take(4)));
        assert(b64_decode(e) == Some(dg + rest));
        assert forall|i: int| 0 <= i < e.len() implies #[trigger] e[i] != 61u8 && e[i] < 128 by {
            if i < 4 {
                assert(e[i] == g[i]);
            } else {
                assert(e[i] == b64_encode(rest)[i - 4]);
            }
        }
    }
}

proof fn lemma_trim_no_padding(s: Seq<u8>)
    requires
        s.len() == 0 || s.last() != 61u8,
    ensures
        trim_padding(s) == s,
{
}

/// Decoding the encoding of any content-state text gives that text back.
pub proof fn lemma_content_state_roundtrip(json: Seq<char>)
    ensures
        decoded_content_state(encoded_content_state(json)) == Some(json),
{
    let bytes = encode_utf8(json);
    let e = b64_encode(bytes);
    lemma_b64_roundtrip(bytes);
    let chars = ascii_chars(e);
    assert(vstd::utf8::is_ascii_chars(chars)) by {
        assert forall|i: int| 0 <= i < chars.len() implies '\0' <= #[trigger] chars[i] <= '\u{7f}' by {
            assert(e[i] < 128);
        }
    }
    vstd::utf8::is_ascii_chars_encode_utf8(chars);
    assert(encode_utf8(chars) =~= e) by {
        assert forall|i: int| 0 <= i < e.len() implies encode_utf8(chars)[i] == e[i] by {
            assert(chars[i] as u8 == encode_utf8(chars)[i]);
        }
    }
    if e.len() > 0 {
        assert(e.last() == e[e.len() - 1]);
    }
    lemma_trim_no_padding(e);
    vstd::utf8::encode_utf8_valid_utf8(json);
    vstd::utf8::encode_utf8_decode_utf8(json);
}

} // verus!
