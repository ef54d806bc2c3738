//! Base64 of UTF-8 text, tolerant of missing padding and of the URL-safe alphabet.
use vstd::prelude::*;
use vstd::utf8::decode_utf8;
use vstd::utf8::encode_utf8;
use vstd::utf8::valid_utf8;
use base64::Engine;
use crate::text::chars_of;
use crate::text::string_of;

verus! {

/// Why a text could not be read as base64 of UTF-8.
#[derive(Debug, Clone, Copy, PartialEq, Eq, Structural)]
pub enum DecodeError {
    /// The text is not base64, even after padding.
    InvalidBase64,
    /// The bytes are not UTF-8.
    InvalidUtf8,
}

pub open spec fn is_standard_b64_char(c: char) -> bool {
    ('A' <= c && c <= 'Z') || ('a' <= c && c <= 'z') || ('0' <= c && c <= '9') || c == '+'
        || c == '/' || c == '='
}

/// The text that the standard padded base64 engine writes for `bytes`.
pub uninterp spec fn standard_base64_text(bytes: Seq<u8>) -> Seq<char>;

/// The bytes that the standard padded base64 engine reads from `text`, if it accepts it.
pub uninterp spec fn standard_base64_bytes(text: Seq<char>) -> Option<Seq<u8>>;

/// Relies on base64's `STANDARD.encode`: standard alphabet, padded to a multiple of
/// four, and `STANDARD.decode` reads the bytes back.
#[verifier::external_body]
fn standard_encode(bytes: &[u8]) -> (r: String)
    ensures
        r@ == standard_base64_text(bytes@),
        standard_base64_bytes(r@) == Some(bytes@),
        r@.len() % 4 == 0,
        forall|i: int| 0 <= i < r@.len() ==> is_standard_b64_char(#[trigger] r@[i]),
{
    base64::engine::general_purpose::STANDARD.encode(bytes)
}

/// Relies on base64's `STANDARD.decode`; its error is dropped.
#[verifier::external_body]
fn standard_decode(text: &str) -> (r: Option<Vec<u8>>)
    ensures
        match r {
            Some(b) => standard_base64_bytes(text@) == Some(b@),
            None => standard_base64_bytes(text@) is None,
        },
{
    base64::engine::general_purpose::STANDARD.decode(text).ok()
}

/// Relies on `String::from_utf8`: it accepts exactly the valid UTF-8 byte strings.
#[verifier::external_body]
fn utf8_string(bytes: Vec<u8>) -> (r: Option<String>)
    ensures
        match r {
            Some(s) => valid_utf8(bytes@) && s@ == decode_utf8(bytes@),
            None => !valid_utf8(bytes@),
        },
{
    String::from_utf8(bytes).ok()
}

pub open spec fn to_standard_char(c: char) -> char {
    if c == '-' {
        '+'
    } else if c == '_' {
        '/'
    } else {
        c
    }
}

pub open spec fn padding_len(n: nat) -> nat {
    if n % 4 == 0 {
        0
    } else {
        (4 - n % 4) as nat
    }
}

/// `s` in the standard alphabet, padded with `=` to a multiple of four.
pub open spec fn normal_form(s: Seq<char>) -> Seq<char> {
    let t = s.map_values(|c: char| to_standard_char(c));
    t + Seq::new(padding_len(t.len()), |i: int| '=')
}

/// What `base64decode` gives for `s`.
pub open spec fn base64_decoded(s: Seq<char>) -> Result<Seq<char>, DecodeError> {
    match standard_base64_bytes(normal_form(s)) {
        None => Err(DecodeError::InvalidBase64),
        Some(b) => if valid_utf8(b) {
            Ok(decode_utf8(b))
        } else {
            Err(DecodeError::InvalidUtf8)
        },
    }
}

/// The decoded text of `s`, or `s` itself where it is not base64 of UTF-8.
pub open spec fn decoded_or_raw(s: Seq<char>) -> Seq<char> {
    match base64_decoded(s) {
        Ok(t) => t,
        Err(_) => s,
    }
}

/// What `base64encode` gives for `s`.
pub open spec fn base64_encoded(s: Seq<char>) -> Seq<char> {
    standard_base64_text(encode_utf8(s))
}

fn normalize(s: &Vec<char>) -> (r: Vec<char>)
    ensures
        r@ == normal_form(s@),
{
    let mut r: Vec<char> = Vec::new();
    let mut i: usize = 0;
    while i < s.len()
        invariant
            i <= s.len(),
            r@ == s@.subrange(0, i as int).map_values(|c: char| to_standard_char(c)),
        decreases s.len() - i,
    {
        let c = s[i];
        let d = if c == '-' {
            '+'
        } else if c == '_' {
            '/'
        } else {
            c
        };
        r.push(d);
        i = i + 1;
        assert(r@ =~= s@.subrange(0, i as int).map_values(|c: char| to_standard_char(c)));
    }
    assert(s@.subrange(0, s.len() as int) =~= s@);
    let ghost t = r@;
    while r.len() % 4 != 0
        invariant
            t.len() <= r.len() <= t.len() + padding_len(t.len()),
            r.len() % 4 == 0 ==> r.len() == t.len() + padding_len(t.len()),
            r@ == t + Seq::new((r.len() - t.len()) as nat, |i: int| '='),
        decreases t.len() + padding_len(t.len()) - r.len(),
    {
        r.push('=');
        assert(r@ =~= t + Seq::new((r.len() - t.len()) as nat, |i: int| '='));
    }
    r
}

/// Decodes base64 text into a string. A missing `=` padding is added, and the URL-safe
/// characters `-` and `_` are read as `+` and `/`.
pub fn base64decode(content: &str) -> (r: Result<String, DecodeError>)
    ensures
        match r {
            Ok(s) => base64_decoded(content@) == Ok::<Seq<char>, DecodeError>(s@),
            Err(e) => base64_decoded(content@) == Err::<Seq<char>, DecodeError>(e),
        },
{
    let chars = chars_of(content);
    let normal = normalize(&chars);
    let text = string_of(&normal);
    match standard_decode(text.as_str()) {
        None => Err(DecodeError::InvalidBase64),
        Some(bytes) => match utf8_string(bytes) {
            Some(s) => Ok(s),
            None => Err(DecodeError::InvalidUtf8),
        },
    }
}

/// Encodes the UTF-8 bytes of `content` as padded standard base64.
pub fn base64encode(content: String) -> (r: String)
    ensures
        r@ == base64_encoded(content@),
        base64_decoded(r@) == Ok::<Seq<char>, DecodeError>(content@),
        forall|i: int| 0 <= i < r@.len() ==> is_standard_b64_char(#[trigger] r@[i]),
{
    let r = standard_encode(content.as_str().as_bytes());
    proof {
        lemma_normal_form_of_standard(r@);
        vstd::utf8::encode_utf8_valid_utf8(content@);
        vstd::utf8::encode_utf8_decode_utf8(content@);
    }
    r
}

/// The text of `s` decoded, or `s` unchanged where it is not base64 of UTF-8.
pub fn decode_or_raw(s: &Vec<char>) -> (r: Vec<char>)
    ensures
        r@ == decoded_or_raw(s@),
{
    let text = string_of(s);
    match base64decode(text.as_str()) {
        Ok(t) => chars_of(t.as_str()),
        Err(_) => slice_all(s),
    }
}

fn slice_all(s: &Vec<char>) -> (r: Vec<char>)
    ensures
        r@ == s@,
{
    let r = crate::text::slice_chars(s, 0, s.len());
    assert(s@.subrange(0, s.len() as int) =~= s@);
    r
}

/// Standard padded base64 text is its own normal form.
pub proof fn lemma_normal_form_of_standard(t: Seq<char>)
    requires
        t.len() % 4 == 0,
        forall|i: int| 0 <= i < t.len() ==> is_standard_b64_char(#[trigger] t[i]),
    ensures
        normal_form(t) == t,
{
    let m = t.map_values(|c: char| to_standard_char(c));
    assert forall|i: int| 0 <= i < t.len() implies m[i] == t[i] by {
        assert(is_standard_b64_char(t[i]));
    }
    assert(m =~= t);
    assert(normal_form(t) =~= t);
}

} // verus!
