//! Percent-encoding of link fragments and query values.
use vstd::prelude::*;

verus! {

/// The characters that percent-encoding leaves as they are.
pub open spec fn is_unreserved(c: char) -> bool {
    ('A' <= c && c <= 'Z') || ('a' <= c && c <= 'z') || ('0' <= c && c <= '9') || c == '-'
        || c == '_' || c == '.' || c == '~'
}

/// The percent-encoding of the UTF-8 bytes of `s`.
pub uninterp spec fn percent_encoded(s: Seq<char>) -> Seq<char>;

/// The text that the `%XX` escapes of `s` spell, if they spell UTF-8.
pub uninterp spec fn percent_decoded(s: Seq<char>) -> Option<Seq<char>>;

/// Relies on `urlencoding::encode`: every byte except ASCII letters, digits and `-_.~`
/// becomes `%XX`, so `urlencoding::decode` reads the text back.
#[verifier::external_body]
pub fn url_encode(s: &Vec<char>) -> (r: Vec<char>)
    ensures
        r@ == percent_encoded(s@),
        percent_decoded(r@) == Some(s@),
        forall|i: int| 0 <= i < r@.len() ==> is_unreserved(#[trigger] r@[i]) || r@[i] == '%',
{
    let text: String = s.iter().collect();
    urlencoding::encode(&text).chars().collect()
}

/// Relies on `urlencoding::decode`; its UTF-8 error is dropped.
#[verifier::external_body]
pub fn url_decode(s: &Vec<char>) -> (r: Option<Vec<char>>)
    ensures
        match r {
            Some(t) => percent_decoded(s@) == Some(t@),
            None => percent_decoded(s@) is None,
        },
{
    let text: String = s.iter().collect();
    urlencoding::decode(&text).ok().map(|t| t.chars().collect())
}

/// `s` percent-decoded, or `s` itself where that fails.
pub open spec fn decoded_or_same(s: Seq<char>) -> Seq<char> {
    match percent_decoded(s) {
        Some(t) => t,
        None => s,
    }
}

pub fn url_decode_or_same(s: &Vec<char>) -> (r: Vec<char>)
    ensures
        r@ == decoded_or_same(s@),
{
    match url_decode(s) {
        Some(t) => t,
        None => {
            let r = crate::text::slice_chars(s, 0, s.len());
            assert(s@.subrange(0, s.len() as int) =~= s@);
            r
        },
    }
}

} // verus!
