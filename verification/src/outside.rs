//! Trusted declarations for the outside functions the library calls.

use vstd::prelude::*;

verus! {

/// The character sequence that lossy UTF-8 decoding produces from the given
/// bytes (invalid sequences become replacement characters).
pub uninterp spec fn lossy_decode(b: Seq<u8>) -> Seq<char>;

/// Relies on `String::from_utf8_lossy`: the result is a function of the bytes
/// alone, and valid UTF-8 decodes to exactly the characters it encodes.
#[verifier::external_body]
pub(crate) fn utf8_lossy_string(b: &[u8]) -> (r: String)
    ensures
        r@ == lossy_decode(b@),
        vstd::utf8::valid_utf8(b@) ==> r@ == vstd::utf8::decode_utf8(b@),
{
    String::from_utf8_lossy(b).into_owned()
}

/// A parsed URL of the `url` crate, carried opaquely: the library only
/// produces such values, it never inspects them.
#[verifier::external_type_specification]
#[verifier::external_body]
pub struct ExUrl(url::Url);

/// Whether a string parses as an absolute URL.
pub uninterp spec fn url_parse_ok(s: Seq<char>) -> bool;

/// Relies on `url::Url::parse`: whether (and how) a string parses depends on
/// the string alone.
#[verifier::external_body]
pub(crate) fn parse_url_str(s: &str) -> (r: Option<url::Url>)
    ensures
        r is Some <==> url_parse_ok(s@),
{
    match url::Url::parse(s) {
        Ok(u) => Some(u),
        Err(_) => None,
    }
}

/// The (name, value) pairs a query string denotes under the
/// `application/x-www-form-urlencoded` syntax, in order, every occurrence of
/// a repeated name retained.
pub uninterp spec fn form_decoded(s: Seq<char>) -> Seq<(Seq<char>, Seq<char>)>;

/// Relies on `url::form_urlencoded::parse`: the decoded pairs are a function
/// of the input string alone, and empty input yields no pairs.
#[verifier::external_body]
pub(crate) fn parse_form_urlencoded(s: &str) -> (r: Vec<(String, String)>)
    ensures
        crate::env::pairs_view(r@) == form_decoded(s@),
        s@.len() == 0 ==> r@.len() == 0,
{
    url::form_urlencoded::parse(s.as_bytes()).into_owned().collect()
}

} // verus!
