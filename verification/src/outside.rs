//! The library's view of the outside crates it calls. Every function here is
//! trusted: its body makes the outside call, and its contract states only
//! what that crate's source or documentation shows.

use vstd::prelude::*;
use vstd::string::StringSliceAdditionalSpecFns;
use base64::Engine;
use sha1::Digest;
use sha1::Sha1;

verus! {

/// The SHA-1 digest of a byte string. Left abstract: the algorithm is the
/// sha1 crate's business; all the library needs is that it is a function of
/// the bytes alone.
pub uninterp spec fn sha1_of(bytes: Seq<u8>) -> Seq<u8>;

/// The standard base64 encoding of a byte string, as the base64 crate's
/// standard engine produces it (canonical padding).
pub uninterp spec fn b64_of(bytes: Seq<u8>) -> Seq<char>;

/// The path component of an absolute URL, as the url crate resolves it.
pub uninterp spec fn url_path_of(url: Seq<char>) -> Seq<char>;

/// Whether the url crate accepts a string as a URL: a function of the
/// string alone.
pub uninterp spec fn url_parse_ok(url: Seq<char>) -> bool;

/// Relies on sha1::Sha1 through digest::Digest: feeding the four parts in
/// order digests their concatenation, and a SHA-1 digest is 20 bytes.
#[verifier::external_body]
pub(crate) fn sha1_digest4(a: &str, b: &str, c: &str, d: &str) -> (r: Vec<u8>)
    ensures
        r@ == sha1_of(a.spec_bytes() + b.spec_bytes() + c.spec_bytes() + d.spec_bytes()),
        r@.len() == 20,
{
    let mut hasher = Sha1::new();
    hasher.update(a);
    hasher.update(b);
    hasher.update(c);
    hasher.update(d);
    hasher.finalize().to_vec()
}

/// Relies on hex::encode: two lowercase hexadecimal digits per input byte,
/// most significant nibble first.
#[verifier::external_body]
pub(crate) fn hex_encode(bytes: &[u8]) -> (r: String)
    ensures
        r@ == crate::crypto::hex_of(bytes@),
{
    hex::encode(bytes)
}

/// Relies on the base64 crate's standard engine: it encodes any byte string.
#[verifier::external_body]
pub(crate) fn base64_encode(bytes: &[u8]) -> (r: String)
    ensures
        r@ == b64_of(bytes@),
{
    base64::prelude::BASE64_STANDARD.encode(bytes)
}

/// Relies on the base64 crate's standard engine: with canonical padding
/// required and trailing bits rejected (the engine's defaults), decoding
/// succeeds exactly on the strings the engine itself encodes, and inverts
/// the encoding.
#[verifier::external_body]
pub(crate) fn base64_decode(s: &str) -> (r: Option<Vec<u8>>)
    ensures
        forall|b: Seq<u8>| s@ == b64_of(b) ==> r is Some && r.unwrap()@ == b,
        r matches Some(v) ==> s@ == b64_of(v@),
{
    base64::prelude::BASE64_STANDARD.decode(s).ok()
}

/// Relies on uuid::Uuid::new_v4 to draw a fresh random identifier; nothing
/// can be promised of a random value.
#[verifier::external_body]
pub(crate) fn new_uuid_string() -> (r: String) {
    uuid::Uuid::new_v4().to_string()
}

/// Relies on url::Url::parse and Url::path: whether a string parses is a
/// function of the string alone, and for an accepted string so is the
/// parsed URL's path component.
#[verifier::external_body]
pub(crate) fn url_path(u: &str) -> (r: Option<String>)
    ensures
        (r is Some) == url_parse_ok(u@),
        r matches Some(p) ==> p@ == url_path_of(u@),
{
    url::Url::parse(u).ok().map(|parsed| parsed.path().to_string())
}

/// Relies on String::from_utf8: it succeeds exactly on valid UTF-8 and
/// decodes those bytes.
#[verifier::external_body]
pub(crate) fn string_from_utf8(v: Vec<u8>) -> (r: Option<String>)
    ensures
        r matches Some(s)
            ==> vstd::utf8::valid_utf8(v@) && s@ == vstd::utf8::decode_utf8(v@),
        vstd::utf8::valid_utf8(v@) ==> r is Some,
{
    String::from_utf8(v).ok()
}

} // verus!
