//! Request signing: every call to the service carries a signature computed
//! over (session id, viewer session id or empty, request path, encoded body).

use vstd::prelude::*;
use crate::outside;
use crate::strutil::digit_char;

verus! {

/// The lowercase hexadecimal digit for a nibble.
pub open spec fn hex_char_of(d: u8) -> char
    recommends
        d < 16,
{
    if d < 10 {
        digit_char(d as nat)
    } else if d == 10 {
        'a'
    } else if d == 11 {
        'b'
    } else if d == 12 {
        'c'
    } else if d == 13 {
        'd'
    } else if d == 14 {
        'e'
    } else {
        'f'
    }
}

/// Lowercase hexadecimal rendering of a byte string, two digits per byte,
/// most significant nibble first.
pub open spec fn hex_of(bytes: Seq<u8>) -> Seq<char>
    decreases bytes.len(),
{
    if bytes.len() == 0 {
        Seq::empty()
    } else {
        seq![hex_char_of(bytes[0] / 16), hex_char_of(bytes[0] % 16)] + hex_of(bytes.drop_first())
    }
}

/// The signature the service accepts: the lowercase hex SHA-1 digest of the
/// UTF-8 bytes of session id, viewer id, request path, and body, in order.
pub open spec fn checksum_spec(
    uuid: Seq<char>,
    viewer_id: Seq<char>,
    api_path: Seq<char>,
    body: Seq<char>,
) -> Seq<char> {
    hex_of(
        outside::sha1_of(
            vstd::utf8::encode_utf8(uuid) + vstd::utf8::encode_utf8(viewer_id)
                + vstd::utf8::encode_utf8(api_path) + vstd::utf8::encode_utf8(body),
        ),
    )
}

/// Computes the signature the server checks requests against.
///
/// The digest is a pure function of the four inputs: no clock, counter, or
/// other hidden state enters it.
pub fn get_request_checksum(uuid: &str, viewer_id: &str, api_path: &str, body: &str) -> (r: String)
    ensures
        r@ == checksum_spec(uuid@, viewer_id@, api_path@, body@),
{
    let digest = outside::sha1_digest4(uuid, viewer_id, api_path, body);
    outside::hex_encode(digest.as_slice())
}

/// Law: the request signature is deterministic. Any two signatures computed
/// for the same (session id, viewer id, path, body) are the same string.
pub proof fn lemma_signature_deterministic(
    uuid: Seq<char>,
    viewer_id: Seq<char>,
    api_path: Seq<char>,
    body: Seq<char>,
    r1: Seq<char>,
    r2: Seq<char>,
)
    requires
        r1 == checksum_spec(uuid, viewer_id, api_path, body),
        r2 == checksum_spec(uuid, viewer_id, api_path, body),
    ensures
        r1 == r2,
{
}

} // verus!
