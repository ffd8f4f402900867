//! Calls into outside crates: the checksum-less bech32 text codec, public
//! key validation, URL parsing and UTF-8 decoding.

use vstd::prelude::*;

use crate::fragment::opt_string_view;

verus! {

/// bech32's error for a text that is not a checksum-less encoding.
#[verifier::external_type_specification]
#[verifier::external_body]
pub struct ExCheckedHrpstringError(bitcoin::bech32::primitives::decode::CheckedHrpstringError);

/// The `url` crate's parse error.
#[verifier::external_type_specification]
#[verifier::external_body]
pub struct ExUrlParseError(url::ParseError);

/// Digits and upper-case ASCII letters.
pub open spec fn is_upper_alnum(c: char) -> bool {
    ('0' <= c && c <= '9') || ('A' <= c && c <= 'Z')
}

/// Text made of digits and upper-case ASCII letters only.
pub open spec fn all_upper_alnum(s: Seq<char>) -> bool {
    forall|i: int| 0 <= i < s.len() ==> is_upper_alnum(#[trigger] s[i])
}

/// What checksum-less bech32 decoding gives for a text: its human-readable
/// part and its data bytes, or nothing where the text is not such an encoding.
pub uninterp spec fn nochecksum_decoded(s: Seq<char>) -> Option<(Seq<char>, Seq<u8>)>;

/// The upper-case checksum-less bech32 encoding of `data` under `hrp`.
pub uninterp spec fn nochecksum_encoded(hrp: Seq<char>, data: Seq<u8>) -> Seq<char>;

/// Whether secp256k1 accepts the bytes as a serialized public key.
pub uninterp spec fn is_valid_pubkey(bytes: Seq<u8>) -> bool;

/// Relies on bech32's `CheckedHrpstring::new::<NoChecksum>`: splits a text
/// into its human-readable part and the bytes its data part encodes.
#[verifier::external_body]
pub(crate) fn decode_nochecksum(s: &str) -> (r: Result<
    (String, Vec<u8>),
    bitcoin::bech32::primitives::decode::CheckedHrpstringError,
>)
    ensures
        r is Ok ==> nochecksum_decoded(s@) == Some((r->Ok_0.0@, r->Ok_0.1@)),
        r is Err ==> nochecksum_decoded(s@) is None,
{
    let checked = bitcoin::bech32::primitives::decode::CheckedHrpstring::new::<bitcoin::bech32::NoChecksum>(s)?;
    Ok((checked.hrp().as_str().to_string(), checked.byte_iter().collect()))
}

/// Relies on bech32's `encode_upper::<NoChecksum>`: the upper-cased
/// human-readable part, the separator `1`, then the data in the upper-case
/// bech32 alphabet, which has no `1`; decoding gives back the part and the
/// bytes (the padding bits are dropped). With no checksum the code length is unbounded, so the
/// encoding does not fail; `Hrp::parse` accepts one to 83 printable ASCII
/// characters.
#[verifier::external_body]
pub(crate) fn encode_nochecksum(hrp: &str, data: &[u8]) -> (r: String)
    requires
        1 <= hrp@.len() <= 83,
        all_upper_alnum(hrp@),
    ensures
        r@ == nochecksum_encoded(hrp@, data@),
        nochecksum_decoded(r@) == Some((hrp@, data@)),
        hrp@.push('1').is_prefix_of(r@),
        all_upper_alnum(r@.subrange(hrp@.len() as int + 1, r@.len() as int)),
{
    let hrp = bitcoin::bech32::Hrp::parse(hrp).expect("checked by the precondition");
    bitcoin::bech32::encode_upper::<bitcoin::bech32::NoChecksum>(hrp, data)
        .expect("no length limit without a checksum")
}

/// An encoding under an upper-case part holds digits and upper-case letters
/// only: the part, the separator `1`, then the data.
pub proof fn lemma_encoded_upper_alnum(hrp: Seq<char>, r: Seq<char>)
    requires
        all_upper_alnum(hrp),
        hrp.push('1').is_prefix_of(r),
        all_upper_alnum(r.subrange(hrp.len() as int + 1, r.len() as int)),
    ensures
        all_upper_alnum(r),
{
    assert forall|i: int| 0 <= i < r.len() implies is_upper_alnum(#[trigger] r[i]) by {
        if i < hrp.len() {
            assert(r[i] == hrp.push('1')[i]);
        } else if i == hrp.len() {
            assert(r[i] == hrp.push('1')[i]);
        } else {
            assert(r[i] == r.subrange(hrp.len() as int + 1, r.len() as int)[i - hrp.len() - 1]);
        }
    }
}

/// Relies on secp256k1's `PublicKey::from_slice`: whether the bytes parse as
/// a public key; the empty slice never does.
#[verifier::external_body]
pub(crate) fn pubkey_parses(bytes: &[u8]) -> (r: bool)
    ensures
        r == is_valid_pubkey(bytes@),
        bytes@.len() == 0 ==> !r,
{
    bitcoin::secp256k1::PublicKey::from_slice(bytes).is_ok()
}

/// Relies on `std::str::from_utf8`: succeeds exactly on valid UTF-8, with
/// the characters it encodes.
#[verifier::external_body]
pub(crate) fn utf8_text(bytes: &[u8]) -> (r: Option<String>)
    ensures
        r is Some <==> vstd::utf8::valid_utf8(bytes@),
        r is Some ==> r->Some_0@ == vstd::utf8::decode_utf8(bytes@),
{
    std::str::from_utf8(bytes).ok().map(|s| s.to_string())
}

/// What the URL parser reads from a text: the scheme, the host, the host
/// where it is a domain name, the serialization before the fragment (without
/// `#`) and the fragment; nothing where it refuses the text.
pub uninterp spec fn url_parts(text: Seq<char>) -> Option<
    (Seq<char>, Option<Seq<char>>, Option<Seq<char>>, Seq<char>, Option<Seq<char>>),
>;

/// Relies on `Url::parse`, then `Url::scheme`, `Url::host_str`,
/// `Url::domain`, indexing up to `Position::AfterQuery`, and `Url::fragment`
/// of the parsed URL: the parts of a URL, which depend on the text alone.
#[verifier::external_body]
pub(crate) fn parse_url_parts(text: &str) -> (r: Result<
    (String, Option<String>, Option<String>, String, Option<String>),
    url::ParseError,
>)
    ensures
        r is Err <==> url_parts(text@) is None,
        r matches Ok(p) ==> url_parts(text@) == Some(
            (p.0@, opt_string_view(p.1), opt_string_view(p.2), p.3@, opt_string_view(p.4)),
        ),
{
    let u = url::Url::parse(text)?;
    Ok((
        u.scheme().to_string(),
        u.host_str().map(|h| h.to_string()),
        u.domain().map(|d| d.to_string()),
        u[..url::Position::AfterQuery].to_string(),
        u.fragment().map(|f| f.to_string()),
    ))
}

/// Relies on the `Display` of bech32's decoding error for its description.
#[verifier::external_body]
pub(crate) fn bech32_error_text(e: &bitcoin::bech32::primitives::decode::CheckedHrpstringError) -> String {
    format!("{e}")
}

/// Relies on `char::is_lowercase`: whether a character has the Unicode
/// `Lowercase` property; among ASCII characters these are `a` to `z`.
#[verifier::external_body]
pub(crate) fn char_is_lowercase(c: char) -> (r: bool)
    ensures
        r == is_lowercase_char(c),
        ('a' <= c && c <= 'z') ==> r,
        ('A' <= c && c <= 'Z') || ('0' <= c && c <= '9') || c == '-' || c == '+' ==> !r,
{
    c.is_lowercase()
}

/// Whether a character has the Unicode `Lowercase` property.
pub uninterp spec fn is_lowercase_char(c: char) -> bool;

} // verus!
