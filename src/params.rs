//! Typed parameters in the endpoint's fragment: the receiver's public key
//! (`RK`), the relay key configuration (`OH`) and the session expiry (`EX`).

use vstd::prelude::*;

use crate::codec::{
    all_upper_alnum, decode_nochecksum, encode_nochecksum, is_valid_pubkey, nochecksum_decoded,
    nochecksum_encoded, pubkey_parses,
};
use crate::endpoint::{Endpoint, EndpointView};
use crate::fragment::{
    fragment_ok, get_param, key_of, lemma_get_after_set, lemma_set_param_canonical_delimiter, param_of, params_of,
    renders, set_param, fragment_error_text, ParseFragmentError,
};
use crate::text::chars_of;

verus! {

/// `new` is `old` with `token` set into its fragment: the fragment is the
/// canonical rendering of the old parameters with `token` put in place, and
/// everything else is kept.
pub open spec fn sets_token(old: EndpointView, new: EndpointView, token: Seq<char>) -> bool {
    &&& new.scheme == old.scheme
    &&& new.host == old.host
    &&& new.domain == old.domain
    &&& new.base == old.base
    &&& renders(params_of(old.fragment).insert(key_of(token), token), new.fragment)
    &&& fragment_ok(new.fragment)
}

/// The integer that four bytes encode, least significant first.
pub open spec fn u32_from_le(b: Seq<u8>) -> int {
    b[0] as int + 256 * (b[1] as int) + 65536 * (b[2] as int) + 16777216 * (b[3] as int)
}

/// The four bytes of a 32-bit integer, least significant first.
pub open spec fn u32_le_bytes(t: u32) -> Seq<u8> {
    seq![
        (t % 256) as u8,
        ((t / 256) % 256) as u8,
        ((t / 65536) % 256) as u8,
        (t / 16777216) as u8,
    ]
}

/// Four bytes, least significant first, give back the integer.
pub proof fn lemma_u32_le_round_trip(t: u32)
    ensures
        u32_from_le(u32_le_bytes(t)) == t as int,
{
    let b = u32_le_bytes(t);
    assert(b[0] as int == t % 256);
    assert(b[1] as int == (t / 256) % 256);
    assert(b[2] as int == (t / 65536) % 256);
    assert(b[3] as int == t / 16777216);
    assert(t as int == t % 256 + 256 * ((t / 256) % 256) + 65536 * ((t / 65536) % 256) + 16777216 * (
    t / 16777216)) by (nonlinear_arith);
}

/// Seconds since the Unix epoch, with times before it taken as the epoch.
pub open spec fn expiry_seconds(secs: i64) -> u32 {
    if secs < 0 {
        0
    } else {
        secs as u32
    }
}

/// A compressed secp256k1 public key that the receiver publishes.
#[derive(Debug, PartialEq, Eq)]
pub struct HpkePublicKey {
    compressed: Vec<u8>,
}

impl View for HpkePublicKey {
    type V = Seq<u8>;

    closed spec fn view(&self) -> Seq<u8> {
        self.compressed@
    }
}

impl Clone for HpkePublicKey {
    fn clone(&self) -> (r: HpkePublicKey)
        ensures
            r@ == self@,
    {
        proof {
            use_type_invariant(self);
        }
        HpkePublicKey { compressed: self.compressed.clone() }
    }
}

/// A public key that secp256k1 does not accept as a compressed key.
#[derive(Debug, Clone, Copy, PartialEq, Eq)]
pub struct InvalidPubkey;

impl HpkePublicKey {
    #[verifier::type_invariant]
    spec fn well_formed(self) -> bool {
        self.compressed@.len() == 33 && is_valid_pubkey(self.compressed@)
    }

    /// Reads a key from its 33-byte compressed serialization.
    pub fn from_compressed_bytes(bytes: &[u8]) -> (r: Result<HpkePublicKey, InvalidPubkey>)
        ensures
            r is Ok <==> bytes@.len() == 33 && is_valid_pubkey(bytes@),
            r matches Ok(k) ==> k@ == bytes@,
    {
        if bytes.len() == 33 && pubkey_parses(bytes) {
            Ok(HpkePublicKey { compressed: vstd::slice::slice_to_vec(bytes) })
        } else {
            Err(InvalidPubkey)
        }
    }

    /// The 33-byte compressed serialization.
    pub fn to_compressed_bytes(&self) -> (r: Vec<u8>)
        ensures
            r@ == self@,
            r@.len() == 33,
            is_valid_pubkey(r@),
    {
        proof {
            use_type_invariant(self);
        }
        self.compressed.clone()
    }
}

/// Why the receiver's public key cannot be read from a fragment.
#[derive(Debug)]
pub enum ParseReceiverPubkeyParamError {
    MissingPubkey,
    /// The token's human-readable part is not `RK`.
    InvalidHrp(String),
    DecodeBech32(bitcoin::bech32::primitives::decode::CheckedHrpstringError),
    InvalidPubkey(InvalidPubkey),
    InvalidFragment(ParseFragmentError),
}

/// Why the session expiry cannot be read from a fragment.
#[derive(Debug)]
pub enum ParseExpParamError {
    MissingExp,
    /// The token's human-readable part is not `EX`.
    InvalidHrp(String),
    DecodeBech32(bitcoin::bech32::primitives::decode::CheckedHrpstringError),
    /// Fewer than four bytes.
    InvalidExp,
    InvalidFragment(ParseFragmentError),
}

impl InvalidPubkey {
    /// A description of the error.
    pub fn message(&self) -> (r: String)
        ensures
            r@ == "not a compressed secp256k1 public key"@,
    {
        String::from_str("not a compressed secp256k1 public key")
    }
}

impl ParseOhttpKeysError {
    /// A description of the error.
    pub fn message(&self) -> (r: String)
        ensures
            r@ == match self {
                ParseOhttpKeysError::InvalidFormat => "invalid format"@,
                ParseOhttpKeysError::InvalidPublicKey => "invalid public key"@,
            },
    {
        match self {
            ParseOhttpKeysError::InvalidFormat => String::from_str("invalid format"),
            ParseOhttpKeysError::InvalidPublicKey => String::from_str("invalid public key"),
        }
    }
}

fn prefixed(prefix: &str, rest: String) -> (r: String)
    ensures
        r@ == prefix@ + rest@,
{
    let mut out = String::from_str(prefix);
    out.append(rest.as_str());
    out
}

impl ParseOhttpKeysParamError {
    /// A description of the error.
    pub fn message(&self) -> (r: String)
        ensures
            match self {
                ParseOhttpKeysParamError::MissingOhttpKeys => r@ == "ohttp keys are missing"@,
                ParseOhttpKeysParamError::InvalidOhttpKeys(o) => r@ == "invalid ohttp keys: "@ + match o {
                    ParseOhttpKeysError::InvalidFormat => "invalid format"@,
                    ParseOhttpKeysError::InvalidPublicKey => "invalid public key"@,
                },
                ParseOhttpKeysParamError::InvalidFragment(e) => r@ == "invalid URL fragment: "@
                    + fragment_error_text(*e),
            },
    {
        match self {
            ParseOhttpKeysParamError::MissingOhttpKeys => String::from_str("ohttp keys are missing"),
            ParseOhttpKeysParamError::InvalidOhttpKeys(o) => prefixed("invalid ohttp keys: ", o.message()),
            ParseOhttpKeysParamError::InvalidFragment(e) => prefixed("invalid URL fragment: ", e.message()),
        }
    }
}

impl ParseExpParamError {
    /// A description of the error.
    pub fn message(&self) -> (r: String)
        ensures
            match self {
                ParseExpParamError::MissingExp => r@ == "exp is missing"@,
                ParseExpParamError::InvalidHrp(h) => r@ == "incorrect hrp for exp: "@ + h@,
                ParseExpParamError::DecodeBech32(_) => "exp is not valid bech32: "@.is_prefix_of(r@),
                ParseExpParamError::InvalidExp => r@
                    == "exp param does not contain a bitcoin consensus encoded u32"@,
                ParseExpParamError::InvalidFragment(e) => r@ == "invalid URL fragment: "@
                    + fragment_error_text(*e),
            },
    {
        match self {
            ParseExpParamError::MissingExp => String::from_str("exp is missing"),
            ParseExpParamError::InvalidHrp(h) => prefixed("incorrect hrp for exp: ", h.clone()),
            ParseExpParamError::DecodeBech32(d) => {
                let r = prefixed("exp is not valid bech32: ", crate::codec::bech32_error_text(d));
                assert("exp is not valid bech32: "@.is_prefix_of(r@));
                r
            },
            ParseExpParamError::InvalidExp => String::from_str(
                "exp param does not contain a bitcoin consensus encoded u32",
            ),
            ParseExpParamError::InvalidFragment(e) => prefixed("invalid URL fragment: ", e.message()),
        }
    }
}

impl ParseReceiverPubkeyParamError {
    /// A description of the error.
    pub fn message(&self) -> (r: String)
        ensures
            match self {
                ParseReceiverPubkeyParamError::MissingPubkey => r@ == "receiver public key is missing"@,
                ParseReceiverPubkeyParamError::InvalidHrp(h) => r@ == "incorrect hrp for receiver key: "@
                    + h@,
                ParseReceiverPubkeyParamError::DecodeBech32(_) => "receiver public key is not valid bech32: "@.is_prefix_of(r@),
                ParseReceiverPubkeyParamError::InvalidPubkey(_) => r@
                    == "receiver public key does not represent a valid pubkey: "@
                    + "not a compressed secp256k1 public key"@,
                ParseReceiverPubkeyParamError::InvalidFragment(e) => r@ == "invalid URL fragment: "@
                    + fragment_error_text(*e),
            },
    {
        match self {
            ParseReceiverPubkeyParamError::MissingPubkey => String::from_str(
                "receiver public key is missing",
            ),
            ParseReceiverPubkeyParamError::InvalidHrp(h) => prefixed(
                "incorrect hrp for receiver key: ",
                h.clone(),
            ),
            ParseReceiverPubkeyParamError::DecodeBech32(d) => {
                let r = prefixed(
                    "receiver public key is not valid bech32: ",
                    crate::codec::bech32_error_text(d),
                );
                assert("receiver public key is not valid bech32: "@.is_prefix_of(r@));
                r
            },
            ParseReceiverPubkeyParamError::InvalidPubkey(e) => prefixed(
                "receiver public key does not represent a valid pubkey: ",
                e.message(),
            ),
            ParseReceiverPubkeyParamError::InvalidFragment(e) => prefixed("invalid URL fragment: ", e.message()),
        }
    }
}

fn le_bytes(t: u32) -> (r: Vec<u8>)
    ensures
        r@ == u32_le_bytes(t),
{
    let r = vec![
        (t % 256) as u8,
        ((t / 256) % 256) as u8,
        ((t / 65536) % 256) as u8,
        (t / 16777216) as u8,
    ];
    assert(r@ =~= u32_le_bytes(t));
    r
}

fn u32_from_bytes(b: &Vec<u8>) -> (r: u32)
    requires
        b@.len() >= 4,
    ensures
        r as int == u32_from_le(b@),
{
    b[0] as u32 + 256 * (b[1] as u32) + 65536 * (b[2] as u32) + 16777216 * (b[3] as u32)
}

/// A relay key configuration: a key identifier and the relay's compressed
/// public key.
#[derive(Debug, Clone, PartialEq, Eq)]
pub struct OhttpKeys {
    key_id: u8,
    pubkey: HpkePublicKey,
}

impl View for OhttpKeys {
    type V = (u8, Seq<u8>);

    closed spec fn view(&self) -> (u8, Seq<u8>) {
        (self.key_id, self.pubkey@)
    }
}

/// Why a text is not a relay key configuration.
#[derive(Debug, Clone, Copy, PartialEq, Eq)]
pub enum ParseOhttpKeysError {
    /// Not an `OH` encoding that holds at least a key identifier.
    InvalidFormat,
    /// The key after the identifier is not a compressed public key.
    InvalidPublicKey,
}

/// The key identifier and the public key that a text encodes, or why it
/// encodes none.
pub open spec fn ohttp_keys_of(t: Seq<char>) -> Result<(u8, Seq<u8>), ParseOhttpKeysError> {
    match nochecksum_decoded(t) {
        None => Err(ParseOhttpKeysError::InvalidFormat),
        Some((h, b)) => if h != "OH"@ || b.len() == 0 {
            Err(ParseOhttpKeysError::InvalidFormat)
        } else if b.len() == 34 && is_valid_pubkey(b.drop_first()) {
            Ok((b[0], b.drop_first()))
        } else {
            Err(ParseOhttpKeysError::InvalidPublicKey)
        },
    }
}

fn tail_bytes(b: &Vec<u8>) -> (r: Vec<u8>)
    requires
        b@.len() >= 1,
    ensures
        r@ == b@.drop_first(),
{
    let mut r: Vec<u8> = Vec::new();
    let mut i: usize = 1;
    while i < b.len()
        invariant
            1 <= i <= b@.len(),
            r@ == b@.subrange(1, i as int),
        decreases b.len() - i,
    {
        r.push(b[i]);
        i = i + 1;
        assert(r@ =~= b@.subrange(1, i as int));
    }
    assert(r@ =~= b@.drop_first());
    r
}

impl OhttpKeys {
    /// Reads a relay key configuration from its `OH` text.
    pub fn parse(s: &str) -> (r: Result<OhttpKeys, ParseOhttpKeysError>)
        ensures
            match ohttp_keys_of(s@) {
                Ok(v) => r matches Ok(k) && k@ == v,
                Err(e) => r == Err::<OhttpKeys, ParseOhttpKeysError>(e),
            },
    {
        let (hrp, bytes) = match decode_nochecksum(s) {
            Ok(d) => d,
            Err(_) => return Err(ParseOhttpKeysError::InvalidFormat),
        };
        if !crate::fragment::same_chars(&chars_of(hrp.as_str()), &chars_of("OH")) || bytes.len()
            == 0 {
            return Err(ParseOhttpKeysError::InvalidFormat);
        }
        let key_bytes = tail_bytes(&bytes);
        match HpkePublicKey::from_compressed_bytes(key_bytes.as_slice()) {
            Ok(pubkey) => Ok(OhttpKeys { key_id: bytes[0], pubkey }),
            Err(_) => Err(ParseOhttpKeysError::InvalidPublicKey),
        }
    }

    /// The `OH` text of this configuration: the key identifier, then the
    /// compressed key, encoded without checksum.
    pub fn to_string(&self) -> (r: String)
        ensures
            r@ == nochecksum_encoded("OH"@, seq![self@.0] + self@.1),
            all_upper_alnum(r@),
            "OH"@.push('1').is_prefix_of(r@),
            nochecksum_decoded(r@) == Some(("OH"@, seq![self@.0] + self@.1)),
            ohttp_keys_of(r@) == Ok::<(u8, Seq<u8>), ParseOhttpKeysError>(self@),
    {
        let key = self.pubkey.to_compressed_bytes();
        let mut bytes: Vec<u8> = Vec::new();
        bytes.push(self.key_id);
        let mut i: usize = 0;
        while i < key.len()
            invariant
                i <= key@.len(),
                bytes@ == seq![self.key_id] + key@.subrange(0, i as int),
            decreases key.len() - i,
        {
            bytes.push(key[i]);
            i = i + 1;
            assert(bytes@ =~= seq![self.key_id] + key@.subrange(0, i as int));
        }
        assert(key@.subrange(0, key@.len() as int) =~= key@);
        proof {
            reveal_strlit("OH");
        }
        let r = encode_nochecksum("OH", bytes.as_slice());
        proof {
            crate::codec::lemma_encoded_upper_alnum("OH"@, r@);
            assert((seq![self.key_id] + key@).drop_first() =~= key@);
        }
        r
    }
}

/// Why the relay key configuration cannot be read from a fragment.
#[derive(Debug)]
pub enum ParseOhttpKeysParamError {
    MissingOhttpKeys,
    InvalidOhttpKeys(ParseOhttpKeysError),
    InvalidFragment(ParseFragmentError),
}

impl Endpoint {
    fn get_token(&self, prefix: &str) -> (r: Result<Option<String>, ParseFragmentError>)
        ensures
            r is Ok <==> param_of(self@.fragment, prefix@) is Ok,
            r is Err ==> r->Err_0 == param_of(self@.fragment, prefix@)->Err_0,
            r is Ok ==> crate::fragment::opt_string_view(r->Ok_0) == param_of(
                self@.fragment,
                prefix@,
            )->Ok_0,
    {
        get_param(self.fragment(), prefix)
    }

    fn set_token(&mut self, token: &str)
        requires
            fragment_ok(old(self)@.fragment),
            all_upper_alnum(token@),
        ensures
            sets_token(old(self)@, final(self)@, token@),
    {
        let out = set_param(self.fragment(), token);
        proof {
            lemma_set_param_canonical_delimiter(
                old(self)@.fragment,
                token@,
                crate::fragment::opt_string_view(out),
            );
        }
        self.set_fragment(out);
    }

    /// Reads the session expiry, in seconds since the Unix epoch, from the
    /// `EX` token of the fragment.
    pub fn exp(&self) -> (r: Result<u32, ParseExpParamError>)
        ensures
            match param_of(self@.fragment, "EX1"@) {
                Err(e) => r matches Err(ParseExpParamError::InvalidFragment(x)) && x == e,
                Ok(None) => r matches Err(ParseExpParamError::MissingExp),
                Ok(Some(t)) => match nochecksum_decoded(t) {
                    None => r matches Err(ParseExpParamError::DecodeBech32(_)),
                    Some((h, b)) => if h != "EX"@ {
                        r matches Err(ParseExpParamError::InvalidHrp(x)) && x@ == h
                    } else if b.len() < 4 {
                        r matches Err(ParseExpParamError::InvalidExp)
                    } else {
                        r matches Ok(t) && t as int == u32_from_le(b)
                    },
                },
            },
    {
        let value = match self.get_token("EX1") {
            Err(e) => return Err(ParseExpParamError::InvalidFragment(e)),
            Ok(None) => return Err(ParseExpParamError::MissingExp),
            Ok(Some(v)) => v,
        };
        let (hrp, bytes) = match decode_nochecksum(value.as_str()) {
            Ok(d) => d,
            Err(e) => return Err(ParseExpParamError::DecodeBech32(e)),
        };
        if !crate::fragment::same_chars(&chars_of(hrp.as_str()), &chars_of("EX")) {
            return Err(ParseExpParamError::InvalidHrp(hrp));
        }
        if bytes.len() < 4 {
            return Err(ParseExpParamError::InvalidExp);
        }
        Ok(u32_from_bytes(&bytes))
    }

    /// Sets the session expiry, given in seconds since the Unix epoch; a time
    /// before the epoch is written as the epoch.
    pub fn set_exp(&mut self, secs_since_epoch: i64)
        requires
            fragment_ok(old(self)@.fragment),
            secs_since_epoch <= u32::MAX,
        ensures
            sets_token(
                old(self)@,
                final(self)@,
                nochecksum_encoded("EX"@, u32_le_bytes(expiry_seconds(secs_since_epoch))),
            ),
            param_of(final(self)@.fragment, "EX1"@) matches Ok(Some(t)) && nochecksum_decoded(t)
                == Some(("EX"@, u32_le_bytes(expiry_seconds(secs_since_epoch)))),
    {
        let t: u32 = if secs_since_epoch < 0 {
            0
        } else {
            secs_since_epoch as u32
        };
        let buf = le_bytes(t);
        proof {
            reveal_strlit("EX");
        }
        let token = encode_nochecksum("EX", buf.as_slice());
        proof {
            crate::codec::lemma_encoded_upper_alnum("EX"@, token@);
        }
        self.set_token(token.as_str());
        proof {
            reveal_strlit("EX1");
            assert("EX"@.push('1') =~= "EX1"@);
            lemma_get_after_set(old(self)@.fragment, "EX"@, token@, self@.fragment);
        }
    }

    /// Reads the relay key configuration from the `OH` token of the fragment;
    /// the whole token is its text.
    pub fn ohttp(&self) -> (r: Result<OhttpKeys, ParseOhttpKeysParamError>)
        ensures
            match param_of(self@.fragment, "OH1"@) {
                Err(e) => r matches Err(ParseOhttpKeysParamError::InvalidFragment(x)) && x == e,
                Ok(None) => r matches Err(ParseOhttpKeysParamError::MissingOhttpKeys),
                Ok(Some(t)) => match ohttp_keys_of(t) {
                    Ok(v) => r matches Ok(k) && k@ == v,
                    Err(e) => r matches Err(ParseOhttpKeysParamError::InvalidOhttpKeys(x)) && x == e,
                },
            },
    {
        let value = match self.get_token("OH1") {
            Err(e) => return Err(ParseOhttpKeysParamError::InvalidFragment(e)),
            Ok(None) => return Err(ParseOhttpKeysParamError::MissingOhttpKeys),
            Ok(Some(v)) => v,
        };
        match OhttpKeys::parse(value.as_str()) {
            Ok(k) => Ok(k),
            Err(e) => Err(ParseOhttpKeysParamError::InvalidOhttpKeys(e)),
        }
    }

    /// Sets the relay key configuration.
    pub fn set_ohttp(&mut self, ohttp: &OhttpKeys)
        requires
            fragment_ok(old(self)@.fragment),
        ensures
            sets_token(
                old(self)@,
                final(self)@,
                nochecksum_encoded("OH"@, seq![ohttp@.0] + ohttp@.1),
            ),
            param_of(final(self)@.fragment, "OH1"@) matches Ok(Some(t)) && ohttp_keys_of(t)
                == Ok::<(u8, Seq<u8>), ParseOhttpKeysError>(ohttp@),
    {
        let text = ohttp.to_string();
        self.set_token(text.as_str());
        proof {
            reveal_strlit("OH");
            reveal_strlit("OH1");
            assert("OH"@.push('1') =~= "OH1"@);
            lemma_get_after_set(old(self)@.fragment, "OH"@, text@, self@.fragment);
        }
    }

    /// Reads the receiver's public key from the `RK` token of the fragment.
    pub fn receiver_pubkey(&self) -> (r: Result<HpkePublicKey, ParseReceiverPubkeyParamError>)
        ensures
            match param_of(self@.fragment, "RK1"@) {
                Err(e) => r matches Err(ParseReceiverPubkeyParamError::InvalidFragment(x)) && x == e,
                Ok(None) => r matches Err(ParseReceiverPubkeyParamError::MissingPubkey),
                Ok(Some(t)) => match nochecksum_decoded(t) {
                    None => r matches Err(ParseReceiverPubkeyParamError::DecodeBech32(_)),
                    Some((h, b)) => if h != "RK"@ {
                        r matches Err(ParseReceiverPubkeyParamError::InvalidHrp(x)) && x@ == h
                    } else if b.len() == 33 && is_valid_pubkey(b) {
                        r matches Ok(k) && k@ == b
                    } else {
                        r matches Err(ParseReceiverPubkeyParamError::InvalidPubkey(_))
                    },
                },
            },
    {
        let value = match self.get_token("RK1") {
            Err(e) => return Err(ParseReceiverPubkeyParamError::InvalidFragment(e)),
            Ok(None) => return Err(ParseReceiverPubkeyParamError::MissingPubkey),
            Ok(Some(v)) => v,
        };
        let (hrp, bytes) = match decode_nochecksum(value.as_str()) {
            Ok(d) => d,
            Err(e) => return Err(ParseReceiverPubkeyParamError::DecodeBech32(e)),
        };
        if !crate::fragment::same_chars(&chars_of(hrp.as_str()), &chars_of("RK")) {
            return Err(ParseReceiverPubkeyParamError::InvalidHrp(hrp));
        }
        match HpkePublicKey::from_compressed_bytes(bytes.as_slice()) {
            Ok(k) => Ok(k),
            Err(e) => Err(ParseReceiverPubkeyParamError::InvalidPubkey(e)),
        }
    }

    /// Sets the receiver's public key.
    pub fn set_receiver_pubkey(&mut self, pubkey: &HpkePublicKey)
        requires
            fragment_ok(old(self)@.fragment),
        ensures
            sets_token(old(self)@, final(self)@, nochecksum_encoded("RK"@, pubkey@)),
            param_of(final(self)@.fragment, "RK1"@) matches Ok(Some(t)) && nochecksum_decoded(t)
                == Some(("RK"@, pubkey@)),
            pubkey@.len() == 33 && is_valid_pubkey(pubkey@),
    {
        let bytes = pubkey.to_compressed_bytes();
        proof {
            reveal_strlit("RK");
        }
        let token = encode_nochecksum("RK", bytes.as_slice());
        proof {
            crate::codec::lemma_encoded_upper_alnum("RK"@, token@);
        }
        self.set_token(token.as_str());
        proof {
            reveal_strlit("RK1");
            assert("RK"@.push('1') =~= "RK1"@);
            lemma_get_after_set(old(self)@.fragment, "RK"@, token@, self@.fragment);
        }
    }
}

} // verus!
