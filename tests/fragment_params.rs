use payjoin_uri::endpoint::{parse_with_fragment, BadEndpointError, Endpoint};
use payjoin_uri::fragment::{check_fragment_delimiter, get_param, set_param, ParseFragmentError};
use payjoin_uri::params::{
    HpkePublicKey, OhttpKeys, ParseExpParamError, ParseOhttpKeysError, ParseOhttpKeysParamError,
    ParseReceiverPubkeyParamError,
};
use payjoin_uri::uri::{DeserializationState, MaybePayjoinExtras, PayjoinExtras, PjParseError};

const OHTTP: &str = "OH1QYPM5JXYNS754Y4R45QWE336QFX6ZR8DQGVQCULVZTV20TFVEYDMFQC";

fn example_url() -> Endpoint {
    Endpoint::parse("https://example.com").unwrap()
}

fn pj_extras(params: &[(&str, &str)]) -> Result<PayjoinExtras, PjParseError> {
    let mut state = DeserializationState::new();
    for (key, value) in params {
        state.deserialize_temp(key, value.as_bytes())?;
    }
    match state.finalize()? {
        MaybePayjoinExtras::Supported(extras) => Ok(extras),
        MaybePayjoinExtras::Unsupported => panic!("Expected Supported PayjoinExtras"),
    }
}

#[test]
fn test_ohttp_get_set() {
    let mut url = example_url();

    let serialized = OHTTP;
    let ohttp_keys = OhttpKeys::parse(serialized).unwrap();
    url.set_ohttp(&ohttp_keys);

    assert_eq!(url.fragment(), Some(serialized));
    assert_eq!(url.ohttp().expect("Ohttp keys have been set but are missing on get"), ohttp_keys);
}

#[test]
fn test_errors_when_parsing_ohttp() {
    let missing_ohttp_url = example_url();
    assert!(matches!(missing_ohttp_url.ohttp(), Err(ParseOhttpKeysParamError::MissingOhttpKeys)));

    let invalid_ohttp_url =
        Endpoint::parse("https://example.com?pj=https://test-payjoin-url#OH1invalid_bech_32").unwrap();
    assert!(matches!(invalid_ohttp_url.ohttp(), Err(ParseOhttpKeysParamError::InvalidFragment(_))));
}

#[test]
fn test_exp_get_set() {
    let mut url = example_url();

    let exp_time: u32 = 1720547781;
    url.set_exp(exp_time as i64);
    assert_eq!(url.fragment(), Some("EX1C4UC6ES"));

    assert_eq!(url.exp().expect("Expiry has been set but is missing on get"), exp_time);
}

#[test]
fn test_errors_when_parsing_exp() {
    let missing_exp_url = example_url();
    assert!(matches!(missing_exp_url.exp(), Err(ParseExpParamError::MissingExp)));

    let invalid_fragment_exp_url =
        Endpoint::parse("http://example.com?pj=https://test-payjoin-url#EX1invalid_bech_32").unwrap();
    assert!(matches!(invalid_fragment_exp_url.exp(), Err(ParseExpParamError::InvalidFragment(_))));

    let invalid_bech32_exp_url =
        Endpoint::parse("http://example.com?pj=https://test-payjoin-url#EX1INVALIDBECH32").unwrap();
    assert!(matches!(invalid_bech32_exp_url.exp(), Err(ParseExpParamError::DecodeBech32(_))));

    // The human-readable part ends at the last separator, so it reads EX10 here.
    let invalid_hrp_exp_url =
        Endpoint::parse("http://example.com?pj=https://test-payjoin-url#EX1010").unwrap();
    assert!(matches!(invalid_hrp_exp_url.exp(), Err(ParseExpParamError::InvalidHrp(_))));

    // Not enough data for four bytes.
    let invalid_timestamp_exp_url =
        Endpoint::parse("http://example.com?pj=https://test-payjoin-url#EX10").unwrap();
    assert!(matches!(invalid_timestamp_exp_url.exp(), Err(ParseExpParamError::InvalidExp)));
}

#[test]
fn test_errors_when_parsing_receiver_pubkey() {
    let missing_receiver_pubkey_url = example_url();
    assert!(matches!(
        missing_receiver_pubkey_url.receiver_pubkey(),
        Err(ParseReceiverPubkeyParamError::MissingPubkey)
    ));

    let invalid_fragment_receiver_pubkey_url =
        Endpoint::parse("http://example.com?pj=https://test-payjoin-url#RK1invalid_bech_32").unwrap();
    assert!(matches!(
        invalid_fragment_receiver_pubkey_url.receiver_pubkey(),
        Err(ParseReceiverPubkeyParamError::InvalidFragment(_))
    ));

    let invalid_bech32_receiver_pubkey_url =
        Endpoint::parse("http://example.com?pj=https://test-payjoin-url#RK1INVALIDBECH32").unwrap();
    assert!(matches!(
        invalid_bech32_receiver_pubkey_url.receiver_pubkey(),
        Err(ParseReceiverPubkeyParamError::DecodeBech32(_))
    ));

    let invalid_hrp_receiver_pubkey_url =
        Endpoint::parse("http://example.com?pj=https://test-payjoin-url#RK101").unwrap();
    assert!(matches!(
        invalid_hrp_receiver_pubkey_url.receiver_pubkey(),
        Err(ParseReceiverPubkeyParamError::InvalidHrp(_))
    ));

    let invalid_receiver_pubkey_url =
        Endpoint::parse("http://example.com?pj=https://test-payjoin-url#RK10").unwrap();
    assert!(matches!(
        invalid_receiver_pubkey_url.receiver_pubkey(),
        Err(ParseReceiverPubkeyParamError::InvalidPubkey(_))
    ));
}

#[test]
fn test_valid_v2_url_fragment_on_bip21() {
    let pj = format!("HTTPS://EXAMPLE.COM/#{OHTTP}");
    let pjuri = pj_extras(&[("amount", "0.01"), ("pjos", "0"), ("pj", &pj)]).unwrap();
    assert!(pjuri.endpoint().ohttp().is_ok());
    let params = pjuri.serialize_params();
    assert_eq!(params[0].0, "pjos");
    assert_eq!(params[0].1, "0");
    assert_eq!(params[1].0, "pj");
    assert_eq!(params[1].1, pj);

    let pjuri = pj_extras(&[("amount", "0.01"), ("pj", &pj), ("pjos", "0")]).unwrap();
    assert!(pjuri.endpoint().ohttp().is_ok());
    let reordered = pjuri.serialize_params();
    assert_eq!(reordered, params);
}

#[test]
fn test_failed_url_fragment() {
    let lower = "HTTPS://EXAMPLE.COM/#oh1qypm5jxyns754y4r45qwe336qfx6zr8dqgvqculvztv20tfveydmfqc";
    let r = pj_extras(&[("amount", "0.01"), ("pjos", "0"), ("pj", lower)]);
    assert!(r.is_err(), "Expected url fragment failure, but it succeeded");
    assert!(matches!(r, Err(PjParseError::BadEndpoint(BadEndpointError::LowercaseFragment))));

    let one_lower = "HTTPS://EXAMPLE.COM/#OH1QYPM5JXYNS754Y4R45QWE336QFX6ZR8DQGVQCULVZTV20TFVEYDMFQc";
    let r = pj_extras(&[("amount", "0.01"), ("pjos", "0"), ("pj", one_lower)]);
    assert!(r.is_err(), "Expected url fragment failure, but it succeeded");
    assert!(matches!(r, Err(PjParseError::BadEndpoint(BadEndpointError::LowercaseFragment))));
}

#[test]
fn test_fragment_delimiter_backwards_compatibility() {
    let pj = format!("HTTPS://EXAMPLE.COM/#EX1C4UC6ES+{OHTTP}");
    let pjuri = pj_extras(&[("amount", "0.01"), ("pjos", "0"), ("pj", &pj)]).unwrap();

    let mut endpoint = Endpoint::parse(&pjuri.endpoint().as_str()).unwrap();
    assert!(endpoint.ohttp().is_ok());
    assert!(endpoint.exp().is_ok());

    // Before setting, the delimiter is preserved.
    assert_eq!(endpoint.fragment(), Some(format!("EX1C4UC6ES+{OHTTP}").as_str()));

    // Setting any value normalises the delimiter to `-`.
    endpoint.set_exp(pjuri.endpoint().exp().unwrap() as i64);
    assert_eq!(endpoint.fragment(), Some(format!("EX1C4UC6ES-{OHTTP}").as_str()));
}

#[test]
fn test_fragment_lexicographical_order() {
    let pj = format!("HTTPS://EXAMPLE.COM/#{OHTTP}-EX1C4UC6ES");
    let pjuri = pj_extras(&[("amount", "0.01"), ("pjos", "0"), ("pj", &pj)]).unwrap();

    let mut endpoint = Endpoint::parse(&pjuri.endpoint().as_str()).unwrap();
    assert!(endpoint.ohttp().is_ok());
    assert!(endpoint.exp().is_ok());

    assert_eq!(endpoint.fragment(), Some(format!("{OHTTP}-EX1C4UC6ES").as_str()));

    // Setting any value sorts the parameters.
    endpoint.set_exp(pjuri.endpoint().exp().unwrap() as i64);
    assert_eq!(endpoint.fragment(), Some(format!("EX1C4UC6ES-{OHTTP}").as_str()));
}

#[test]
fn test_fragment_mixed_delimiter() {
    // Mixing the current and the deprecated delimiter fails.
    let fragment = "23RK1QG2RH36X9ZWRK7UWCCQE0WD8T89XKK2W55KTK9UHSZLEG8Q2TGEGG-OH1QYP87E2AVMDKXDTU6R25WCPQ5ZUF02XHNPA65JMD8ZA2W4YRQN6UUWG+EX1XPK8Y6Q";
    assert!(matches!(check_fragment_delimiter(fragment), Err(ParseFragmentError::AmbiguousDelimiter)));
}

#[test]
fn delimiter_cases() {
    assert_eq!(check_fragment_delimiter(""), Ok('-'));
    assert_eq!(check_fragment_delimiter("EX1A"), Ok('-'));
    assert_eq!(check_fragment_delimiter("EX1A-RK1B"), Ok('-'));
    assert_eq!(check_fragment_delimiter("EX1A+RK1B"), Ok('+'));
    assert_eq!(check_fragment_delimiter("EX1a"), Err(ParseFragmentError::InvalidChar('a')));
    assert_eq!(check_fragment_delimiter("EX1A_b"), Err(ParseFragmentError::InvalidChar('_')));
    assert_eq!(check_fragment_delimiter("A-B+c"), Err(ParseFragmentError::InvalidChar('c')));
}

#[test]
fn mixed_delimiters_fail_every_read() {
    let e = Endpoint::parse("https://example.com/#EX1C4UC6ES-RK1Q+OH1Q").unwrap();
    assert!(matches!(e.exp(), Err(ParseExpParamError::InvalidFragment(ParseFragmentError::AmbiguousDelimiter))));
    assert!(matches!(
        e.receiver_pubkey(),
        Err(ParseReceiverPubkeyParamError::InvalidFragment(ParseFragmentError::AmbiguousDelimiter))
    ));
    assert!(matches!(
        e.ohttp(),
        Err(ParseOhttpKeysParamError::InvalidFragment(ParseFragmentError::AmbiguousDelimiter))
    ));
    assert_eq!(get_param(Some("A1-B1+C1"), "A1"), Err(ParseFragmentError::AmbiguousDelimiter));
}

#[test]
fn get_param_finds_first_prefixed_token() {
    assert_eq!(get_param(None, "EX1"), Ok(None));
    assert_eq!(get_param(Some(""), "EX1"), Ok(None));
    assert_eq!(get_param(Some("RK1X-EX1AB-EX1CD"), "EX1"), Ok(Some("EX1AB".to_string())));
    assert_eq!(get_param(Some("RK1X+EX1AB"), "EX1"), Ok(Some("EX1AB".to_string())));
    assert_eq!(get_param(Some("RK1X"), "EX1"), Ok(None));
}

#[test]
fn set_param_sorts_replaces_and_upgrades() {
    assert_eq!(set_param(None, "EX1AB"), Some("EX1AB".to_string()));
    assert_eq!(set_param(Some("RK1X+EX1AB"), "OH1Z"), Some("EX1AB-OH1Z-RK1X".to_string()));
    assert_eq!(set_param(Some("RK1X-EX1AB"), "EX1CD"), Some("EX1CD-RK1X".to_string()));
    assert_eq!(set_param(Some("RK1X--EX1AB"), "EX1CD"), Some("EX1CD-RK1X".to_string()));
    assert_eq!(set_param(Some("ZZ"), "EX1CD"), Some("EX1CD-ZZ".to_string()));
}

#[test]
fn writing_in_any_order_or_twice_gives_one_text() {
    let keys = OhttpKeys::parse(OHTTP).unwrap();
    let mut a = example_url();
    a.set_exp(1720547781);
    a.set_ohttp(&keys);
    let mut b = example_url();
    b.set_ohttp(&keys);
    b.set_exp(1720547781);
    b.set_exp(1720547781);
    assert_eq!(a.fragment(), b.fragment());
    assert_eq!(a.fragment(), Some(format!("EX1C4UC6ES-{OHTTP}").as_str()));
}

#[test]
fn expiry_before_epoch_is_epoch() {
    let mut url = example_url();
    url.set_exp(-5);
    assert_eq!(url.exp().unwrap(), 0);
    url.set_exp(0);
    assert_eq!(url.exp().unwrap(), 0);
}

#[test]
fn exp_example_vector_decodes() {
    let e = Endpoint::parse("https://example.com/#EX1C4UC6ES").unwrap();
    assert_eq!(e.exp().unwrap(), 1720547781);
}

const GENERATOR: [u8; 33] = [
    0x02, 0x79, 0xbe, 0x66, 0x7e, 0xf9, 0xdc, 0xbb, 0xac, 0x55, 0xa0, 0x62, 0x95, 0xce, 0x87, 0x0b,
    0x07, 0x02, 0x9b, 0xfc, 0xdb, 0x2d, 0xce, 0x28, 0xd9, 0x59, 0xf2, 0x81, 0x5b, 0x16, 0xf8, 0x17,
    0x98,
];

#[test]
fn receiver_pubkey_round_trips() {
    let pk = HpkePublicKey::from_compressed_bytes(&GENERATOR).unwrap();
    let mut url = example_url();
    url.set_exp(1720547781);
    url.set_receiver_pubkey(&pk);
    let frag = url.fragment().unwrap().to_string();
    assert!(frag.starts_with("EX1C4UC6ES-RK1"));
    assert_eq!(url.receiver_pubkey().unwrap(), pk);
    assert_eq!(url.receiver_pubkey().unwrap().to_compressed_bytes(), GENERATOR.to_vec());
    assert_eq!(url.exp().unwrap(), 1720547781);
}

#[test]
fn ohttp_keys_text_round_trips() {
    let keys = OhttpKeys::parse(OHTTP).unwrap();
    assert_eq!(keys.to_string(), OHTTP);
}

#[test]
fn pubkey_validation() {
    assert!(HpkePublicKey::from_compressed_bytes(&[]).is_err());
    assert!(HpkePublicKey::from_compressed_bytes(&[0u8; 33]).is_err());
    let g = GENERATOR;
    assert!(HpkePublicKey::from_compressed_bytes(&g).is_ok());
    assert!(HpkePublicKey::from_compressed_bytes(&g[..32]).is_err());
}

#[test]
fn ohttp_keys_errors() {
    assert_eq!(OhttpKeys::parse("EX1C4UC6ES"), Err(ParseOhttpKeysError::InvalidFormat));
    assert_eq!(OhttpKeys::parse("OH1IB"), Err(ParseOhttpKeysError::InvalidFormat));
    assert_eq!(OhttpKeys::parse("OH1C4UC6ES"), Err(ParseOhttpKeysError::InvalidPublicKey));
}

#[test]
fn lowercase_fragment_refused_at_parse() {
    assert!(matches!(parse_with_fragment("https://example.com/#EX1c"), Err(BadEndpointError::LowercaseFragment)));
    assert!(parse_with_fragment("https://example.com/#EX1C").is_ok());
    assert!(parse_with_fragment("https://example.com/").is_ok());
    assert!(matches!(parse_with_fragment("not a url"), Err(BadEndpointError::UrlParse(_))));
}

#[test]
fn error_messages() {
    assert_eq!(ParseFragmentError::InvalidChar('a').message(), "invalid character: a (must be uppercase)");
    assert_eq!(
        ParseFragmentError::AmbiguousDelimiter.message(),
        "ambiguous fragment delimiter (both + and - found)"
    );
    assert_eq!(ParseOhttpKeysParamError::MissingOhttpKeys.message(), "ohttp keys are missing");
    assert_eq!(
        ParseOhttpKeysParamError::InvalidOhttpKeys(ParseOhttpKeysError::InvalidPublicKey).message(),
        "invalid ohttp keys: invalid public key"
    );
    assert_eq!(
        ParseExpParamError::InvalidFragment(ParseFragmentError::AmbiguousDelimiter).message(),
        "invalid URL fragment: ambiguous fragment delimiter (both + and - found)"
    );
    assert_eq!(ParseExpParamError::MissingExp.message(), "exp is missing");
    assert_eq!(ParseExpParamError::InvalidHrp("EX10".to_string()).message(), "incorrect hrp for exp: EX10");
    let e = Endpoint::parse("https://example.com/#EX1INVALIDBECH32").unwrap();
    let m = e.exp().unwrap_err().message();
    assert!(m.starts_with("exp is not valid bech32: ") && m.len() > "exp is not valid bech32: ".len());
    let e = Endpoint::parse("https://example.com/#RK10").unwrap();
    assert_eq!(
        e.receiver_pubkey().unwrap_err().message(),
        "receiver public key does not represent a valid pubkey: not a compressed secp256k1 public key"
    );
    assert_eq!(ParseReceiverPubkeyParamError::MissingPubkey.message(), "receiver public key is missing");
}
