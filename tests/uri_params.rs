use payjoin_uri::endpoint::{BadEndpointError, Endpoint};
use payjoin_uri::uri::{
    DeserializationState, MaybePayjoinExtras, OutputSubstitution, ParamKind, PayjoinExtras,
    PjParseError,
};

const OHTTP_PJ: &str = "HTTPS://EXAMPLE.COM/#OH1QYPM5JXYNS754Y4R45QWE336QFX6ZR8DQGVQCULVZTV20TFVEYDMFQC";

fn read(params: &[(&str, &str)]) -> Result<MaybePayjoinExtras, PjParseError> {
    let mut state = DeserializationState::new();
    for (key, value) in params {
        state.deserialize_temp(key, value.as_bytes())?;
    }
    state.finalize()
}

fn supported(params: &[(&str, &str)]) -> PayjoinExtras {
    match read(params) {
        Ok(MaybePayjoinExtras::Supported(extras)) => extras,
        Ok(MaybePayjoinExtras::Unsupported) => panic!("Expected Supported PayjoinExtras"),
        Err(e) => panic!("unexpected error: {e:?}"),
    }
}

#[test]
fn test_valid_url() {
    assert!(read(&[("amount", "1"), ("pj", "this_is_NOT_a_validURL")]).is_err(), "pj is not a valid url");
    assert!(matches!(
        read(&[("pj", "this_is_NOT_a_validURL")]),
        Err(PjParseError::BadEndpoint(BadEndpointError::UrlParse(_)))
    ));
}

#[test]
fn test_missing_amount() {
    assert!(
        read(&[("pj", "https://testnet.demo.btcpayserver.org/BTC/pj")]).is_ok(),
        "missing amount should be ok"
    );
}

#[test]
fn test_unencrypted() {
    assert!(
        matches!(read(&[("amount", "1"), ("pj", "http://example.com")]), Err(PjParseError::UnsecureEndpoint)),
        "unencrypted connection"
    );
    assert!(
        matches!(read(&[("amount", "1"), ("pj", "ftp://foo.onion")]), Err(PjParseError::UnsecureEndpoint)),
        "unencrypted connection"
    );
}

#[test]
fn test_valid_uris() {
    let https = "https://example.com";
    let onion = "http://vjdpwgybvubne5hda6v4c5iaeeevhge6jvo3w2cl6eocbwwvwxp7b7qd.onion";
    for pj in [https, onion].iter() {
        assert!(read(&[("amount", "1"), ("pj", pj)]).is_ok());
        assert!(read(&[("pj", pj)]).is_ok());
        assert!(read(&[("pj", pj), ("amount", "1")]).is_ok());
    }
}

#[test]
fn test_unsupported() {
    assert!(
        !read(&[]).unwrap().pj_is_supported(),
        "Uri expected a failure with missing pj extras, but it succeeded"
    );
    assert!(!read(&[("amount", "1"), ("label", "x")]).unwrap().pj_is_supported());
}

#[test]
fn test_supported() {
    assert!(
        read(&[("amount", "0.01"), ("pjos", "0"), ("pj", OHTTP_PJ)]).unwrap().pj_is_supported(),
        "Uri expected a success with a well formatted pj extras, but it failed"
    );
}

#[test]
fn test_pj_param_unknown() {
    let pjuri = read(&[("pjos", "1"), ("pj", OHTTP_PJ)]).unwrap();
    let serialized_params = pjuri.serialize_params();
    let pjos_key = serialized_params.first().expect("Missing pjos key").0;
    let pj_key = serialized_params.first().expect("Missing pj key").0;

    let state = DeserializationState::default();

    assert!(state.is_param_known(pjos_key), "The pjos key should match 'pjos', but it failed");
    assert!(state.is_param_known(pj_key), "The pj key should match 'pj', but it failed");
    assert!(!state.is_param_known("unknown_param"), "An unknown_param should not match 'pj' or 'pjos'");
    assert!(state.is_param_known("pjos"));
    assert!(!state.is_param_known("PJ"));
}

#[test]
fn test_pj_duplicate_params() {
    let pjuri = read(&[("pjos", "1"), ("pjos", "1"), ("pj", OHTTP_PJ)]);
    assert!(matches!(pjuri, Err(PjParseError::DuplicateParams("pjos"))));
    let pjuri = read(&[("pjos", "1"), ("pj", OHTTP_PJ), ("pj", OHTTP_PJ)]);
    assert!(matches!(pjuri, Err(PjParseError::DuplicateParams("pj"))));
}

#[test]
fn test_serialize_pjos() {
    let disabled = supported(&[("pj", OHTTP_PJ), ("pjos", "0")]);
    let params = disabled.serialize_params();
    assert!(
        params.iter().any(|(k, v)| *k == "pjos" && v == "0"),
        "Pj uri should contain param: pjos=0, but it did not"
    );

    let enabled = supported(&[("pj", OHTTP_PJ)]);
    let params = enabled.serialize_params();
    assert!(
        !params.iter().any(|(k, v)| *k == "pjos" && v == "1"),
        "Pj uri should elide param: pjos=1, but it did not"
    );
    assert_eq!(params.len(), 1);
}

#[test]
fn test_deserialize_pjos() {
    let extras = supported(&[("pj", "https://example.com"), ("pjos", "0")]);
    assert_eq!(extras.output_substitution(), OutputSubstitution::Disabled);

    let extras = supported(&[("pj", "https://example.com"), ("pjos", "1")]);
    assert_eq!(extras.output_substitution(), OutputSubstitution::Enabled);

    let extras = supported(&[("pj", "https://example.com")]);
    assert_eq!(extras.output_substitution(), OutputSubstitution::Enabled);
}

#[test]
fn secure_endpoints_are_accepted() {
    assert!(read(&[("pj", "https://example.com")]).unwrap().pj_is_supported());
    assert!(read(&[("pj", "http://x.onion")]).unwrap().pj_is_supported());
    assert!(matches!(read(&[("pj", "http://example.com")]), Err(PjParseError::UnsecureEndpoint)));
    assert!(matches!(read(&[("pj", "ftp://x.onion")]), Err(PjParseError::UnsecureEndpoint)));
    assert!(matches!(read(&[("pj", "http://onion.example.com")]), Err(PjParseError::UnsecureEndpoint)));
}

#[test]
fn distinct_pj_values_are_duplicates() {
    let r = read(&[("pj", "https://a.example.com"), ("pj", "https://b.example.com")]);
    assert!(matches!(r, Err(PjParseError::DuplicateParams("pj"))));
}

#[test]
fn pjos_without_pj_is_missing_endpoint() {
    assert!(matches!(read(&[("pjos", "0")]), Err(PjParseError::MissingEndpoint)));
}

#[test]
fn bad_pjos_values_are_refused() {
    assert!(matches!(read(&[("pj", "https://example.com"), ("pjos", "2")]), Err(PjParseError::BadPjOs)));
    assert!(matches!(read(&[("pj", "https://example.com"), ("pjos", "")]), Err(PjParseError::BadPjOs)));
    assert!(matches!(read(&[("pj", "https://example.com"), ("pjos", "00")]), Err(PjParseError::BadPjOs)));
    let mut state = DeserializationState::new();
    assert!(matches!(state.deserialize_temp("pjos", &[0xff]), Err(PjParseError::BadPjOs)));
}

#[test]
fn pj_that_is_not_utf8_is_refused() {
    let mut state = DeserializationState::new();
    assert!(matches!(state.deserialize_temp("pj", &[0x68, 0xff]), Err(PjParseError::NotUtf8)));
}

#[test]
fn keys_are_case_sensitive() {
    let mut state = DeserializationState::new();
    assert!(matches!(state.deserialize_temp("PJ", b"https://example.com"), Ok(ParamKind::Unknown)));
    assert!(matches!(state.deserialize_temp("pj", b"https://example.com"), Ok(ParamKind::Known)));
}

#[test]
fn default_policy_round_trips() {
    let extras = supported(&[("pj", "https://example.com")]);
    assert_eq!(extras.output_substitution(), OutputSubstitution::Enabled);
    let params = extras.serialize_params();
    assert_eq!(params.len(), 1);
    assert_eq!(params[0].0, "pj");
    assert_eq!(params[0].1, "HTTPS://EXAMPLE.COM/");
    let again = supported(&[(params[0].0, params[0].1.as_str())]);
    assert_eq!(again.output_substitution(), OutputSubstitution::Enabled);
    assert_eq!(again.endpoint().as_str(), extras.endpoint().as_str());
}

#[test]
fn disabled_policy_round_trips() {
    let extras = supported(&[("pjos", "0"), ("pj", OHTTP_PJ)]);
    let params = extras.serialize_params();
    let borrowed: Vec<(&str, &str)> = params.iter().map(|(k, v)| (*k, v.as_str())).collect();
    assert_eq!(borrowed, vec![("pjos", "0"), ("pj", OHTTP_PJ)]);
    let again = supported(&borrowed);
    assert_eq!(again.output_substitution(), OutputSubstitution::Disabled);
    assert_eq!(again.endpoint().as_str(), extras.endpoint().as_str());
}

#[test]
fn serialization_upper_cases_scheme_and_host_only() {
    let extras = supported(&[("pj", "https://example.com/path/pj?x=y")]);
    let params = extras.serialize_params();
    assert_eq!(params[0].1, "HTTPS://EXAMPLE.COM/path/pj?x=y");
    let onion = supported(&[("pj", "http://abc.onion/https")]);
    assert_eq!(onion.serialize_params()[0].1, "HTTP://ABC.ONION/https");
}

#[test]
fn unsupported_serializes_nothing() {
    assert!(read(&[]).unwrap().serialize_params().is_empty());
}

#[test]
fn endpoint_parts_are_read() {
    let e = Endpoint::parse("HTTPS://Example.COM/a?b#C").unwrap();
    assert_eq!(e.scheme(), "https");
    assert_eq!(e.host_str(), Some("example.com"));
    assert_eq!(e.domain(), Some("example.com"));
    assert_eq!(e.fragment(), Some("C"));
    assert_eq!(e.as_str(), "https://example.com/a?b#C");
    let ip = Endpoint::parse("https://127.0.0.1/").unwrap();
    assert_eq!(ip.domain(), None);
}
