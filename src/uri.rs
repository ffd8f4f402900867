//! The `pj` and `pjos` query parameters: reading them one at a time,
//! deciding once all are read, and writing them back.

use vstd::prelude::*;

use crate::codec::utf8_text;
use crate::codec::url_parts;
use crate::endpoint::{
    fragment_has_lowercase, parse_with_fragment, view_of_parts, BadEndpointError, Endpoint,
    EndpointView,
};
use vstd::utf8::{decode_utf8, encode_utf8, valid_utf8};
use crate::fragment::same_chars;
use crate::text::{chars_of, string_of};

verus! {

/// Whether the receiver may substitute the payment output.
#[derive(Debug, Clone, Copy, PartialEq, Eq, Structural)]
pub enum OutputSubstitution {
    Enabled,
    Disabled,
}

/// Validated payjoin parameters: an endpoint reached over a secure
/// transport, and the output substitution policy.
pub struct PayjoinExtras {
    endpoint: Endpoint,
    output_substitution: OutputSubstitution,
}

/// What [`PayjoinExtras`] holds.
pub ghost struct PayjoinExtrasView {
    pub endpoint: EndpointView,
    pub output_substitution: OutputSubstitution,
}

impl View for PayjoinExtras {
    type V = PayjoinExtrasView;

    closed spec fn view(&self) -> PayjoinExtrasView {
        PayjoinExtrasView {
            endpoint: self.endpoint@,
            output_substitution: self.output_substitution,
        }
    }
}

/// The payjoin parameters of a payment URI, where it has them.
pub enum MaybePayjoinExtras {
    Supported(PayjoinExtras),
    Unsupported,
}

/// Whether a query parameter was one of this library's.
#[derive(Debug, Clone, Copy, PartialEq, Eq, Structural)]
pub enum ParamKind {
    Known,
    Unknown,
}

/// Why the payjoin parameters of a URI were refused.
#[derive(Debug)]
pub enum PjParseError {
    /// The `pj` value is not UTF-8.
    NotUtf8,
    /// The `pjos` value is neither `0` nor `1`.
    BadPjOs,
    /// A parameter given twice.
    DuplicateParams(&'static str),
    /// `pjos` without `pj`.
    MissingEndpoint,
    BadEndpoint(BadEndpointError),
    /// Neither `https`, nor `http` to an onion domain.
    UnsecureEndpoint,
}

/// The text `s` ends with `p`.
pub open spec fn ends_with(s: Seq<char>, p: Seq<char>) -> bool {
    p.len() <= s.len() && s.subrange(s.len() - p.len(), s.len() as int) == p
}

/// The transport-security rule: `https`, or `http` to a `.onion` domain.
pub open spec fn is_secure(e: EndpointView) -> bool {
    e.scheme == "https"@ || (e.scheme == "http"@ && match e.domain {
        Some(d) => ends_with(d, ".onion"@),
        None => false,
    })
}

/// The policy that a `pjos` value names: `0` disables, `1` enables.
pub open spec fn pjos_of(text: Seq<char>) -> Option<OutputSubstitution> {
    if text == "0"@ {
        Some(OutputSubstitution::Disabled)
    } else if text == "1"@ {
        Some(OutputSubstitution::Enabled)
    } else {
        None
    }
}

/// The endpoint that a `pj` text gives: the URL it parses to, where its
/// fragment holds no lower-case letter.
pub open spec fn parsed_pj(text: Seq<char>) -> Option<EndpointView> {
    match url_parts(text) {
        None => None,
        Some(p) => if fragment_has_lowercase(view_of_parts(p)) {
            None
        } else {
            Some(view_of_parts(p))
        },
    }
}

/// The state after reading one query parameter, or `None` where it is
/// refused: `pj` and `pjos` once each, `pj` a UTF-8 text that parses,
/// `pjos` the text `0` or `1`; other keys leave the state as it is.
pub open spec fn temp_step(st: StateView, key: Seq<char>, value: Seq<u8>) -> Option<StateView> {
    if key == "pj"@ {
        if st.pj is Some || !valid_utf8(value) {
            None
        } else {
            match parsed_pj(decode_utf8(value)) {
                Some(e) => Some(StateView { pj: Some(e), ..st }),
                None => None,
            }
        }
    } else if key == "pjos"@ {
        if st.pjos is Some || !valid_utf8(value) || pjos_of(decode_utf8(value)) is None {
            None
        } else {
            Some(StateView { pjos: pjos_of(decode_utf8(value)), ..st })
        }
    } else {
        Some(st)
    }
}

/// The payjoin parameters that the state holds once all are read, or
/// `None` where the URI has none; the error case is `Err(())`.
pub open spec fn finalized(
    pj: Option<EndpointView>,
    pjos: Option<OutputSubstitution>,
) -> Result<Option<PayjoinExtrasView>, ()> {
    match pj {
        None => match pjos {
            None => Ok(None),
            Some(_) => Err(()),
        },
        Some(e) => if is_secure(e) {
            Ok(
                Some(
                    PayjoinExtrasView {
                        endpoint: e,
                        output_substitution: match pjos {
                            Some(os) => os,
                            None => OutputSubstitution::Enabled,
                        },
                    },
                ),
            )
        } else {
            Err(())
        },
    }
}

/// The parameters read so far.
pub struct DeserializationState {
    pj: Option<Endpoint>,
    pjos: Option<OutputSubstitution>,
}

/// What a [`DeserializationState`] holds.
pub ghost struct StateView {
    pub pj: Option<EndpointView>,
    pub pjos: Option<OutputSubstitution>,
}

impl View for DeserializationState {
    type V = StateView;

    closed spec fn view(&self) -> StateView {
        StateView {
            pj: match self.pj {
                Some(e) => Some(e@),
                None => None,
            },
            pjos: self.pjos,
        }
    }
}

fn text_is(s: &str, lit: &str) -> (r: bool)
    ensures
        r == (s@ == lit@),
{
    same_chars(&chars_of(s), &chars_of(lit))
}

fn ends_with_exec(s: &str, p: &str) -> (r: bool)
    ensures
        r == ends_with(s@, p@),
{
    let sv = chars_of(s);
    let pv = chars_of(p);
    if pv.len() > sv.len() {
        return false;
    }
    let off = sv.len() - pv.len();
    let mut i: usize = 0;
    while i < pv.len()
        invariant
            sv@ == s@,
            pv@ == p@,
            off as int + pv@.len() == sv@.len(),
            sv@.len() == sv.len(),
            i <= pv@.len(),
            forall|j: int| 0 <= j < i ==> sv@[off + j] == pv@[j],
        decreases pv.len() - i,
    {
        if sv[off + i] != pv[i] {
            assert(sv@.subrange(off as int, sv@.len() as int)[i as int] != pv@[i as int]);
            return false;
        }
        i = i + 1;
    }
    assert(sv@.subrange(off as int, sv@.len() as int) =~= pv@);
    true
}

impl Default for DeserializationState {
    fn default() -> (r: DeserializationState)
        ensures
            r@.pj is None,
            r@.pjos is None,
    {
        DeserializationState { pj: None, pjos: None }
    }
}

impl DeserializationState {
    /// A state that has read no parameter.
    pub fn new() -> (r: DeserializationState)
        ensures
            r@.pj is None,
            r@.pjos is None,
    {
        DeserializationState { pj: None, pjos: None }
    }

    /// Whether a query key is one of this library's: `pj` or `pjos`,
    /// matched case-sensitively.
    pub fn is_param_known(&self, param: &str) -> (r: bool)
        ensures
            r == (param@ == "pj"@ || param@ == "pjos"@),
    {
        text_is(param, "pj") || text_is(param, "pjos")
    }

    /// Reads one query parameter, given with its percent-decoded value.
    pub fn deserialize_temp(&mut self, key: &str, value: &[u8]) -> (r: Result<
        ParamKind,
        PjParseError,
    >)
        ensures
            r is Ok <==> temp_step(old(self)@, key@, value@) is Some,
            r is Ok ==> final(self)@ == temp_step(old(self)@, key@, value@)->Some_0 && (r->Ok_0
                == ParamKind::Known <==> (key@ == "pj"@ || key@ == "pjos"@)),
            r is Err ==> final(self)@ == old(self)@,
            key@ == "pj"@ ==> if old(self)@.pj is Some {
                r matches Err(PjParseError::DuplicateParams(k)) && k@ == "pj"@
            } else if !valid_utf8(value@) {
                r matches Err(PjParseError::NotUtf8)
            } else {
                match url_parts(decode_utf8(value@)) {
                    None => r matches Err(PjParseError::BadEndpoint(BadEndpointError::UrlParse(_))),
                    Some(p) => fragment_has_lowercase(view_of_parts(p)) ==> r matches Err(
                        PjParseError::BadEndpoint(BadEndpointError::LowercaseFragment),
                    ),
                }
            },
            key@ == "pjos"@ ==> if old(self)@.pjos is Some {
                r matches Err(PjParseError::DuplicateParams(k)) && k@ == "pjos"@
            } else {
                r is Err ==> r matches Err(PjParseError::BadPjOs)
            },
    {
        proof {
            reveal_strlit("pj");
            reveal_strlit("pjos");
            assert("pj"@.len() != "pjos"@.len());
        }
        if text_is(key, "pj") {
            if self.pj.is_some() {
                return Err(PjParseError::DuplicateParams("pj"));
            }
            let text = match utf8_text(value) {
                Some(t) => t,
                None => return Err(PjParseError::NotUtf8),
            };
            match parse_with_fragment(text.as_str()) {
                Ok(e) => {
                    self.pj = Some(e);
                    Ok(ParamKind::Known)
                },
                Err(e) => Err(PjParseError::BadEndpoint(e)),
            }
        } else if text_is(key, "pjos") {
            if self.pjos.is_some() {
                return Err(PjParseError::DuplicateParams("pjos"));
            }
            let text = match utf8_text(value) {
                Some(t) => t,
                None => return Err(PjParseError::BadPjOs),
            };
            if text_is(text.as_str(), "0") {
                self.pjos = Some(OutputSubstitution::Disabled);
                Ok(ParamKind::Known)
            } else if text_is(text.as_str(), "1") {
                self.pjos = Some(OutputSubstitution::Enabled);
                Ok(ParamKind::Known)
            } else {
                Err(PjParseError::BadPjOs)
            }
        } else {
            Ok(ParamKind::Unknown)
        }
    }

    /// Decides once all parameters are read: no payjoin without `pj` and
    /// `pjos`; `pjos` alone is an error; `pj` must be secure, and the policy
    /// is enabled unless `pjos` said otherwise.
    pub fn finalize(self) -> (r: Result<MaybePayjoinExtras, PjParseError>)
        ensures
            match finalized(self@.pj, self@.pjos) {
                Ok(None) => r matches Ok(MaybePayjoinExtras::Unsupported),
                Ok(Some(x)) => r matches Ok(MaybePayjoinExtras::Supported(p)) && p@ == x,
                Err(_) => if self@.pj is None {
                    r matches Err(PjParseError::MissingEndpoint)
                } else {
                    r matches Err(PjParseError::UnsecureEndpoint)
                },
            },
    {
        match self.pj {
            None => match self.pjos {
                None => Ok(MaybePayjoinExtras::Unsupported),
                Some(_) => Err(PjParseError::MissingEndpoint),
            },
            Some(endpoint) => {
                let secure = text_is(endpoint.scheme(), "https") || (text_is(
                    endpoint.scheme(),
                    "http",
                ) && match endpoint.domain() {
                    Some(d) => ends_with_exec(d, ".onion"),
                    None => false,
                });
                if secure {
                    let output_substitution = match self.pjos {
                        Some(os) => os,
                        None => OutputSubstitution::Enabled,
                    };
                    Ok(MaybePayjoinExtras::Supported(PayjoinExtras { endpoint, output_substitution }))
                } else {
                    Err(PjParseError::UnsecureEndpoint)
                }
            },
        }
    }
}


/// The upper-case form of an ASCII lower-case letter; other characters are
/// kept.
pub open spec fn upper_char(c: char) -> char {
    if 'a' <= c && c <= 'z' {
        ((c as u8) - 32) as u8 as char
    } else {
        c
    }
}

/// A text with its ASCII letters in upper case.
pub open spec fn upper(s: Seq<char>) -> Seq<char> {
    s.map_values(|c: char| upper_char(c))
}

/// `s` with its first occurrence of `p` replaced by `r`, as `str::replacen`
/// with a count of one does it.
pub open spec fn replace_first(s: Seq<char>, p: Seq<char>, r: Seq<char>) -> Seq<char>
    decreases s.len(),
{
    if p.is_prefix_of(s) {
        r + s.subrange(p.len() as int, s.len() as int)
    } else if s.len() == 0 {
        s
    } else {
        seq![s[0]] + replace_first(s.drop_first(), p, r)
    }
}

/// The `pj` text of an endpoint: its URL text with the first occurrence of
/// the scheme, then of the host, in upper case (denser in a QR code).
pub open spec fn pj_text(e: EndpointView) -> Seq<char> {
    let t = replace_first(e.text(), e.scheme, upper(e.scheme));
    match e.host {
        Some(h) => replace_first(t, h, upper(h)),
        None => t,
    }
}

/// The query parameters that payjoin parameters are written as: `pjos=0`
/// where substitution is disabled (enabled is the default and is left out),
/// then `pj`.
pub open spec fn serialized(x: PayjoinExtrasView) -> Seq<(Seq<char>, Seq<char>)> {
    let pj = seq![("pj"@, pj_text(x.endpoint))];
    if x.output_substitution == OutputSubstitution::Disabled {
        seq![("pjos"@, "0"@)] + pj
    } else {
        pj
    }
}

fn upper_vec(s: &Vec<char>) -> (r: Vec<char>)
    ensures
        r@ == upper(s@),
{
    let mut r: Vec<char> = Vec::new();
    let mut i: usize = 0;
    while i < s.len()
        invariant
            i <= s@.len(),
            r@ == upper(s@.subrange(0, i as int)),
        decreases s.len() - i,
    {
        let c = s[i];
        let u = if 'a' <= c && c <= 'z' {
            ((c as u8) - 32) as char
        } else {
            c
        };
        r.push(u);
        i = i + 1;
        assert(r@ =~= upper(s@.subrange(0, i as int)));
    }
    assert(s@.subrange(0, s@.len() as int) =~= s@);
    r
}

fn prefix_at(s: &Vec<char>, i: usize, p: &Vec<char>) -> (r: bool)
    requires
        i <= s@.len(),
    ensures
        r == p@.is_prefix_of(s@.subrange(i as int, s@.len() as int)),
{
    let ghost t = s@.subrange(i as int, s@.len() as int);
    if p.len() > s.len() - i {
        return false;
    }
    let mut j: usize = 0;
    while j < p.len()
        invariant
            i <= s@.len(),
            p@.len() <= s@.len() - i,
            s@.len() == s.len(),
            t == s@.subrange(i as int, s@.len() as int),
            j <= p@.len(),
            forall|k: int| 0 <= k < j ==> t[k] == p@[k],
        decreases p.len() - j,
    {
        if s[i + j] != p[j] {
            assert(t.subrange(0, p@.len() as int)[j as int] != p@[j as int]);
            return false;
        }
        j = j + 1;
    }
    assert(t.subrange(0, p@.len() as int) =~= p@);
    true
}

fn replace_first_vec(s: &Vec<char>, p: &Vec<char>, r: &Vec<char>) -> (out: Vec<char>)
    ensures
        out@ == replace_first(s@, p@, r@),
{
    let mut i: usize = 0;
    assert(s@.subrange(0, s@.len() as int) =~= s@);
    assert(s@.subrange(0, 0) + s@ =~= s@);
    loop
        invariant
            i <= s@.len(),
            replace_first(s@, p@, r@) == s@.subrange(0, i as int) + replace_first(
                s@.subrange(i as int, s@.len() as int),
                p@,
                r@,
            ),
        decreases s@.len() - i,
    {
        let ghost t = s@.subrange(i as int, s@.len() as int);
        if prefix_at(s, i, p) {
            let mut out: Vec<char> = Vec::new();
            let mut k: usize = 0;
            while k < i
                invariant
                    k <= i <= s@.len(),
                    out@ == s@.subrange(0, k as int),
                decreases i - k,
            {
                out.push(s[k]);
                k = k + 1;
                assert(out@ =~= s@.subrange(0, k as int));
            }
            let mut k: usize = 0;
            while k < r.len()
                invariant
                    k <= r@.len(),
                    out@ == s@.subrange(0, i as int) + r@.subrange(0, k as int),
                decreases r.len() - k,
            {
                out.push(r[k]);
                k = k + 1;
                assert(out@ =~= s@.subrange(0, i as int) + r@.subrange(0, k as int));
            }
            assert(r@.subrange(0, r@.len() as int) =~= r@);
            assert(p@.len() <= t.len());
            assert(t.len() == s.len() - i);
            let mut k: usize = i + p.len();
            assert(s@.subrange(0, i as int) + r@ + t.subrange(p@.len() as int, t.len() as int)
                =~= s@.subrange(0, i as int) + r@ + s@.subrange(k as int, k as int) + s@.subrange(
                k as int,
                s@.len() as int,
            ));
            while k < s.len()
                invariant
                    i + p@.len() <= k <= s@.len(),
                    out@ == s@.subrange(0, i as int) + r@ + s@.subrange(
                        (i + p@.len()) as int,
                        k as int,
                    ),
                decreases s.len() - k,
            {
                out.push(s[k]);
                k = k + 1;
                assert(out@ =~= s@.subrange(0, i as int) + r@ + s@.subrange(
                    (i + p@.len()) as int,
                    k as int,
                ));
            }
            assert(out@ =~= s@.subrange(0, i as int) + (r@ + t.subrange(
                p@.len() as int,
                t.len() as int,
            )));
            return out;
        }
        if i == s.len() {
            assert(s@.subrange(0, i as int) + t =~= s@);
            return s.clone();
        }
        assert(t.drop_first() =~= s@.subrange(i + 1, s@.len() as int));
        assert(s@.subrange(0, i as int) + (seq![t[0]] + t.drop_first()) =~= s@.subrange(
            0,
            i + 1,
        ) + s@.subrange(i + 1, s@.len() as int));
        i = i + 1;
    }
}

/// Query parameters with their values as UTF-8 bytes.
pub open spec fn wire(params: Seq<(Seq<char>, Seq<char>)>) -> Seq<(Seq<char>, Seq<u8>)> {
    params.map_values(|kv: (Seq<char>, Seq<char>)| (kv.0, encode_utf8(kv.1)))
}

/// The state after `deserialize_temp` has read `params` in order from an
/// empty state; `None` where one of them is refused.
pub open spec fn read_params(params: Seq<(Seq<char>, Seq<u8>)>) -> Option<StateView>
    decreases params.len(),
{
    if params.len() == 0 {
        Some(StateView { pj: None, pjos: None })
    } else {
        match read_params(params.drop_last()) {
            None => None,
            Some(st) => temp_step(st, params.last().0, params.last().1),
        }
    }
}

/// Writing valid payjoin parameters and reading them back with
/// `deserialize_temp` and `finalize` gives the same parameters, where the URL
/// parser reads the `pj` text back as the same endpoint: an enabled policy,
/// left out when written, is the default again.
pub proof fn lemma_round_trip(x: PayjoinExtrasView)
    requires
        is_secure(x.endpoint),
        parsed_pj(pj_text(x.endpoint)) == Some(x.endpoint),
    ensures
        read_params(wire(serialized(x))) matches Some(st) && finalized(st.pj, st.pjos) == Ok::<
            Option<PayjoinExtrasView>,
            (),
        >(Some(x)),
{
    broadcast use vstd::utf8::encode_utf8_valid_utf8, vstd::utf8::encode_utf8_decode_utf8;

    reveal_strlit("pj");
    reveal_strlit("pjos");
    reveal_strlit("0");
    reveal_strlit("1");
    assert("pj"@.len() != "pjos"@.len());
    assert("0"@ != "1"@) by {
        assert("0"@[0] != "1"@[0]);
    }
    let w = wire(serialized(x));
    let empty = StateView { pj: None, pjos: None };
    if x.output_substitution == OutputSubstitution::Disabled {
        assert(w.len() == 2);
        assert(w.drop_last().drop_last() =~= Seq::<(Seq<char>, Seq<u8>)>::empty());
        assert(read_params(w.drop_last().drop_last()) == Some(empty));
        assert(w.drop_last().last() == ("pjos"@, encode_utf8("0"@)));
        assert(pjos_of(decode_utf8(encode_utf8("0"@))) == Some(OutputSubstitution::Disabled));
        assert(read_params(w.drop_last()) == Some(
            StateView { pj: None, pjos: Some(OutputSubstitution::Disabled) },
        ));
        assert(w.last() == ("pj"@, encode_utf8(pj_text(x.endpoint))));
    } else {
        assert(w.len() == 1);
        assert(w.drop_last() =~= Seq::<(Seq<char>, Seq<u8>)>::empty());
        assert(read_params(w.drop_last()) == Some(empty));
        assert(w.last() == ("pj"@, encode_utf8(pj_text(x.endpoint))));
    }
}

impl PayjoinExtras {
    /// The endpoint.
    pub fn endpoint(&self) -> (r: &Endpoint)
        ensures
            r@ == self@.endpoint,
    {
        &self.endpoint
    }

    /// The output substitution policy.
    pub fn output_substitution(&self) -> (r: OutputSubstitution)
        ensures
            r == self@.output_substitution,
    {
        self.output_substitution
    }

    /// Writes the parameters as query parameters.
    pub fn serialize_params(&self) -> (r: Vec<(&'static str, String)>)
        ensures
            r@.len() == serialized(self@).len(),
            forall|i: int|
                0 <= i < r@.len() ==> (#[trigger] r@[i]).0@ == serialized(self@)[i].0 && r@[i].1@
                    == serialized(self@)[i].1,
    {
        let text = chars_of(self.endpoint.as_str().as_str());
        let scheme = chars_of(self.endpoint.scheme());
        let t = replace_first_vec(&text, &scheme, &upper_vec(&scheme));
        let t = match self.endpoint.host_str() {
            Some(h) => {
                let hv = chars_of(h);
                replace_first_vec(&t, &hv, &upper_vec(&hv))
            },
            None => t,
        };
        let endpoint_str = string_of(t.as_slice());
        let mut params: Vec<(&'static str, String)> = Vec::new();
        if self.output_substitution == OutputSubstitution::Disabled {
            params.push(("pjos", string_of(chars_of("0").as_slice())));
        }
        params.push(("pj", endpoint_str));
        proof {
            let sv = serialized(self@);
            if self.output_substitution == OutputSubstitution::Disabled {
                assert(sv[0] == ("pjos"@, "0"@));
                assert(sv[1] == ("pj"@, pj_text(self@.endpoint)));
            } else {
                assert(sv[0] == ("pj"@, pj_text(self@.endpoint)));
            }
        }
        params
    }
}

impl MaybePayjoinExtras {
    /// Whether the URI has payjoin parameters.
    pub fn pj_is_supported(&self) -> (r: bool)
        ensures
            r == self is Supported,
    {
        match self {
            MaybePayjoinExtras::Supported(_) => true,
            MaybePayjoinExtras::Unsupported => false,
        }
    }

    /// Writes the payjoin parameters as query parameters; none where the URI
    /// has none.
    pub fn serialize_params(&self) -> (r: Vec<(&'static str, String)>)
        ensures
            self is Unsupported ==> r@.len() == 0,
            self matches MaybePayjoinExtras::Supported(x) ==> r@.len() == serialized(x@).len()
                && forall|i: int|
                0 <= i < r@.len() ==> (#[trigger] r@[i]).0@ == serialized(x@)[i].0 && r@[i].1@
                    == serialized(x@)[i].1,
    {
        match self {
            MaybePayjoinExtras::Supported(x) => x.serialize_params(),
            MaybePayjoinExtras::Unsupported => Vec::new(),
        }
    }
}

} // verus!
