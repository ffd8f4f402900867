//! The fragment parameter store: several tagged tokens multiplexed into one
//! URL fragment, joined by a delimiter that is `-` (or `+` in older URIs).

use vstd::prelude::*;

use crate::codec::{all_upper_alnum, is_upper_alnum};
use crate::text::chars_of;

verus! {

/// Why a fragment cannot carry parameters.
#[derive(Debug, Clone, Copy, PartialEq, Eq)]
pub enum ParseFragmentError {
    /// A character outside `0-9`, `A-Z`, `-` and `+`.
    InvalidChar(char),
    /// Both `-` and `+` occur.
    AmbiguousDelimiter,
}

/// The description of a fragment error.
pub open spec fn fragment_error_text(e: ParseFragmentError) -> Seq<char> {
    match e {
        ParseFragmentError::InvalidChar(c) => "invalid character: "@ + seq![c]
            + " (must be uppercase)"@,
        ParseFragmentError::AmbiguousDelimiter => "ambiguous fragment delimiter (both + and - found)"@,
    }
}

impl ParseFragmentError {
    /// A description of the error.
    pub fn message(&self) -> (r: String)
        ensures
            r@ == fragment_error_text(*self),
    {
        match self {
            ParseFragmentError::InvalidChar(c) => {
                let mut out = String::from_str("invalid character: ");
                out.append(crate::text::string_of(&[*c]).as_str());
                out.append(" (must be uppercase)");
                out
            },
            ParseFragmentError::AmbiguousDelimiter => String::from_str(
                "ambiguous fragment delimiter (both + and - found)",
            ),
        }
    }
}

/// Characters that may stand in a fragment.
pub open spec fn is_fragment_char(c: char) -> bool {
    ('0' <= c && c <= '9') || ('A' <= c && c <= 'Z') || c == '-' || c == '+'
}

/// The first character of `s` that may not stand in a fragment.
pub open spec fn first_invalid(s: Seq<char>) -> Option<char>
    decreases s.len(),
{
    if s.len() == 0 {
        None
    } else if !is_fragment_char(s[0]) {
        Some(s[0])
    } else {
        first_invalid(s.drop_first())
    }
}

/// The delimiter of a fragment, or why it has none.
pub open spec fn delimiter_of(s: Seq<char>) -> Result<char, ParseFragmentError> {
    match first_invalid(s) {
        Some(c) => Err(ParseFragmentError::InvalidChar(c)),
        None => if s.contains('-') && s.contains('+') {
            Err(ParseFragmentError::AmbiguousDelimiter)
        } else if s.contains('+') {
            Ok('+')
        } else {
            Ok('-')
        },
    }
}

fn is_fragment_char_exec(c: char) -> (r: bool)
    ensures
        r == is_fragment_char(c),
{
    ('0' <= c && c <= '9') || ('A' <= c && c <= 'Z') || c == '-' || c == '+'
}

proof fn lemma_first_invalid_step(s: Seq<char>, i: int)
    requires
        0 <= i < s.len(),
    ensures
        first_invalid(s.subrange(i, s.len() as int)) == if is_fragment_char(s[i]) {
            first_invalid(s.subrange(i + 1, s.len() as int))
        } else {
            Some(s[i])
        },
{
    assert(s.subrange(i, s.len() as int).drop_first() =~= s.subrange(i + 1, s.len() as int));
}

fn contains_char(s: &Vec<char>, c: char) -> (r: bool)
    ensures
        r == s@.contains(c),
{
    let mut i: usize = 0;
    while i < s.len()
        invariant
            i <= s@.len(),
            forall|j: int| 0 <= j < i ==> s@[j] != c,
        decreases s.len() - i,
    {
        if s[i] == c {
            return true;
        }
        i = i + 1;
    }
    false
}

/// Determines the delimiter of a fragment: `+` where only `+` occurs, `-`
/// otherwise; fails on a character outside the fragment alphabet, and where
/// both delimiters occur.
pub fn check_fragment_delimiter(fragment: &str) -> (r: Result<char, ParseFragmentError>)
    ensures
        r == delimiter_of(fragment@),
{
    let s = chars_of(fragment);
    check_delimiter_chars(&s)
}

fn check_delimiter_chars(s: &Vec<char>) -> (r: Result<char, ParseFragmentError>)
    ensures
        r == delimiter_of(s@),
{
    let mut i: usize = 0;
    assert(s@.subrange(0, s@.len() as int) =~= s@);
    while i < s.len()
        invariant
            i <= s@.len(),
            first_invalid(s@) == first_invalid(s@.subrange(i as int, s@.len() as int)),
        decreases s.len() - i,
    {
        proof {
            lemma_first_invalid_step(s@, i as int);
        }
        if !is_fragment_char_exec(s[i]) {
            return Err(ParseFragmentError::InvalidChar(s[i]));
        }
        i = i + 1;
    }
    assert(s@.subrange(i as int, s@.len() as int).len() == 0);
    let has_dash = contains_char(s, '-');
    let has_plus = contains_char(s, '+');
    if has_dash && has_plus {
        Err(ParseFragmentError::AmbiguousDelimiter)
    } else if has_plus {
        Ok('+')
    } else {
        Ok('-')
    }
}


/// The pieces of `s` between occurrences of `d`, as `str::split` yields them.
pub open spec fn split_on(s: Seq<char>, d: char) -> Seq<Seq<char>>
    decreases s.len(),
{
    if s.len() == 0 {
        seq![Seq::empty()]
    } else {
        let rest = split_on(s.drop_last(), d);
        if s.last() == d {
            rest.push(Seq::empty())
        } else {
            rest.update(rest.len() - 1, rest.last().push(s.last()))
        }
    }
}

proof fn lemma_split_nonempty(s: Seq<char>, d: char)
    ensures
        split_on(s, d).len() >= 1,
    decreases s.len(),
{
    if s.len() > 0 {
        lemma_split_nonempty(s.drop_last(), d);
    }
}

/// The views of a vector of character vectors.
pub open spec fn views(v: Seq<Vec<char>>) -> Seq<Seq<char>> {
    v.map_values(|t: Vec<char>| t@)
}

fn split_chars(s: &Vec<char>, d: char) -> (r: Vec<Vec<char>>)
    ensures
        views(r@) == split_on(s@, d),
{
    let mut toks: Vec<Vec<char>> = Vec::new();
    let mut cur: Vec<char> = Vec::new();
    let mut i: usize = 0;
    assert(s@.subrange(0, 0) =~= Seq::<char>::empty());
    assert(views(toks@).push(cur@) =~= seq![Seq::<char>::empty()]);
    while i < s.len()
        invariant
            i <= s@.len(),
            views(toks@).push(cur@) == split_on(s@.subrange(0, i as int), d),
        decreases s.len() - i,
    {
        let c = s[i];
        let ghost pre = s@.subrange(0, i as int);
        assert(s@.subrange(0, i + 1).drop_last() =~= pre);
        assert(s@.subrange(0, i + 1).last() == c);
        proof {
            lemma_split_nonempty(pre, d);
        }
        if c == d {
            let done = cur;
            toks.push(done);
            cur = Vec::new();
            assert(views(toks@).push(cur@) =~= split_on(pre, d).push(Seq::empty()));
        } else {
            let ghost old_toks = toks@;
            cur.push(c);
            assert(views(toks@).push(cur@) =~= split_on(pre, d).update(
                split_on(pre, d).len() - 1,
                split_on(pre, d).last().push(c),
            ));
        }
        i = i + 1;
    }
    assert(s@.subrange(0, s@.len() as int) =~= s@);
    toks.push(cur);
    assert(views(toks@) =~= split_on(s@, d));
    toks
}

/// The first token that starts with `prefix`.
pub open spec fn first_prefixed(toks: Seq<Seq<char>>, prefix: Seq<char>) -> Option<Seq<char>>
    decreases toks.len(),
{
    if toks.len() == 0 {
        None
    } else if prefix.is_prefix_of(toks[0]) {
        Some(toks[0])
    } else {
        first_prefixed(toks.drop_first(), prefix)
    }
}

/// The token of a fragment that starts with `prefix`, or why the fragment
/// cannot be read; no fragment holds no token.
pub open spec fn param_of(fragment: Option<Seq<char>>, prefix: Seq<char>) -> Result<
    Option<Seq<char>>,
    ParseFragmentError,
> {
    match fragment {
        None => Ok(None),
        Some(f) => match delimiter_of(f) {
            Err(e) => Err(e),
            Ok(d) => Ok(first_prefixed(split_on(f, d), prefix)),
        },
    }
}

fn starts_with(t: &Vec<char>, prefix: &Vec<char>) -> (r: bool)
    ensures
        r == prefix@.is_prefix_of(t@),
{
    if prefix.len() > t.len() {
        return false;
    }
    let mut i: usize = 0;
    while i < prefix.len()
        invariant
            prefix@.len() <= t@.len(),
            i <= prefix@.len(),
            forall|j: int| 0 <= j < i ==> t@[j] == prefix@[j],
        decreases prefix.len() - i,
    {
        if t[i] != prefix[i] {
            assert(t@.subrange(0, prefix@.len() as int)[i as int] != prefix@[i as int]);
            return false;
        }
        i = i + 1;
    }
    assert(t@.subrange(0, prefix@.len() as int) =~= prefix@);
    true
}

/// Finds the token of `fragment` that starts with `prefix` (a tag followed by
/// `1`), splitting the fragment on its delimiter.
pub fn get_param(fragment: Option<&str>, prefix: &str) -> (r: Result<Option<String>, ParseFragmentError>)
    ensures
        r is Ok <==> param_of(opt_view(fragment), prefix@) is Ok,
        r is Err ==> r->Err_0 == param_of(opt_view(fragment), prefix@)->Err_0,
        r is Ok ==> opt_string_view(r->Ok_0) == param_of(opt_view(fragment), prefix@)->Ok_0,
{
    match fragment {
        None => Ok(None),
        Some(f) => {
            let s = chars_of(f);
            let d = match check_delimiter_chars(&s) {
                Ok(d) => d,
                Err(e) => return Err(e),
            };
            let p = chars_of(prefix);
            let toks = split_chars(&s, d);
            let mut i: usize = 0;
            assert(views(toks@).subrange(0, toks@.len() as int) =~= views(toks@));
            while i < toks.len()
                invariant
                    i <= toks@.len(),
                    s@ == f@,
                    p@ == prefix@,
                    fragment == Some(f),
                    delimiter_of(s@) == Ok::<char, ParseFragmentError>(d),
                    views(toks@) == split_on(s@, d),
                    first_prefixed(split_on(s@, d), p@) == first_prefixed(
                        views(toks@).subrange(i as int, toks@.len() as int),
                        p@,
                    ),
                decreases toks.len() - i,
            {
                let ghost rest = views(toks@).subrange(i as int, toks@.len() as int);
                assert(rest.drop_first() =~= views(toks@).subrange(i + 1, toks@.len() as int));
                assert(rest[0] == toks@[i as int]@);
                if starts_with(&toks[i], &p) {
                    assert(first_prefixed(rest, p@) == Some(rest[0]));
                    let found = crate::text::string_of(toks[i].as_slice());
                    assert(found@ == rest[0]);
                    return Ok(Some(found));
                }
                i = i + 1;
            }
            Ok(None)
        },
    }
}

/// The view of an optional string slice.
pub open spec fn opt_view(s: Option<&str>) -> Option<Seq<char>> {
    match s {
        Some(t) => Some(t@),
        None => None,
    }
}

/// The view of an optional string.
pub open spec fn opt_string_view(s: Option<String>) -> Option<Seq<char>> {
    match s {
        Some(t) => Some(t@),
        None => None,
    }
}


/// Where the key of a token ends: at its first `1`, or at its end.
pub open spec fn key_end(t: Seq<char>, i: nat) -> nat
    decreases t.len() - i,
{
    if i >= t.len() || t[i as int] == '1' {
        i
    } else {
        key_end(t, i + 1)
    }
}

/// The key of a token: the text before its first `1`, or the whole token.
pub open spec fn key_of(t: Seq<char>) -> Seq<char> {
    t.subrange(0, key_end(t, 0) as int)
}

fn key_vec(t: &Vec<char>) -> (r: Vec<char>)
    ensures
        r@ == key_of(t@),
{
    let mut i: usize = 0;
    let mut r: Vec<char> = Vec::new();
    while i < t.len() && t[i] != '1'
        invariant
            i <= t@.len(),
            key_end(t@, 0) == key_end(t@, i as nat),
            r@ == t@.subrange(0, i as int),
        decreases t.len() - i,
    {
        r.push(t[i]);
        i = i + 1;
        assert(r@ =~= t@.subrange(0, i as int));
    }
    r
}

/// Strict lexicographic order of character sequences, by code point.
pub open spec fn lex_lt(a: Seq<char>, b: Seq<char>) -> bool
    decreases a.len(),
{
    if a.len() == 0 {
        b.len() > 0
    } else if b.len() == 0 {
        false
    } else if a[0] != b[0] {
        a[0] < b[0]
    } else {
        lex_lt(a.drop_first(), b.drop_first())
    }
}

proof fn lemma_lex_irreflexive(a: Seq<char>)
    ensures
        !lex_lt(a, a),
    decreases a.len(),
{
    if a.len() > 0 {
        lemma_lex_irreflexive(a.drop_first());
    }
}

proof fn lemma_lex_total(a: Seq<char>, b: Seq<char>)
    requires
        a != b,
    ensures
        lex_lt(a, b) || lex_lt(b, a),
    decreases a.len(),
{
    if a.len() > 0 && b.len() > 0 && a[0] == b[0] {
        if a.drop_first() == b.drop_first() {
            assert(a =~= seq![a[0]] + a.drop_first());
            assert(b =~= seq![b[0]] + b.drop_first());
        }
        lemma_lex_total(a.drop_first(), b.drop_first());
    } else if a.len() == 0 && b.len() == 0 {
        assert(a =~= b);
    }
}

proof fn lemma_lex_transitive(a: Seq<char>, b: Seq<char>, c: Seq<char>)
    requires
        lex_lt(a, b),
        lex_lt(b, c),
    ensures
        lex_lt(a, c),
    decreases a.len(),
{
    if a.len() > 0 && b.len() > 0 && c.len() > 0 && a[0] == b[0] && b[0] == c[0] {
        lemma_lex_transitive(a.drop_first(), b.drop_first(), c.drop_first());
    }
}

fn lex_less(a: &Vec<char>, b: &Vec<char>) -> (r: bool)
    ensures
        r == lex_lt(a@, b@),
{
    let mut i: usize = 0;
    assert(a@.subrange(0, a@.len() as int) =~= a@);
    assert(b@.subrange(0, b@.len() as int) =~= b@);
    while i < a.len() && i < b.len() && a[i] == b[i]
        invariant
            i <= a@.len(),
            i <= b@.len(),
            lex_lt(a@, b@) == lex_lt(
                a@.subrange(i as int, a@.len() as int),
                b@.subrange(i as int, b@.len() as int),
            ),
        decreases a.len() - i,
    {
        let ghost sa = a@.subrange(i as int, a@.len() as int);
        let ghost sb = b@.subrange(i as int, b@.len() as int);
        assert(sa.drop_first() =~= a@.subrange(i + 1, a@.len() as int));
        assert(sb.drop_first() =~= b@.subrange(i + 1, b@.len() as int));
        i = i + 1;
    }
    if i == a.len() {
        i < b.len()
    } else if i == b.len() {
        false
    } else {
        a[i] < b[i]
    }
}

pub(crate) fn same_chars(a: &Vec<char>, b: &Vec<char>) -> (r: bool)
    ensures
        r == (a@ == b@),
{
    if a.len() != b.len() {
        return false;
    }
    let mut i: usize = 0;
    while i < a.len()
        invariant
            a@.len() == b@.len(),
            i <= a@.len(),
            forall|j: int| 0 <= j < i ==> a@[j] == b@[j],
        decreases a.len() - i,
    {
        if a[i] != b[i] {
            return false;
        }
        i = i + 1;
    }
    assert(a@ =~= b@);
    true
}

/// The parameters that a list of tokens holds, by key: empty tokens are
/// skipped, and of two tokens with one key the later one holds.
pub open spec fn tokens_map(toks: Seq<Seq<char>>) -> Map<Seq<char>, Seq<char>>
    decreases toks.len(),
{
    if toks.len() == 0 {
        Map::empty()
    } else {
        let m = tokens_map(toks.drop_last());
        let t = toks.last();
        if t.len() == 0 {
            m
        } else {
            m.insert(key_of(t), t)
        }
    }
}

/// Tokens whose keys rise strictly.
pub open spec fn sorted_by_key(es: Seq<Seq<char>>) -> bool {
    forall|i: int, j: int| 0 <= i < j < es.len() ==> lex_lt(key_of(es[i]), key_of(es[j]))
}

/// The tokens `es` are exactly the entries of `m`, each under its own key.
pub open spec fn entries_of(es: Seq<Seq<char>>, m: Map<Seq<char>, Seq<char>>) -> bool {
    &&& forall|k: Seq<char>|
        m.dom().contains(k) <==> exists|j: int| 0 <= j < es.len() && key_of(#[trigger] es[j]) == k
    &&& forall|j: int| 0 <= j < es.len() ==> m[key_of(#[trigger] es[j])] == es[j]
}

/// Tokens joined by the canonical delimiter `-`.
pub open spec fn join_dash(ts: Seq<Seq<char>>) -> Seq<char>
    decreases ts.len(),
{
    if ts.len() == 0 {
        Seq::empty()
    } else if ts.len() == 1 {
        ts[0]
    } else {
        join_dash(ts.drop_last()) + seq!['-'] + ts.last()
    }
}

/// `out` is the canonical rendering of the parameters `m`: their tokens in
/// ascending order of key, joined by `-`; no fragment where `m` is empty.
pub open spec fn renders(m: Map<Seq<char>, Seq<char>>, out: Option<Seq<char>>) -> bool {
    exists|es: Seq<Seq<char>>|
        #[trigger] sorted_by_key(es) && entries_of(es, m) && out == if es.len() == 0 {
            None
        } else {
            Some(join_dash(es))
        }
}

/// The text of an optional fragment; no fragment reads as the empty text.
pub open spec fn fragment_text(fragment: Option<Seq<char>>) -> Seq<char> {
    match fragment {
        Some(f) => f,
        None => Seq::empty(),
    }
}

/// The parameters that a readable fragment holds.
pub open spec fn params_of(fragment: Option<Seq<char>>) -> Map<Seq<char>, Seq<char>> {
    let f = fragment_text(fragment);
    tokens_map(split_on(f, delimiter_of(f)->Ok_0))
}

/// A fragment whose delimiter can be determined; no fragment counts as one.
pub open spec fn fragment_ok(fragment: Option<Seq<char>>) -> bool {
    delimiter_of(fragment_text(fragment)) is Ok
}

fn insert_sorted(es: &mut Vec<Vec<char>>, t: Vec<char>, Ghost(m): Ghost<Map<Seq<char>, Seq<char>>>)
    requires
        sorted_by_key(views(old(es)@)),
        entries_of(views(old(es)@), m),
    ensures
        sorted_by_key(views(final(es)@)),
        entries_of(views(final(es)@), m.insert(key_of(t@), t@)),
{
    let k = key_vec(&t);
    let ghost old_es = views(es@);
    let ghost tv = t@;
    let mut p: usize = 0;
    let mut stop = false;
    while p < es.len() && !stop
        invariant
            views(es@) == old_es,
            k@ == key_of(tv),
            p <= old_es.len(),
            forall|j: int| 0 <= j < p ==> lex_lt(key_of(old_es[j]), k@),
            stop ==> p < old_es.len() && !lex_lt(key_of(old_es[p as int]), k@),
        decreases 2 * (es.len() - p) + if stop { 0int } else { 1int },
    {
        let kp = key_vec(&es[p]);
        assert(old_es[p as int] == es@[p as int]@);
        if lex_less(&kp, &k) {
            p = p + 1;
        } else {
            stop = true;
        }
    }
    let mut replace = false;
    if p < es.len() {
        let kp = key_vec(&es[p]);
        assert(old_es[p as int] == es@[p as int]@);
        replace = same_chars(&kp, &k);
    }
    let ghost mm = m.insert(key_of(tv), tv);
    if replace {
        let _ = es.remove(p);
        es.insert(p, t);
        let ghost ne = views(es@);
        assert(ne =~= old_es.update(p as int, tv));
        assert forall|i: int, j: int| 0 <= i < j < ne.len() implies lex_lt(
            key_of(ne[i]),
            key_of(ne[j]),
        ) by {
            assert(sorted_by_key(old_es));
        }
        assert forall|j: int| 0 <= j < ne.len() implies mm[key_of(#[trigger] ne[j])] == ne[j] by {
            if j != p {
                if j < p {
                    assert(lex_lt(key_of(old_es[j]), key_of(old_es[p as int])));
                } else {
                    assert(lex_lt(key_of(old_es[p as int]), key_of(old_es[j])));
                }
                lemma_lex_irreflexive(key_of(tv));
            }
        }
        assert forall|kk: Seq<char>| mm.dom().contains(kk) <==> exists|j: int|
            0 <= j < ne.len() && key_of(#[trigger] ne[j]) == kk by {
            if m.dom().contains(kk) {
                let j = choose|j: int| 0 <= j < old_es.len() && key_of(#[trigger] old_es[j]) == kk;
                assert(key_of(ne[j]) == kk);
            }
            if exists|j: int| 0 <= j < ne.len() && key_of(#[trigger] ne[j]) == kk {
                let j = choose|j: int| 0 <= j < ne.len() && key_of(#[trigger] ne[j]) == kk;
                if j != p {
                    assert(key_of(old_es[j]) == kk);
                }
            }
        }
    } else {
        es.insert(p, t);
        let ghost ne = views(es@);
        assert(ne =~= old_es.insert(p as int, tv));
        assert forall|j: int| p <= j < old_es.len() implies lex_lt(k@, key_of(#[trigger] old_es[j])) by {
            let kp = key_of(old_es[p as int]);
            lemma_lex_total(kp, k@);
            if j > p {
                assert(lex_lt(kp, key_of(old_es[j])));
                lemma_lex_transitive(k@, kp, key_of(old_es[j]));
            }
        }
        assert forall|i: int, j: int| 0 <= i < j < ne.len() implies lex_lt(
            key_of(ne[i]),
            key_of(ne[j]),
        ) by {
            if i < p && j > p {
                assert(ne[j] == old_es[j - 1]);
                lemma_lex_transitive(key_of(ne[i]), k@, key_of(ne[j]));
            } else if i < p && j < p {
            } else if i > p {
                assert(ne[i] == old_es[i - 1]);
                assert(ne[j] == old_es[j - 1]);
            }
        }
        assert forall|j: int| 0 <= j < ne.len() implies mm[key_of(#[trigger] ne[j])] == ne[j] by {
            if j < p {
                lemma_lex_irreflexive(key_of(tv));
                assert(lex_lt(key_of(old_es[j]), k@));
            } else if j > p {
                lemma_lex_irreflexive(key_of(tv));
                assert(ne[j] == old_es[j - 1]);
                assert(lex_lt(k@, key_of(old_es[j - 1])));
            }
        }
        assert forall|kk: Seq<char>| mm.dom().contains(kk) <==> exists|j: int|
            0 <= j < ne.len() && key_of(#[trigger] ne[j]) == kk by {
            if m.dom().contains(kk) {
                let j = choose|j: int| 0 <= j < old_es.len() && key_of(#[trigger] old_es[j]) == kk;
                if j < p {
                    assert(key_of(ne[j]) == kk);
                } else {
                    assert(ne[j + 1] == old_es[j]);
                    assert(key_of(ne[j + 1]) == kk);
                }
            }
            if kk == key_of(tv) {
                assert(key_of(ne[p as int]) == kk);
            }
            if exists|j: int| 0 <= j < ne.len() && key_of(#[trigger] ne[j]) == kk {
                let j = choose|j: int| 0 <= j < ne.len() && key_of(#[trigger] ne[j]) == kk;
                if j < p {
                    assert(key_of(old_es[j]) == kk);
                } else if j > p {
                    assert(ne[j] == old_es[j - 1]);
                    assert(key_of(old_es[j - 1]) == kk);
                }
            }
        }
    }
}


fn push_all(out: &mut Vec<char>, t: &Vec<char>)
    ensures
        final(out)@ == old(out)@ + t@,
{
    let mut i: usize = 0;
    while i < t.len()
        invariant
            i <= t@.len(),
            out@ == old(out)@ + t@.subrange(0, i as int),
        decreases t.len() - i,
    {
        out.push(t[i]);
        i = i + 1;
        assert(out@ =~= old(out)@ + t@.subrange(0, i as int));
    }
    assert(t@.subrange(0, t@.len() as int) =~= t@);
}

fn join_with_dash(es: &Vec<Vec<char>>) -> (r: Vec<char>)
    ensures
        r@ == join_dash(views(es@)),
{
    let mut out: Vec<char> = Vec::new();
    let mut i: usize = 0;
    assert(views(es@).subrange(0, 0).len() == 0);
    while i < es.len()
        invariant
            i <= es@.len(),
            out@ == join_dash(views(es@).subrange(0, i as int)),
        decreases es.len() - i,
    {
        let ghost pre = views(es@).subrange(0, i as int);
        assert(views(es@).subrange(0, i + 1).drop_last() =~= pre);
        assert(views(es@).subrange(0, i + 1).last() == es@[i as int]@);
        if i > 0 {
            out.push('-');
        } else {
            assert(views(es@).subrange(0, 1)[0] == es@[0]@);
        }
        push_all(&mut out, &es[i]);
        i = i + 1;
    }
    assert(views(es@).subrange(0, es@.len() as int) =~= views(es@));
    out
}

/// Sets a fragment parameter, replacing the token with the same key where
/// there is one. The result is canonical whatever the input's order and
/// delimiter: tokens in ascending order of key, joined by `-`.
pub fn set_param(fragment: Option<&str>, new_param: &str) -> (r: Option<String>)
    requires
        fragment_ok(opt_view(fragment)),
    ensures
        renders(
            params_of(opt_view(fragment)).insert(key_of(new_param@), new_param@),
            opt_string_view(r),
        ),
{
    let f: Vec<char> = match fragment {
        Some(x) => chars_of(x),
        None => Vec::new(),
    };
    assert(f@ == fragment_text(opt_view(fragment)));
    let d = match check_delimiter_chars(&f) {
        Ok(d) => d,
        Err(_) => '-',
    };
    let toks = split_chars(&f, d);
    let mut es: Vec<Vec<char>> = Vec::new();
    let mut i: usize = 0;
    assert(views(toks@).subrange(0, 0).len() == 0);
    assert(entries_of(views(es@), tokens_map(views(toks@).subrange(0, 0))));
    while i < toks.len()
        invariant
            i <= toks@.len(),
            sorted_by_key(views(es@)),
            entries_of(views(es@), tokens_map(views(toks@).subrange(0, i as int))),
        decreases toks.len() - i,
    {
        let ghost pre = views(toks@).subrange(0, i as int);
        assert(views(toks@).subrange(0, i + 1).drop_last() =~= pre);
        assert(views(toks@).subrange(0, i + 1).last() == toks@[i as int]@);
        if toks[i].len() > 0 {
            let t = toks[i].clone();
            insert_sorted(&mut es, t, Ghost(tokens_map(pre)));
        }
        i = i + 1;
    }
    assert(views(toks@).subrange(0, toks@.len() as int) =~= views(toks@));
    let n = chars_of(new_param);
    insert_sorted(&mut es, n, Ghost(tokens_map(views(toks@))));
    let r = if es.len() == 0 {
        None
    } else {
        Some(crate::text::string_of(join_with_dash(&es).as_slice()))
    };
    assert(sorted_by_key(views(es@)));
    r
}


proof fn lemma_all_valid(s: Seq<char>)
    requires
        forall|i: int| 0 <= i < s.len() ==> is_fragment_char(#[trigger] s[i]),
    ensures
        first_invalid(s) is None,
    decreases s.len(),
{
    if s.len() > 0 {
        assert(forall|i: int| 0 <= i < s.drop_first().len() ==> s.drop_first()[i] == s[i + 1]);
        lemma_all_valid(s.drop_first());
    }
}

proof fn lemma_none_invalid(s: Seq<char>, i: int)
    requires
        first_invalid(s) is None,
        0 <= i < s.len(),
    ensures
        is_fragment_char(s[i]),
    decreases s.len(),
{
    if i > 0 {
        lemma_none_invalid(s.drop_first(), i - 1);
    }
}

/// Every character of every piece of `split_on(s, d)` is a character of `s`
/// other than `d`.
proof fn lemma_split_chars(s: Seq<char>, d: char, i: int, j: int)
    requires
        0 <= i < split_on(s, d).len(),
        0 <= j < split_on(s, d)[i].len(),
    ensures
        s.contains(split_on(s, d)[i][j]),
        split_on(s, d)[i][j] != d,
    decreases s.len(),
{
    let c = split_on(s, d)[i][j];
    if s.len() > 0 {
        let pre = s.drop_last();
        let rest = split_on(pre, d);
        lemma_split_nonempty(pre, d);
        if s.last() == d {
            lemma_split_chars(pre, d, i, j);
            let k = choose|k: int| 0 <= k < pre.len() && pre[k] == c;
            assert(s[k] == c);
        } else if i < rest.len() - 1 || j < rest.last().len() {
            lemma_split_chars(pre, d, i, j);
            let k = choose|k: int| 0 <= k < pre.len() && pre[k] == c;
            assert(s[k] == c);
        } else {
            assert(c == s.last());
            assert(s[s.len() - 1] == c);
        }
    }
}

/// The pieces of a readable fragment, split on its delimiter, hold digits
/// and upper-case letters only.
proof fn lemma_pieces_upper_alnum(f: Seq<char>, i: int)
    requires
        delimiter_of(f) is Ok,
        0 <= i < split_on(f, delimiter_of(f)->Ok_0).len(),
    ensures
        all_upper_alnum(split_on(f, delimiter_of(f)->Ok_0)[i]),
{
    let d = delimiter_of(f)->Ok_0;
    let p = split_on(f, d)[i];
    assert forall|j: int| 0 <= j < p.len() implies is_upper_alnum(#[trigger] p[j]) by {
        lemma_split_chars(f, d, i, j);
        let k = choose|k: int| 0 <= k < f.len() && f[k] == p[j];
        lemma_none_invalid(f, k);
    }
}

/// Every parameter of `tokens_map(toks)` is one of the tokens.
proof fn lemma_tokens_map_values(toks: Seq<Seq<char>>, k: Seq<char>)
    requires
        tokens_map(toks).dom().contains(k),
    ensures
        exists|i: int| 0 <= i < toks.len() && toks[i] == tokens_map(toks)[k] && toks[i].len() > 0,
    decreases toks.len(),
{
    let pre = toks.drop_last();
    let t = toks.last();
    if t.len() > 0 && key_of(t) == k {
        assert(toks[toks.len() - 1] == tokens_map(toks)[k]);
    } else {
        lemma_tokens_map_values(pre, k);
        let i = choose|i: int| 0 <= i < pre.len() && pre[i] == tokens_map(pre)[k] && pre[i].len() > 0;
        assert(toks[i] == tokens_map(toks)[k]);
    }
}

proof fn lemma_join_chars(es: Seq<Seq<char>>)
    requires
        forall|j: int| 0 <= j < es.len() ==> all_upper_alnum(#[trigger] es[j]),
    ensures
        forall|i: int|
            0 <= i < join_dash(es).len() ==> is_upper_alnum(#[trigger] join_dash(es)[i])
                || join_dash(es)[i] == '-',
    decreases es.len(),
{
    if es.len() > 1 {
        let pre = es.drop_last();
        assert(forall|j: int| 0 <= j < pre.len() ==> pre[j] == es[j]);
        lemma_join_chars(pre);
        let a = join_dash(pre);
        let b = es.last();
        assert(es[es.len() - 1] == b);
        assert forall|i: int| 0 <= i < join_dash(es).len() implies is_upper_alnum(
            #[trigger] join_dash(es)[i],
        ) || join_dash(es)[i] == '-' by {
            if i < a.len() {
                assert(join_dash(es)[i] == a[i]);
            } else if i > a.len() {
                assert(join_dash(es)[i] == b[i - a.len() - 1]);
            }
        }
    } else if es.len() == 1 {
        assert(es[0] == join_dash(es));
    }
}

/// Setting a token of digits and upper-case letters into a readable fragment
/// leaves a readable fragment whose delimiter is `-`: no `+` remains, the
/// older delimiter being upgraded on the first write, and the new fragment
/// reads back as the old tokens (split on the old delimiter) with the new
/// one put in place.
pub proof fn lemma_set_param_canonical_delimiter(
    fragment: Option<Seq<char>>,
    token: Seq<char>,
    out: Option<Seq<char>>,
)
    requires
        fragment_ok(fragment),
        all_upper_alnum(token),
        renders(params_of(fragment).insert(key_of(token), token), out),
    ensures
        fragment_ok(out),
        delimiter_of(fragment_text(out)) == Ok::<char, ParseFragmentError>('-'),
        !fragment_text(out).contains('+'),
        token.len() > 0 ==> params_of(out) == params_of(fragment).insert(key_of(token), token),
{
    if token.len() > 0 {
        lemma_params_upper(fragment);
        lemma_rendered_params(params_of(fragment).insert(key_of(token), token), out);
    }
    let f = fragment_text(fragment);
    let d = delimiter_of(f)->Ok_0;
    let toks = split_on(f, d);
    let m = params_of(fragment).insert(key_of(token), token);
    let es = choose|es: Seq<Seq<char>>|
        #[trigger] sorted_by_key(es) && entries_of(es, m) && out == if es.len() == 0 {
            None
        } else {
            Some(join_dash(es))
        };
    assert forall|j: int| 0 <= j < es.len() implies all_upper_alnum(#[trigger] es[j]) by {
        let k = key_of(es[j]);
        assert(m[k] == es[j]);
        assert(exists|jj: int| 0 <= jj < es.len() && key_of(#[trigger] es[jj]) == k);
        assert(m.dom().contains(k));
        if k != key_of(token) {
            lemma_tokens_map_values(toks, k);
            let i = choose|i: int| 0 <= i < toks.len() && toks[i] == tokens_map(toks)[k];
            lemma_pieces_upper_alnum(f, i);
        }
    }
    lemma_join_chars(es);
    let o = fragment_text(out);
    assert forall|i: int| 0 <= i < o.len() implies is_fragment_char(#[trigger] o[i]) && o[i] != '+' by {
        if es.len() > 0 {
            assert(is_upper_alnum(join_dash(es)[i]) || join_dash(es)[i] == '-');
        }
    }
    lemma_all_valid(o);
}

/// A fragment of valid characters that holds both `-` and `+` cannot be read
/// (whatever the prefix asked for) and cannot be written.
pub proof fn lemma_mixed_delimiters_refused(fragment: Seq<char>, prefix: Seq<char>)
    requires
        forall|i: int| 0 <= i < fragment.len() ==> is_fragment_char(#[trigger] fragment[i]),
        fragment.contains('-'),
        fragment.contains('+'),
    ensures
        param_of(Some(fragment), prefix) == Err::<Option<Seq<char>>, ParseFragmentError>(
            ParseFragmentError::AmbiguousDelimiter,
        ),
        !fragment_ok(Some(fragment)),
{
    lemma_all_valid(fragment);
}


proof fn lemma_lex_asymmetric(a: Seq<char>, b: Seq<char>)
    requires
        lex_lt(a, b),
    ensures
        !lex_lt(b, a),
{
    if lex_lt(b, a) {
        lemma_lex_transitive(a, b, a);
        lemma_lex_irreflexive(a);
    }
}

/// Two key-sorted lists with the same entries are the same list.
proof fn lemma_sorted_entries_unique(
    es1: Seq<Seq<char>>,
    es2: Seq<Seq<char>>,
    m: Map<Seq<char>, Seq<char>>,
)
    requires
        sorted_by_key(es1),
        sorted_by_key(es2),
        entries_of(es1, m),
        entries_of(es2, m),
    ensures
        es1 == es2,
    decreases es1.len(),
{
    if es1.len() == 0 {
        if es2.len() > 0 {
            assert(m.dom().contains(key_of(es2[0])));
        }
        assert(es1 =~= es2);
    } else if es2.len() == 0 {
        assert(m.dom().contains(key_of(es1[0])));
    } else {
        let k1 = key_of(es1[0]);
        let k2 = key_of(es2[0]);
        assert(m.dom().contains(k1));
        assert(m.dom().contains(k2));
        if k1 != k2 {
            let j2 = choose|j: int| 0 <= j < es2.len() && key_of(#[trigger] es2[j]) == k1;
            let j1 = choose|j: int| 0 <= j < es1.len() && key_of(#[trigger] es1[j]) == k2;
            assert(j2 > 0 && j1 > 0);
            assert(lex_lt(k2, k1));
            assert(lex_lt(k1, k2));
            lemma_lex_asymmetric(k1, k2);
        }
        let r1 = es1.drop_first();
        let r2 = es2.drop_first();
        let mr = m.remove(k1);
        assert forall|j: int| 0 <= j < r1.len() implies key_of(#[trigger] r1[j]) != k1 by {
            assert(r1[j] == es1[j + 1]);
            assert(lex_lt(k1, key_of(es1[j + 1])));
            lemma_lex_irreflexive(k1);
        }
        assert forall|j: int| 0 <= j < r2.len() implies key_of(#[trigger] r2[j]) != k1 by {
            assert(r2[j] == es2[j + 1]);
            assert(lex_lt(k2, key_of(es2[j + 1])));
            lemma_lex_irreflexive(k1);
        }
        assert forall|k: Seq<char>|
            mr.dom().contains(k) <==> exists|j: int| 0 <= j < r1.len() && key_of(#[trigger] r1[j]) == k by {
            if mr.dom().contains(k) {
                let j = choose|j: int| 0 <= j < es1.len() && key_of(#[trigger] es1[j]) == k;
                assert(j != 0);
                assert(key_of(r1[j - 1]) == k);
            }
            if exists|j: int| 0 <= j < r1.len() && key_of(#[trigger] r1[j]) == k {
                let j = choose|j: int| 0 <= j < r1.len() && key_of(#[trigger] r1[j]) == k;
                assert(key_of(es1[j + 1]) == k);
            }
        }
        assert forall|k: Seq<char>|
            mr.dom().contains(k) <==> exists|j: int| 0 <= j < r2.len() && key_of(#[trigger] r2[j]) == k by {
            if mr.dom().contains(k) {
                let j = choose|j: int| 0 <= j < es2.len() && key_of(#[trigger] es2[j]) == k;
                assert(j != 0);
                assert(key_of(r2[j - 1]) == k);
            }
            if exists|j: int| 0 <= j < r2.len() && key_of(#[trigger] r2[j]) == k {
                let j = choose|j: int| 0 <= j < r2.len() && key_of(#[trigger] r2[j]) == k;
                assert(key_of(es2[j + 1]) == k);
            }
        }
        assert forall|j: int| 0 <= j < r1.len() implies mr[key_of(#[trigger] r1[j])] == r1[j] by {
            assert(r1[j] == es1[j + 1]);
        }
        assert forall|j: int| 0 <= j < r2.len() implies mr[key_of(#[trigger] r2[j])] == r2[j] by {
            assert(r2[j] == es2[j + 1]);
        }
        assert forall|i: int, j: int| 0 <= i < j < r1.len() implies lex_lt(
            key_of(r1[i]),
            key_of(r1[j]),
        ) by {
            assert(r1[i] == es1[i + 1] && r1[j] == es1[j + 1]);
        }
        assert forall|i: int, j: int| 0 <= i < j < r2.len() implies lex_lt(
            key_of(r2[i]),
            key_of(r2[j]),
        ) by {
            assert(r2[i] == es2[i + 1] && r2[j] == es2[j + 1]);
        }
        lemma_sorted_entries_unique(r1, r2, mr);
        assert(es1[0] == m[k1]);
        assert(es2[0] == m[k2]);
        assert(es1 =~= seq![es1[0]] + r1);
        assert(es2 =~= seq![es2[0]] + r2);
    }
}

/// The parameters of a map have one canonical rendering.
pub proof fn lemma_render_unique(
    m: Map<Seq<char>, Seq<char>>,
    out1: Option<Seq<char>>,
    out2: Option<Seq<char>>,
)
    requires
        renders(m, out1),
        renders(m, out2),
    ensures
        out1 == out2,
{
    let es1 = choose|es: Seq<Seq<char>>|
        #[trigger] sorted_by_key(es) && entries_of(es, m) && out1 == if es.len() == 0 {
            None
        } else {
            Some(join_dash(es))
        };
    let es2 = choose|es: Seq<Seq<char>>|
        #[trigger] sorted_by_key(es) && entries_of(es, m) && out2 == if es.len() == 0 {
            None
        } else {
            Some(join_dash(es))
        };
    lemma_sorted_entries_unique(es1, es2, m);
}


proof fn lemma_split_single(t: Seq<char>, d: char)
    requires
        !t.contains(d),
    ensures
        split_on(t, d) == seq![t],
    decreases t.len(),
{
    if t.len() > 0 {
        assert(!t.drop_last().contains(d)) by {
            if t.drop_last().contains(d) {
                let i = choose|i: int| 0 <= i < t.drop_last().len() && t.drop_last()[i] == d;
                assert(t[i] == d);
            }
        }
        lemma_split_single(t.drop_last(), d);
        assert(t[t.len() - 1] != d);
        assert(t.drop_last().push(t.last()) =~= t);
        assert(split_on(t, d) =~= seq![t]);
    } else {
        assert(t =~= Seq::<char>::empty());
    }
}

proof fn lemma_split_append(x: Seq<char>, t: Seq<char>, d: char)
    requires
        !t.contains(d),
    ensures
        split_on(x + seq![d] + t, d) == split_on(x, d).push(t),
    decreases t.len(),
{
    let s = x + seq![d] + t;
    if t.len() == 0 {
        assert(s.drop_last() =~= x);
        assert(t =~= Seq::<char>::empty());
    } else {
        let t0 = t.drop_last();
        assert(!t0.contains(d)) by {
            if t0.contains(d) {
                let i = choose|i: int| 0 <= i < t0.len() && t0[i] == d;
                assert(t[i] == d);
            }
        }
        lemma_split_append(x, t0, d);
        assert(s.drop_last() =~= x + seq![d] + t0);
        assert(t[t.len() - 1] != d);
        assert(t0.push(t.last()) =~= t);
        assert(split_on(s, d) =~= split_on(x, d).push(t));
    }
}

proof fn lemma_split_join(es: Seq<Seq<char>>)
    requires
        es.len() >= 1,
        forall|j: int| 0 <= j < es.len() ==> !(#[trigger] es[j]).contains('-'),
    ensures
        split_on(join_dash(es), '-') == es,
    decreases es.len(),
{
    if es.len() == 1 {
        lemma_split_single(es[0], '-');
        assert(es =~= seq![es[0]]);
    } else {
        let pre = es.drop_last();
        assert(forall|j: int| 0 <= j < pre.len() ==> pre[j] == es[j]);
        lemma_split_join(pre);
        assert(es[es.len() - 1] == es.last());
        lemma_split_append(join_dash(pre), es.last(), '-');
        assert(pre.push(es.last()) =~= es);
    }
}

/// The tokens of a key-sorted list of non-empty tokens, each under its own
/// key, hold exactly those entries.
proof fn lemma_tokens_map_of_entries(es: Seq<Seq<char>>, m: Map<Seq<char>, Seq<char>>)
    requires
        sorted_by_key(es),
        entries_of(es, m),
        forall|j: int| 0 <= j < es.len() ==> (#[trigger] es[j]).len() > 0,
    ensures
        tokens_map(es) == m,
    decreases es.len(),
{
    if es.len() == 0 {
        assert(m.dom() =~= Set::<Seq<char>>::empty());
        assert(m =~= Map::<Seq<char>, Seq<char>>::empty());
    } else {
        let n = es.len() - 1;
        let pre = es.drop_last();
        let kl = key_of(es[n]);
        let mr = m.remove(kl);
        assert(es.last() == es[n]);
        assert forall|j: int| 0 <= j < pre.len() implies key_of(#[trigger] pre[j]) != kl by {
            assert(pre[j] == es[j]);
            assert(lex_lt(key_of(es[j]), kl));
            lemma_lex_irreflexive(kl);
        }
        assert forall|k: Seq<char>|
            mr.dom().contains(k) <==> exists|j: int| 0 <= j < pre.len() && key_of(#[trigger] pre[j]) == k by {
            if mr.dom().contains(k) {
                let j = choose|j: int| 0 <= j < es.len() && key_of(#[trigger] es[j]) == k;
                assert(j != n);
                assert(key_of(pre[j]) == k);
            }
            if exists|j: int| 0 <= j < pre.len() && key_of(#[trigger] pre[j]) == k {
                let j = choose|j: int| 0 <= j < pre.len() && key_of(#[trigger] pre[j]) == k;
                assert(key_of(es[j]) == k);
            }
        }
        assert forall|j: int| 0 <= j < pre.len() implies mr[key_of(#[trigger] pre[j])] == pre[j] by {
            assert(pre[j] == es[j]);
        }
        assert forall|i: int, j: int| 0 <= i < j < pre.len() implies lex_lt(
            key_of(pre[i]),
            key_of(pre[j]),
        ) by {
            assert(pre[i] == es[i] && pre[j] == es[j]);
        }
        assert forall|j: int| 0 <= j < pre.len() implies (#[trigger] pre[j]).len() > 0 by {
            assert(pre[j] == es[j]);
        }
        lemma_tokens_map_of_entries(pre, mr);
        assert(m.dom().contains(kl));
        assert(m[kl] == es[n]);
        assert(mr.insert(kl, es[n]) =~= m);
    }
}

/// Parameters whose tokens are non-empty and made of digits and upper-case
/// letters.
pub open spec fn upper_params(m: Map<Seq<char>, Seq<char>>) -> bool {
    forall|k: Seq<char>| #[trigger]
        m.dom().contains(k) ==> all_upper_alnum(m[k]) && m[k].len() > 0
}

/// A canonical rendering reads back as the parameters it renders.
proof fn lemma_rendered_params(m: Map<Seq<char>, Seq<char>>, out: Option<Seq<char>>)
    requires
        renders(m, out),
        upper_params(m),
    ensures
        fragment_ok(out),
        params_of(out) == m,
{
    let es = choose|es: Seq<Seq<char>>|
        #[trigger] sorted_by_key(es) && entries_of(es, m) && out == if es.len() == 0 {
            None
        } else {
            Some(join_dash(es))
        };
    assert forall|j: int| 0 <= j < es.len() implies all_upper_alnum(#[trigger] es[j]) && es[j].len()
        > 0 && !es[j].contains('-') by {
        let k = key_of(es[j]);
        assert(exists|jj: int| 0 <= jj < es.len() && key_of(#[trigger] es[jj]) == k);
        assert(m.dom().contains(k));
        if es[j].contains('-') {
            let i = choose|i: int| 0 <= i < es[j].len() && es[j][i] == '-';
            assert(is_upper_alnum(es[j][i]));
        }
    }
    if es.len() == 0 {
        let e = Seq::<char>::empty();
        lemma_all_valid(e);
        assert(split_on(e, '-') == seq![e]);
        assert(seq![e].drop_last() =~= Seq::<Seq<char>>::empty());
        lemma_tokens_map_of_entries(es, m);
        assert(seq![e].last() == e);
        assert(tokens_map(seq![e]) == tokens_map(Seq::<Seq<char>>::empty()));
        assert(es =~= Seq::<Seq<char>>::empty());
    } else {
        let o = join_dash(es);
        lemma_join_chars(es);
        assert forall|i: int| 0 <= i < o.len() implies is_fragment_char(#[trigger] o[i]) && o[i]
            != '+' by {
            assert(is_upper_alnum(o[i]) || o[i] == '-');
        }
        lemma_all_valid(o);
        lemma_split_join(es);
        lemma_tokens_map_of_entries(es, m);
    }
}

proof fn lemma_params_upper(fragment: Option<Seq<char>>)
    requires
        fragment_ok(fragment),
    ensures
        upper_params(params_of(fragment)),
{
    let f = fragment_text(fragment);
    let toks = split_on(f, delimiter_of(f)->Ok_0);
    assert forall|k: Seq<char>| #[trigger] params_of(fragment).dom().contains(k) implies all_upper_alnum(
        params_of(fragment)[k],
    ) && params_of(fragment)[k].len() > 0 by {
        lemma_tokens_map_values(toks, k);
        let i = choose|i: int|
            0 <= i < toks.len() && toks[i] == tokens_map(toks)[k] && toks[i].len() > 0;
        lemma_pieces_upper_alnum(f, i);
    }
}

/// Writing a token of digits and upper-case letters into a readable
/// fragment a second time changes nothing.
pub proof fn lemma_set_param_twice(
    fragment: Option<Seq<char>>,
    token: Seq<char>,
    once: Option<Seq<char>>,
    twice: Option<Seq<char>>,
)
    requires
        fragment_ok(fragment),
        all_upper_alnum(token),
        token.len() > 0,
        renders(params_of(fragment).insert(key_of(token), token), once),
        renders(params_of(once).insert(key_of(token), token), twice),
    ensures
        twice == once,
{
    let m = params_of(fragment).insert(key_of(token), token);
    lemma_params_upper(fragment);
    lemma_rendered_params(m, once);
    assert(m.insert(key_of(token), token) =~= m);
    lemma_render_unique(m, once, twice);
}

/// Writing two tokens with different keys into a readable fragment gives
/// one text whichever is written first.
pub proof fn lemma_set_param_commutes(
    fragment: Option<Seq<char>>,
    a: Seq<char>,
    b: Seq<char>,
    fa: Option<Seq<char>>,
    fab: Option<Seq<char>>,
    fb: Option<Seq<char>>,
    fba: Option<Seq<char>>,
)
    requires
        fragment_ok(fragment),
        all_upper_alnum(a),
        a.len() > 0,
        all_upper_alnum(b),
        b.len() > 0,
        key_of(a) != key_of(b),
        renders(params_of(fragment).insert(key_of(a), a), fa),
        renders(params_of(fa).insert(key_of(b), b), fab),
        renders(params_of(fragment).insert(key_of(b), b), fb),
        renders(params_of(fb).insert(key_of(a), a), fba),
    ensures
        fab == fba,
{
    let p = params_of(fragment);
    lemma_params_upper(fragment);
    lemma_rendered_params(p.insert(key_of(a), a), fa);
    lemma_rendered_params(p.insert(key_of(b), b), fb);
    assert(p.insert(key_of(a), a).insert(key_of(b), b) =~= p.insert(key_of(b), b).insert(
        key_of(a),
        a,
    ));
    lemma_render_unique(p.insert(key_of(a), a).insert(key_of(b), b), fab, fba);
}


proof fn lemma_key_end_at(t: Seq<char>, h: Seq<char>, i: nat)
    requires
        i <= h.len(),
        h.push('1').is_prefix_of(t),
        forall|j: int| 0 <= j < h.len() ==> h[j] != '1',
    ensures
        key_end(t, i) == h.len(),
    decreases h.len() - i,
{
    assert(t[h.len() as int] == h.push('1')[h.len() as int]);
    if i < h.len() {
        assert(t[i as int] == h.push('1')[i as int]);
        lemma_key_end_at(t, h, i + 1);
    }
}

/// A token that starts with a tag free of `1`, then `1`, has that tag as key.
proof fn lemma_key_of_tagged(t: Seq<char>, h: Seq<char>)
    requires
        h.push('1').is_prefix_of(t),
        forall|j: int| 0 <= j < h.len() ==> h[j] != '1',
    ensures
        key_of(t) == h,
{
    lemma_key_end_at(t, h, 0);
    assert forall|j: int| 0 <= j < h.len() implies t.subrange(0, h.len() as int)[j] == h[j] by {
        assert(t[j] == h.push('1')[j]);
    }
    assert(t.subrange(0, h.len() as int) =~= h);
}

proof fn lemma_first_prefixed_unique(es: Seq<Seq<char>>, p: Seq<char>, i: int)
    requires
        0 <= i < es.len(),
        p.is_prefix_of(es[i]),
        forall|j: int| 0 <= j < es.len() && j != i ==> !p.is_prefix_of(#[trigger] es[j]),
    ensures
        first_prefixed(es, p) == Some(es[i]),
    decreases es.len(),
{
    if i > 0 {
        let r = es.drop_first();
        assert(!p.is_prefix_of(es[0]));
        assert forall|j: int| 0 <= j < r.len() && j != i - 1 implies !p.is_prefix_of(
            #[trigger] r[j],
        ) by {
            assert(r[j] == es[j + 1]);
        }
        lemma_first_prefixed_unique(r, p, i - 1);
    }
}

/// After a token whose tag is free of `1` is set into a readable fragment,
/// reading the parameter with that tag finds the token.
pub proof fn lemma_get_after_set(
    fragment: Option<Seq<char>>,
    tag: Seq<char>,
    token: Seq<char>,
    out: Option<Seq<char>>,
)
    requires
        fragment_ok(fragment),
        all_upper_alnum(token),
        forall|j: int| 0 <= j < tag.len() ==> tag[j] != '1',
        tag.push('1').is_prefix_of(token),
        renders(params_of(fragment).insert(key_of(token), token), out),
    ensures
        param_of(out, tag.push('1')) == Ok::<Option<Seq<char>>, ParseFragmentError>(Some(token)),
{
    let m = params_of(fragment).insert(key_of(token), token);
    lemma_key_of_tagged(token, tag);
    lemma_set_param_canonical_delimiter(fragment, token, out);
    lemma_params_upper(fragment);
    let es = choose|es: Seq<Seq<char>>|
        #[trigger] sorted_by_key(es) && entries_of(es, m) && out == if es.len() == 0 {
            None
        } else {
            Some(join_dash(es))
        };
    assert(m.dom().contains(key_of(token)));
    let i = choose|j: int| 0 <= j < es.len() && key_of(#[trigger] es[j]) == key_of(token);
    assert(es[i] == token);
    assert forall|j: int| 0 <= j < es.len() implies all_upper_alnum(#[trigger] es[j]) && !es[j].contains('-') by {
        let k = key_of(es[j]);
        assert(exists|jj: int| 0 <= jj < es.len() && key_of(#[trigger] es[jj]) == k);
        assert(m.dom().contains(k));
        if es[j].contains('-') {
            let x = choose|x: int| 0 <= x < es[j].len() && es[j][x] == '-';
            assert(is_upper_alnum(es[j][x]));
        }
    }
    assert forall|j: int| 0 <= j < es.len() && j != i implies !tag.push('1').is_prefix_of(
        #[trigger] es[j],
    ) by {
        if tag.push('1').is_prefix_of(es[j]) {
            lemma_key_of_tagged(es[j], tag);
            if j < i {
                assert(lex_lt(key_of(es[j]), key_of(es[i])));
            } else {
                assert(lex_lt(key_of(es[i]), key_of(es[j])));
            }
            lemma_lex_irreflexive(tag);
        }
    }
    lemma_split_join(es);
    lemma_first_prefixed_unique(es, tag.push('1'), i);
}

} // verus!
