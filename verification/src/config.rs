//! `issen.yml` configuration.
//!
//! ```yaml
//! rules:
//!   sentence-length: { max: 100 }
//!   no-exclamation-question-mark: false   # disable
//!   ja-no-weak-phrase: { severity: warning }
//! gate:
//!   fail-on: error
//! ```
//!
//! A rule's options are merged key by key over the ja-technical-writing preset,
//! so `{ severity: warning }` keeps the preset's thresholds. The YAML text
//! itself is read by the application; the library works on the values it
//! holds, as [`OptValue`]s.

use crate::utf;
use regex::Regex;
use vstd::prelude::*;

verus! {

/// A configuration value, as YAML holds it.
#[derive(Debug)]
pub enum OptValue {
    Null,
    Bool(bool),
    /// A non-negative integer.
    Int(u64),
    Str(String),
    List(Vec<OptValue>),
    /// Entries in document order; keys are unique.
    Mapping(Vec<(String, OptValue)>),
    /// Anything else (a negative or fractional number, a tagged value).
    Other,
}

/// The value stored under `key`: the first entry whose key reads `key`.
pub open spec fn lookup(entries: Seq<(String, OptValue)>, key: Seq<char>) -> Option<OptValue>
    decreases entries.len(),
{
    if entries.len() == 0 {
        None
    } else if entries[0].0@ == key {
        Some(entries[0].1)
    } else {
        lookup(entries.drop_first(), key)
    }
}

/// The index of the first entry whose key reads `key`.
pub open spec fn find_key(entries: Seq<(String, OptValue)>, key: Seq<char>) -> Option<int>
    decreases entries.len(),
{
    if entries.len() == 0 {
        None
    } else if entries.last().0@ == key && find_key(entries.drop_last(), key) is None {
        Some(entries.len() - 1)
    } else {
        find_key(entries.drop_last(), key)
    }
}

/// The strings among `items`, in order.
pub open spec fn str_items(items: Seq<OptValue>) -> Seq<Seq<char>>
    decreases items.len(),
{
    if items.len() == 0 {
        Seq::empty()
    } else {
        let rest = str_items(items.drop_last());
        match items.last() {
            OptValue::Str(s) => rest.push(s@),
            _ => rest,
        }
    }
}

pub open spec fn views(v: Seq<String>) -> Seq<Seq<char>> {
    Seq::new(v.len(), |i: int| v[i]@)
}

pub open spec fn str_views(v: Seq<&str>) -> Seq<Seq<char>> {
    Seq::new(v.len(), |i: int| v[i]@)
}

impl OptValue {
    /// The value under `key` when this is a mapping.
    pub open spec fn get_spec(&self, key: Seq<char>) -> Option<OptValue> {
        match self {
            OptValue::Mapping(m) => lookup(m@, key),
            _ => None,
        }
    }

    pub fn get(&self, key: &str) -> (r: Option<&OptValue>)
        ensures
            r is None <==> self.get_spec(key@) is None,
            r matches Some(x) ==> self.get_spec(key@) == Some(*x),
    {
        match self {
            OptValue::Mapping(m) => {
                let mut i: usize = 0;
                assert(m@.skip(0) =~= m@);
                while i < m.len()
                    invariant
                        i <= m@.len(),
                        self.get_spec(key@) == lookup(m@, key@),
                        lookup(m@.skip(i as int), key@) == lookup(m@, key@),
                    decreases m@.len() - i,
                {
                    assert(m@.skip(i as int).drop_first() =~= m@.skip(i + 1));
                    assert(m@.skip(i as int)[0] == m@[i as int]);
                    if utf::str_eq(m[i].0.as_str(), key) {
                        assert(m@.skip(i as int)[0].0@ == key@);
                        assert(lookup(m@.skip(i as int), key@) == Some(m@[i as int].1));
                        return Some(&m[i].1);
                    }
                    i = i + 1;
                }
                None
            },
            _ => None,
        }
    }

    /// The strings of a list value (others are skipped); nothing otherwise.
    pub open spec fn strs_spec(&self) -> Seq<Seq<char>> {
        match self {
            OptValue::List(items) => str_items(items@),
            _ => Seq::empty(),
        }
    }

    pub fn strs(&self) -> (r: Vec<String>)
        ensures
            views(r@) == self.strs_spec(),
    {
        let mut out: Vec<String> = Vec::new();
        match self {
            OptValue::List(items) => {
                let mut i: usize = 0;
                while i < items.len()
                    invariant
                        i <= items@.len(),
                        views(out@) == str_items(items@.take(i as int)),
                    decreases items@.len() - i,
                {
                    assert(items@.take(i + 1).drop_last() =~= items@.take(i as int));
                    match &items[i] {
                        OptValue::Str(s) => {
                            let ghost before = out@;
                            out.push(s.clone());
                            assert(views(out@) =~= views(before).push(s@));
                        },
                        _ => {},
                    }
                    i = i + 1;
                }
                assert(items@.take(i as int) =~= items@);
            },
            _ => {
                assert(views(out@) =~= Seq::<Seq<char>>::empty());
            },
        }
        out
    }
}

pub open spec fn opt_usize_spec(v: OptValue, key: Seq<char>, default: usize) -> usize {
    match v.get_spec(key) {
        Some(OptValue::Int(n)) => n as usize,
        _ => default,
    }
}

pub open spec fn opt_bool_spec(v: OptValue, key: Seq<char>, default: bool) -> bool {
    match v.get_spec(key) {
        Some(OptValue::Bool(b)) => b,
        _ => default,
    }
}

pub open spec fn opt_str_spec(v: OptValue, key: Seq<char>, default: Seq<char>) -> Seq<char> {
    match v.get_spec(key) {
        Some(OptValue::Str(s)) => s@,
        _ => default,
    }
}

/// The strings listed under `key`; `default` when there are none.
pub open spec fn opt_strs_spec(v: OptValue, key: Seq<char>, default: Seq<Seq<char>>) -> Seq<Seq<char>> {
    let given = match v.get_spec(key) {
        Some(x) => x.strs_spec(),
        None => Seq::empty(),
    };
    if given.len() == 0 {
        default
    } else {
        given
    }
}

pub fn opt_usize(v: &OptValue, key: &str, default: usize) -> (r: usize)
    ensures
        r == opt_usize_spec(*v, key@, default),
{
    match v.get(key) {
        Some(OptValue::Int(n)) => *n as usize,
        _ => default,
    }
}

pub fn opt_bool(v: &OptValue, key: &str, default: bool) -> (r: bool)
    ensures
        r == opt_bool_spec(*v, key@, default),
{
    match v.get(key) {
        Some(OptValue::Bool(b)) => *b,
        _ => default,
    }
}

pub fn opt_str(v: &OptValue, key: &str, default: &str) -> (r: String)
    ensures
        r@ == opt_str_spec(*v, key@, default@),
{
    match v.get(key) {
        Some(OptValue::Str(s)) => s.clone(),
        _ => default.to_string(),
    }
}

/// A string list option; `default` when absent or empty.
pub fn opt_strs_or(v: &OptValue, key: &str, default: &[&str]) -> (r: Vec<String>)
    ensures
        views(r@) == opt_strs_spec(*v, key@, str_views(default@)),
{
    let given = match v.get(key) {
        Some(x) => x.strs(),
        None => {
            let e: Vec<String> = Vec::new();
            assert(views(e@) =~= Seq::<Seq<char>>::empty());
            e
        },
    };
    if given.len() == 0 {
        let mut out: Vec<String> = Vec::new();
        let mut i: usize = 0;
        while i < default.len()
            invariant
                i <= default@.len(),
                out@.len() == i,
                forall|k: int| 0 <= k < i ==> #[trigger] out@[k]@ == default@[k]@,
            decreases default@.len() - i,
        {
            let t = default[i].to_string();
            out.push(t);
            i = i + 1;
        }
        assert(views(out@) =~= str_views(default@));
        out
    } else {
        given
    }
}

pub fn opt_strs(v: &OptValue, key: &str) -> (r: Vec<String>)
    ensures
        views(r@) == opt_strs_spec(*v, key@, Seq::empty()),
{
    let none: [&str; 0] = [];
    let r = opt_strs_or(v, key, &none);
    assert(str_views(none@) =~= Seq::<Seq<char>>::empty());
    r
}

/// When the exit code should be non-zero.
///
/// ```yaml
/// gate:
///   fail-on: error      # error (default) | warning | never
///   max-warnings: 3     # also fail when warnings exceed this
/// ```
#[derive(Debug)]
pub struct Gate {
    pub fail_on: Option<String>,
    pub max_warnings: Option<usize>,
}

pub open spec fn lit_never() -> Seq<char> {
    seq!['n', 'e', 'v', 'e', 'r']
}

pub open spec fn lit_none() -> Seq<char> {
    seq!['n', 'o', 'n', 'e']
}

pub open spec fn lit_warning() -> Seq<char> {
    seq!['w', 'a', 'r', 'n', 'i', 'n', 'g']
}

pub open spec fn lit_warn() -> Seq<char> {
    seq!['w', 'a', 'r', 'n']
}

pub open spec fn lit_error() -> Seq<char> {
    seq!['e', 'r', 'r', 'o', 'r']
}

/// The exit status is a failure for these counts.
pub open spec fn gate_fails(fail_on: Option<Seq<char>>, max_warnings: Option<usize>, errors: int, warnings: int) -> bool {
    let level_fails = match fail_on {
        Some(v) => if v == lit_never() || v == lit_none() {
            false
        } else if v == lit_warning() || v == lit_warn() {
            errors + warnings > 0
        } else {
            errors > 0
        },
        None => errors > 0,
    };
    level_fails || match max_warnings {
        Some(m) => warnings > m,
        None => false,
    }
}

/// The values `gate.fail-on` accepts.
pub open spec fn fail_on_known(v: Seq<char>) -> bool {
    v == lit_error() || v == lit_warning() || v == lit_warn() || v == lit_never() || v == lit_none()
}

impl Gate {
    pub open spec fn fail_on_view(&self) -> Option<Seq<char>> {
        match self.fail_on {
            Some(s) => Some(s@),
            None => None,
        }
    }

    pub fn fails(&self, errors: usize, warnings: usize) -> (b: bool)
        ensures
            b == gate_fails(self.fail_on_view(), self.max_warnings, errors as int, warnings as int),
    {
        proof {
            reveal_strlit("never");
            reveal_strlit("none");
            reveal_strlit("warning");
            reveal_strlit("warn");
            assert("never"@ =~= lit_never());
            assert("none"@ =~= lit_none());
            assert("warning"@ =~= lit_warning());
            assert("warn"@ =~= lit_warn());
        }
        let level_fails = match &self.fail_on {
            Some(v) => if utf::str_eq(v.as_str(), "never") || utf::str_eq(v.as_str(), "none") {
                false
            } else if utf::str_eq(v.as_str(), "warning") || utf::str_eq(v.as_str(), "warn") {
                errors > 0 || warnings > 0
            } else {
                errors > 0
            },
            None => errors > 0,
        };
        level_fails || match self.max_warnings {
            Some(m) => warnings > m,
            None => false,
        }
    }

    /// Rejects a `fail-on` value that is not one of the known levels.
    pub fn validate(&self) -> (r: Result<(), String>)
        ensures
            r is Err <==> (self.fail_on_view() matches Some(v) && !fail_on_known(v)),
            r matches Err(msg) ==> msg@ == "gate.fail-on: unknown value \""@ + self.fail_on_view()->0
                + "\". Use one of: error, warning, warn, never, none"@,
    {
        proof {
            reveal_strlit("error");
            reveal_strlit("never");
            reveal_strlit("none");
            reveal_strlit("warning");
            reveal_strlit("warn");
            assert("error"@ =~= lit_error());
            assert("never"@ =~= lit_never());
            assert("none"@ =~= lit_none());
            assert("warning"@ =~= lit_warning());
            assert("warn"@ =~= lit_warn());
        }
        match &self.fail_on {
            Some(v) => {
                let s = v.as_str();
                if utf::str_eq(s, "error") || utf::str_eq(s, "warning") || utf::str_eq(s, "warn") || utf::str_eq(s, "never")
                    || utf::str_eq(s, "none") {
                    Ok(())
                } else {
                    let a = utf::concat_str("gate.fail-on: unknown value \"", s);
                    let msg = utf::concat_str(a.as_str(), "\". Use one of: error, warning, warn, never, none");
                    Err(msg)
                }
            },
            None => Ok(()),
        }
    }
}

impl Clone for Gate {
    fn clone(&self) -> (r: Self)
        ensures
            r == *self,
    {
        Gate {
            fail_on: match &self.fail_on {
                Some(s) => Some(s.clone()),
                None => None,
            },
            max_warnings: self.max_warnings,
        }
    }
}

/// The error the regex crate reports for a pattern, or `None` when
/// `Regex::new` accepts it.
pub uninterp spec fn regex_error(pattern: Seq<char>) -> Option<Seq<char>>;

/// The byte spans of the leftmost non-overlapping matches of a pattern the
/// regex crate accepts, in order.
pub uninterp spec fn regex_spans(pattern: Seq<char>, text: Seq<char>) -> Seq<(usize, usize)>;

/// Compiles `pattern` with `regex::Regex::new`; claims only that the outcome
/// is the crate's (named by `regex_error`), with the error's `Display` text.
#[verifier::external_body]
fn regex_check(pattern: &str) -> (r: Option<String>)
    ensures
        r is None <==> regex_error(pattern@) is None,
        r matches Some(e) ==> regex_error(pattern@) == Some(e@),
{
    match Regex::new(pattern) {
        Ok(_) => None,
        Err(e) => Some(e.to_string()),
    }
}

/// The spans `regex::Regex::find_iter` reports for a pattern that compiles;
/// claims only that they are the crate's (named by `regex_spans`), and that
/// each lies in the text, as the crate documents match offsets.
#[verifier::external_body]
fn regex_find(pattern: &str, text: &str) -> (r: Vec<(usize, usize)>)
    requires
        regex_error(pattern@) is None,
    ensures
        r@ == regex_spans(pattern@, text@),
        forall|i: int| 0 <= i < r@.len() ==> #[trigger] r@[i].0 <= r@[i].1 <= utf::byte_len(text@),
{
    Regex::new(pattern).unwrap().find_iter(text).map(|m| (m.start(), m.end())).collect()
}

/// `regex::Regex::replace_all` with an empty replacement, for a pattern that
/// compiles. An empty replacement has no `$` to expand, so the crate copies
/// the text around the matches `find_iter` reports; the contract claims that
/// result: the text outside the spans named by `regex_spans`.
#[verifier::external_body]
fn regex_remove(pattern: &str, text: &str) -> (r: String)
    requires
        regex_error(pattern@) is None,
    ensures
        r@ == keep_from(text@, regex_spans(pattern@, text@), 0),
{
    Regex::new(pattern).unwrap().replace_all(text, "").into_owned()
}

/// A configured pattern: a literal, or textlint's `/pattern/flags` form,
/// kept as the source the regex crate compiles.
#[derive(Debug)]
pub enum Matcher {
    Literal(String),
    Regex(String),
}

/// Leftmost non-overlapping occurrences of `lit` in `text` from character
/// `i` on, as character spans.
pub open spec fn literal_from(text: Seq<char>, lit: Seq<char>, i: int) -> Seq<(int, int)>
    decreases text.len() - i,
{
    if lit.len() == 0 || i < 0 || i + lit.len() > text.len() {
        Seq::empty()
    } else if text.subrange(i, i + lit.len()) == lit {
        seq![(i, i + lit.len())] + literal_from(text, lit, i + lit.len())
    } else {
        literal_from(text, lit, i + 1)
    }
}

/// Character spans as byte spans.
pub open spec fn byte_spans(text: Seq<char>, spans: Seq<(int, int)>) -> Seq<(usize, usize)> {
    Seq::new(spans.len(), |k: int| (utf::boff(text, spans[k].0) as usize, utf::boff(text, spans[k].1) as usize))
}

/// The text between and around the spans, which must be in order.
pub open spec fn keep_from(text: Seq<char>, spans: Seq<(usize, usize)>, from: int) -> Seq<char>
    decreases spans.len(),
{
    if spans.len() == 0 {
        utf::chars_in_bytes(text, from, utf::byte_len(text) as int)
    } else {
        utf::chars_in_bytes(text, from, spans[0].0 as int) + keep_from(text, spans.drop_first(), spans[0].1 as int)
    }
}

/// The kind of a `/pattern/flags` spec, or a literal.
pub ghost enum MatcherSpec {
    Empty,
    Literal(Seq<char>),
    BadFlag(char),
    Regex(Seq<char>),
}

/// The part of `s` after its first character up to its last '/', and the rest.
pub open spec fn last_slash(s: Seq<char>) -> int
    decreases s.len(),
{
    if s.len() == 0 {
        -1
    } else if s.last() == '/' {
        s.len() - 1
    } else {
        last_slash(s.drop_last())
    }
}

/// The inline flags kept from `flags`, or the first flag the regex crate
/// would not know.
pub open spec fn inline_flags(flags: Seq<char>) -> Result<Seq<char>, char>
    decreases flags.len(),
{
    if flags.len() == 0 {
        Ok(Seq::empty())
    } else {
        match inline_flags(flags.drop_last()) {
            Err(c) => Err(c),
            Ok(kept) => {
                let f = flags.last();
                if f == 'i' || f == 'm' || f == 's' {
                    Ok(kept.push(f))
                } else if f == 'g' || f == 'u' {
                    Ok(kept)
                } else {
                    Err(f)
                }
            },
        }
    }
}

/// How a spec string reads: empty, a literal, a regex with a bad flag, or the
/// source of a regex.
pub open spec fn matcher_spec(spec: Seq<char>) -> MatcherSpec {
    if spec.len() == 0 {
        MatcherSpec::Empty
    } else if spec[0] != '/' || last_slash(spec.drop_first()) < 0 {
        MatcherSpec::Literal(spec)
    } else {
        let body = spec.drop_first();
        let k = last_slash(body);
        let pattern = body.take(k);
        let flags = body.skip(k + 1);
        match inline_flags(flags) {
            Err(c) => MatcherSpec::BadFlag(c),
            Ok(kept) => MatcherSpec::Regex(
                if kept.len() == 0 {
                    pattern
                } else {
                    "(?"@ + kept + ")"@ + pattern
                },
            ),
        }
    }
}

/// What a spec string parses to: nothing, a matcher, or an error message.
pub open spec fn parse_spec(spec: Seq<char>) -> Result<Option<MatcherSpec>, Seq<char>> {
    match matcher_spec(spec) {
        MatcherSpec::Empty => Ok(None),
        MatcherSpec::Literal(l) => Ok(Some(MatcherSpec::Literal(l))),
        MatcherSpec::BadFlag(c) => Err("unknown regex flag \""@ + seq![c] + "\" in \""@ + spec + "\""@),
        MatcherSpec::Regex(src) => match regex_error(src) {
            None => Ok(Some(MatcherSpec::Regex(src))),
            Some(err) => Err("bad regex \""@ + spec + "\": "@ + err),
        },
    }
}

/// The matchers a list of specs compiles to, in order, or the first error.
pub open spec fn matchers_spec(specs: Seq<Seq<char>>) -> Result<Seq<MatcherSpec>, Seq<char>>
    decreases specs.len(),
{
    if specs.len() == 0 {
        Ok(Seq::empty())
    } else {
        match matchers_spec(specs.drop_last()) {
            Err(e) => Err(e),
            Ok(ms) => match parse_spec(specs.last()) {
                Err(e) => Err(e),
                Ok(None) => Ok(ms),
                Ok(Some(m)) => Ok(ms.push(m)),
            },
        }
    }
}

/// The byte spans a matcher finds in `text`.
pub open spec fn spans_of(m: MatcherSpec, text: Seq<char>) -> Seq<(usize, usize)> {
    match m {
        MatcherSpec::Literal(l) => byte_spans(text, literal_from(text, l, 0)),
        MatcherSpec::Regex(p) => regex_spans(p, text),
        _ => Seq::empty(),
    }
}

/// `text` with every match of each matcher removed, one matcher after another.
pub open spec fn remove_all(ms: Seq<MatcherSpec>, text: Seq<char>) -> Seq<char>
    decreases ms.len(),
{
    if ms.len() == 0 {
        text
    } else {
        let t = remove_all(ms.drop_last(), text);
        keep_from(t, spans_of(ms.last(), t), 0)
    }
}

impl View for Matcher {
    type V = MatcherSpec;

    open spec fn view(&self) -> MatcherSpec {
        match self {
            Matcher::Literal(l) => MatcherSpec::Literal(l@),
            Matcher::Regex(p) => MatcherSpec::Regex(p@),
        }
    }
}

pub open spec fn matcher_views(ms: Seq<Matcher>) -> Seq<MatcherSpec> {
    Seq::new(ms.len(), |i: int| ms[i]@)
}

impl Matcher {
    pub open spec fn spans_spec(&self, text: Seq<char>) -> Seq<(usize, usize)> {
        spans_of(self@, text)
    }

    /// A compiled regex source compiles; a literal is not empty.
    pub open spec fn wf(&self) -> bool {
        match self {
            Matcher::Literal(l) => l@.len() > 0,
            Matcher::Regex(p) => regex_error(p@) is None,
        }
    }

    /// `None` for an empty spec, which matches nothing.
    pub fn parse(spec: &str) -> (r: Result<Option<Matcher>, String>)
        ensures
            match matcher_spec(spec@) {
                MatcherSpec::Empty => r matches Ok(None),
                MatcherSpec::Literal(l) => r matches Ok(Some(Matcher::Literal(x))) && x@ == l,
                MatcherSpec::BadFlag(c) => r matches Err(e) && e@ == "unknown regex flag \""@ + seq![c] + "\" in \""@
                    + spec@ + "\""@,
                MatcherSpec::Regex(src) => match regex_error(src) {
                    None => r matches Ok(Some(Matcher::Regex(x))) && x@ == src,
                    Some(err) => r matches Err(e) && e@ == "bad regex \""@ + spec@ + "\": "@ + err,
                },
            },
            r matches Ok(Some(m)) ==> m.wf(),
            match r {
                Ok(None) => parse_spec(spec@) == Ok::<Option<MatcherSpec>, Seq<char>>(None),
                Ok(Some(m)) => parse_spec(spec@) == Ok::<Option<MatcherSpec>, Seq<char>>(Some(m@)),
                Err(e) => parse_spec(spec@) == Err::<Option<MatcherSpec>, Seq<char>>(e@),
            },
    {
        let cs = utf::chars_of(spec);
        if cs.len() == 0 {
            return Ok(None);
        }
        // rsplit_once('/') on what follows the leading '/'.
        let mut k: usize = cs.len();
        while k > 1 && cs[k - 1] != '/'
            invariant
                1 <= k <= cs@.len(),
                forall|j: int| k <= j < cs@.len() ==> cs@[j] != '/',
            decreases k,
        {
            k = k - 1;
        }
        let ghost body = cs@.drop_first();
        proof {
            lemma_last_slash(body, k - 2);
        }
        if cs[0] != '/' || k <= 1 {
            return Ok(Some(Matcher::Literal(spec.to_string())));
        }
        // body[..k-2] is the pattern, body[k-1..] the flags.
        let mut inline: Vec<char> = Vec::new();
        let mut f = k;
        assert(cs@.subrange(k as int, k as int) =~= Seq::<char>::empty());
        while f < cs.len()
            invariant
                1 < k <= f <= cs@.len(),
                cs@ == spec@,
                body == cs@.drop_first(),
                cs@[0] == '/',
                last_slash(body) == k - 2,
                inline_flags(cs@.subrange(k as int, f as int)) == Ok::<Seq<char>, char>(inline@),
            decreases cs@.len() - f,
        {
            let c = cs[f];
            assert(cs@.subrange(k as int, f + 1).drop_last() =~= cs@.subrange(k as int, f as int));
            if c == 'i' || c == 'm' || c == 's' {
                inline.push(c);
            } else if c == 'g' || c == 'u' {
            } else {
                let a = utf::concat3("unknown regex flag \"", utf::char_string(c).as_str(), "\" in \"");
                let msg = utf::concat3(a.as_str(), spec, "\"");
                proof {
                    assert(cs@.subrange(k as int, cs@.len() as int).take((f - k) as int) =~= cs@.subrange(k as int, f as int));
                    lemma_flags_err(cs@.subrange(k as int, cs@.len() as int), (f - k) as int);
                    let flags = cs@.subrange(k as int, cs@.len() as int);
                    assert(body.skip(k - 1) =~= flags);
                    assert(flags[(f - k) as int] == c);
                    assert(inline_flags(body.skip(k - 1)) == Err::<Seq<char>, char>(c));
                    assert(spec@.drop_first() == body);
                    assert(spec@[0] == '/');
                    assert(last_slash(spec@.drop_first()) == k - 2);
                    assert(matcher_spec(spec@) == MatcherSpec::BadFlag(c));
                }
                return Err(msg);
            }
            f = f + 1;
        }
        proof {
            assert(body.skip(k - 1) =~= cs@.subrange(k as int, cs@.len() as int));
            assert(body.take(k - 2) =~= cs@.subrange(1, k - 1));
        }
        let pattern = substring_chars(&cs, 1, k - 1);
        let source = if inline.len() == 0 {
            pattern
        } else {
            let fl = utf::string_of(inline.as_slice());
            let a = utf::concat3("(?", fl.as_str(), ")");
            utf::concat_str(a.as_str(), pattern.as_str())
        };
        match regex_check(source.as_str()) {
            None => Ok(Some(Matcher::Regex(source))),
            Some(err) => {
                let a = utf::concat3("bad regex \"", spec, "\": ");
                Err(utf::concat_str(a.as_str(), err.as_str()))
            },
        }
    }

    /// Every match in `text` as byte start, byte end and the matched text.
    pub fn find_all(&self, text: &str) -> (r: Vec<(usize, usize, String)>)
        requires
            self.wf(),
        ensures
            r@.len() == self.spans_spec(text@).len(),
            forall|i: int| 0 <= i < r@.len() ==> {
                let sp = #[trigger] self.spans_spec(text@)[i];
                &&& r@[i].0 == sp.0
                &&& r@[i].1 == sp.1
                &&& r@[i].2@ == utf::chars_in_bytes(text@, sp.0 as int, sp.1 as int)
            },
    {
        let spans = self.spans(text);
        let cs = utf::chars_of(text);
        let total = utf::str_len(text);
        let offs = utf::byte_offsets(&cs);
        let mut out: Vec<(usize, usize, String)> = Vec::new();
        let mut i: usize = 0;
        while i < spans.len()
            invariant
                i <= spans@.len(),
                spans@ == self.spans_spec(text@),
                cs@ == text@,
                offs@.len() == cs@.len() + 1,
                forall|k: int| 0 <= k <= cs@.len() ==> #[trigger] offs@[k] == utf::boff(cs@, k),
                out@.len() == i,
                forall|k: int| 0 <= k < i ==> {
                    let sp = #[trigger] spans@[k];
                    &&& out@[k].0 == sp.0
                    &&& out@[k].1 == sp.1
                    &&& out@[k].2@ == utf::chars_in_bytes(text@, sp.0 as int, sp.1 as int)
                },
            decreases spans@.len() - i,
        {
            let (a, b) = spans[i];
            let piece = crate::document::chars_between(&cs, &offs, a, b);
            out.push((a, b, utf::string_of(piece.as_slice())));
            i = i + 1;
        }
        out
    }

    /// The match spans in `text`.
    pub fn spans(&self, text: &str) -> (r: Vec<(usize, usize)>)
        requires
            self.wf(),
        ensures
            r@ == self.spans_spec(text@),
    {
        match self {
            Matcher::Literal(lit) => literal_spans(lit.as_str(), text),
            Matcher::Regex(p) => regex_find(p.as_str(), text),
        }
    }

    /// The text with every match removed, as textlint's `skipPatterns` does.
    pub fn remove_from(&self, text: &str) -> (r: String)
        requires
            self.wf(),
        ensures
            r@ == keep_from(text@, self.spans_spec(text@), 0),
    {
        if let Matcher::Regex(p) = self {
            return regex_remove(p.as_str(), text);
        }
        let spans = self.spans(text);
        let cs = utf::chars_of(text);
        let total = utf::str_len(text);
        let offs = utf::byte_offsets(&cs);
        let mut out: Vec<char> = Vec::new();
        let mut from: usize = 0;
        let mut i: usize = 0;
        assert(spans@.skip(0) =~= spans@);
        assert(out@ + keep_from(text@, spans@, 0) =~= keep_from(text@, spans@, 0));
        while i < spans.len()
            invariant
                i <= spans@.len(),
                spans@ == self.spans_spec(text@),
                cs@ == text@,
                total == utf::byte_len(text@),
                offs@.len() == cs@.len() + 1,
                forall|k: int| 0 <= k <= cs@.len() ==> #[trigger] offs@[k] == utf::boff(cs@, k),
                out@ + keep_from(text@, spans@.skip(i as int), from as int) == keep_from(text@, spans@, 0),
            decreases spans@.len() - i,
        {
            let (a, b) = spans[i];
            let piece = crate::document::chars_between(&cs, &offs, from, a);
            let ghost before = out@;
            let mut t: usize = 0;
            while t < piece.len()
                invariant
                    t <= piece@.len(),
                    out@ == before + piece@.take(t as int),
                decreases piece@.len() - t,
            {
                out.push(piece[t]);
                t = t + 1;
                assert(out@ =~= before + piece@.take(t as int));
            }
            assert(piece@.take(t as int) =~= piece@);
            assert(spans@.skip(i as int).drop_first() =~= spans@.skip(i + 1));
            assert(spans@.skip(i as int)[0] == spans@[i as int]);
            assert(out@ + keep_from(text@, spans@.skip(i + 1), b as int) =~= before + keep_from(
                text@,
                spans@.skip(i as int),
                from as int,
            ));
            from = b;
            i = i + 1;
        }
        let piece = crate::document::chars_between(&cs, &offs, from, total);
        let ghost before = out@;
        let mut t: usize = 0;
        while t < piece.len()
            invariant
                t <= piece@.len(),
                out@ == before + piece@.take(t as int),
            decreases piece@.len() - t,
        {
            out.push(piece[t]);
            t = t + 1;
            assert(out@ =~= before + piece@.take(t as int));
        }
        assert(piece@.take(t as int) =~= piece@);
        assert(spans@.skip(i as int) =~= Seq::<(usize, usize)>::empty());
        utf::string_of(out.as_slice())
    }
}

proof fn lemma_last_slash(s: Seq<char>, k: int)
    requires
        -1 <= k < s.len(),
        forall|j: int| k < j < s.len() ==> s[j] != '/',
        k == -1 || s[k] == '/',
    ensures
        last_slash(s) == k,
    decreases s.len(),
{
    if s.len() > 0 && k < s.len() - 1 {
        lemma_last_slash(s.drop_last(), k);
    }
}

proof fn lemma_flags_err(flags: Seq<char>, i: int)
    requires
        0 <= i < flags.len(),
        inline_flags(flags.take(i)) is Ok,
        !(flags[i] == 'i' || flags[i] == 'm' || flags[i] == 's' || flags[i] == 'g' || flags[i] == 'u'),
    ensures
        inline_flags(flags) == Err::<Seq<char>, char>(flags[i]),
    decreases flags.len(),
{
    if i == flags.len() - 1 {
        assert(flags.drop_last() =~= flags.take(i));
    } else {
        assert(flags.drop_last().take(i) =~= flags.take(i));
        lemma_flags_err(flags.drop_last(), i);
    }
}

fn substring_chars(cs: &Vec<char>, s: usize, e: usize) -> (r: String)
    requires
        s <= e <= cs@.len(),
    ensures
        r@ == cs@.subrange(s as int, e as int),
{
    let mut v: Vec<char> = Vec::new();
    let mut i = s;
    while i < e
        invariant
            s <= i <= e <= cs@.len(),
            v@ == cs@.subrange(s as int, i as int),
        decreases e - i,
    {
        v.push(cs[i]);
        i = i + 1;
        assert(v@ =~= cs@.subrange(s as int, i as int));
    }
    utf::string_of(v.as_slice())
}

/// Byte spans of the leftmost non-overlapping occurrences of a non-empty
/// literal, as `str::match_indices` finds them (UTF-8 matching at the byte
/// level only ever matches at character boundaries).
fn literal_spans(lit: &str, text: &str) -> (r: Vec<(usize, usize)>)
    requires
        lit@.len() > 0,
    ensures
        r@ == byte_spans(text@, literal_from(text@, lit@, 0)),
{
    let cs = utf::chars_of(text);
    let total = utf::str_len(text);
    let offs = utf::byte_offsets(&cs);
    let p = utf::chars_of(lit);
    let ghost all = literal_from(cs@, p@, 0);
    let mut out: Vec<(usize, usize)> = Vec::new();
    let ghost mut done: Seq<(int, int)> = Seq::empty();
    let mut i: usize = 0;
    while i <= cs.len() && p.len() <= cs.len() - i
        invariant
            cs@ == text@,
            p@ == lit@,
            p@.len() > 0,
            offs@.len() == cs@.len() + 1,
            forall|k: int| 0 <= k <= cs@.len() ==> #[trigger] offs@[k] == utf::boff(cs@, k),
            i <= cs@.len(),
            done + literal_from(cs@, p@, i as int) == all,
            out@ == byte_spans(cs@, done),
        decreases cs@.len() - i,
    {
        let mut j: usize = 0;
        while j < p.len() && cs[i + j] == p[j]
            invariant
                i + p@.len() <= cs.len(),
                j <= p@.len(),
                forall|k: int| 0 <= k < j ==> cs@[i + k] == p@[k],
            decreases p@.len() - j,
        {
            j = j + 1;
        }
        if j == p.len() {
            assert(cs@.subrange(i as int, i + p@.len()) =~= p@);
            let ghost old_done = done;
            proof {
                done = done.push((i as int, i + p@.len()));
                assert(done + literal_from(cs@, p@, i + p@.len()) =~= old_done + (seq![(i as int, i + p@.len())]
                    + literal_from(cs@, p@, i + p@.len())));
            }
            out.push((offs[i], offs[i + p.len()]));
            assert(out@ =~= byte_spans(cs@, done));
            i = i + p.len();
        } else {
            assert(cs@.subrange(i as int, i + p@.len())[j as int] == cs@[i + j]);
            i = i + 1;
        }
    }
    assert(literal_from(cs@, p@, i as int) =~= Seq::<(int, int)>::empty());
    assert(done =~= all);
    out
}

/// Compile every entry of a string-list option into matchers.
pub fn matchers(v: &OptValue, key: &str) -> (r: Result<Vec<Matcher>, String>)
    ensures
        r matches Ok(ms) ==> forall|i: int| 0 <= i < ms@.len() ==> (#[trigger] ms@[i]).wf(),
        r matches Ok(ms) ==> matchers_spec(opt_strs_spec(*v, key@, Seq::empty())) == Ok::<Seq<MatcherSpec>, Seq<char>>(
            matcher_views(ms@),
        ),
        r matches Err(e) ==> matchers_spec(opt_strs_spec(*v, key@, Seq::empty())) == Err::<Seq<MatcherSpec>, Seq<char>>(e@),
{
    let specs = opt_strs(v, key);
    let ghost sv = opt_strs_spec(*v, key@, Seq::empty());
    let mut out: Vec<Matcher> = Vec::new();
    let mut i: usize = 0;
    assert(sv.take(0) =~= Seq::<Seq<char>>::empty());
    assert(matcher_views(out@) =~= Seq::<MatcherSpec>::empty());
    while i < specs.len()
        invariant
            i <= specs@.len(),
            sv == opt_strs_spec(*v, key@, Seq::empty()),
            views(specs@) == sv,
            forall|k: int| 0 <= k < out@.len() ==> (#[trigger] out@[k]).wf(),
            matchers_spec(sv.take(i as int)) == Ok::<Seq<MatcherSpec>, Seq<char>>(matcher_views(out@)),
        decreases specs@.len() - i,
    {
        let ghost before = out@;
        assert(sv.take(i + 1).drop_last() =~= sv.take(i as int));
        assert(sv.take(i + 1).last() == specs@[i as int]@);
        match Matcher::parse(specs[i].as_str()) {
            Ok(Some(m)) => {
                out.push(m);
                assert(matcher_views(out@) =~= matcher_views(before).push(m@));
            },
            Ok(None) => {},
            Err(e) => {
                proof {
                    assert(matchers_spec(sv.take(i + 1)) == Err::<Seq<MatcherSpec>, Seq<char>>(e@));
                    lemma_matchers_err(sv, i as int + 1);
                    assert(matchers_spec(sv) == Err::<Seq<MatcherSpec>, Seq<char>>(e@));
                }
                return Err(e);
            },
        }
        i = i + 1;
    }
    assert(sv.take(i as int) =~= sv);
    Ok(out)
}

proof fn lemma_matchers_err(specs: Seq<Seq<char>>, n: int)
    requires
        0 <= n <= specs.len(),
        matchers_spec(specs.take(n)) is Err,
    ensures
        matchers_spec(specs) == matchers_spec(specs.take(n)),
    decreases specs.len() - n,
{
    if n < specs.len() {
        assert(specs.take(n + 1).drop_last() =~= specs.take(n));
        lemma_matchers_err(specs, n + 1);
    } else {
        assert(specs.take(n) =~= specs);
    }
}

/// Byte-wise (code point) order of strings, as `String`'s `Ord` has it.
pub open spec fn str_lt(a: Seq<char>, b: Seq<char>) -> bool
    decreases a.len(),
{
    if a.len() == 0 {
        b.len() > 0
    } else if b.len() == 0 {
        false
    } else if a[0] < b[0] {
        true
    } else if a[0] > b[0] {
        false
    } else {
        str_lt(a.drop_first(), b.drop_first())
    }
}

pub fn str_less(a: &str, b: &str) -> (r: bool)
    ensures
        r == str_lt(a@, b@),
{
    let x = utf::chars_of(a);
    let y = utf::chars_of(b);
    let mut i: usize = 0;
    assert(x@.skip(0) =~= x@);
    assert(y@.skip(0) =~= y@);
    while i < x.len() && i < y.len() && x[i] == y[i]
        invariant
            x@ == a@,
            y@ == b@,
            i <= x@.len(),
            i <= y@.len(),
            str_lt(a@, b@) == str_lt(x@.skip(i as int), y@.skip(i as int)),
        decreases x@.len() - i,
    {
        assert(x@.skip(i as int).drop_first() =~= x@.skip(i + 1));
        assert(y@.skip(i as int).drop_first() =~= y@.skip(i + 1));
        i = i + 1;
    }
    if i == x.len() {
        assert(x@.skip(i as int).len() == 0);
        i < y.len()
    } else if i == y.len() {
        assert(y@.skip(i as int).len() == 0);
        false
    } else {
        assert(x@.skip(i as int)[0] == x@[i as int]);
        assert(y@.skip(i as int)[0] == y@[i as int]);
        x[i] < y[i]
    }
}

/// Rule settings keyed by rule id, in key order with no key twice.
pub open spec fn keys_sorted(rules: Seq<(String, OptValue)>) -> bool {
    forall|i: int, j: int| 0 <= i < j < rules.len() ==> str_lt(#[trigger] rules[i].0@, #[trigger] rules[j].0@)
}

/// `issen.yml` configuration: per-rule settings and the exit gate.
pub struct Config {
    pub rules: Vec<(String, OptValue)>,
    pub gate: Gate,
}

pub open spec fn int_map(v: OptValue, key: Seq<char>, n: u64) -> bool {
    v matches OptValue::Mapping(m) && m@.len() == 1 && m@[0].0@ == key && m@[0].1 == OptValue::Int(n)
}

pub open spec fn str_is(v: OptValue, s: Seq<char>) -> bool {
    v matches OptValue::Str(x) && x@ == s
}

/// The ja-technical-writing preset, rule by rule in key order.
pub open spec fn preset_rules(r: Seq<(String, OptValue)>) -> bool {
    &&& r.len() == 17
    &&& r[0].0@ == "ja-no-mixed-period"@
    &&& r[0].1 matches OptValue::Mapping(m) && m@.len() == 1 && m@[0].0@ == "periodMark"@ && str_is(m@[0].1, "。"@)
    &&& r[1].0@ == "ja-no-weak-phrase"@ && r[1].1 == OptValue::Bool(true)
    &&& r[2].0@ == "max-comma"@ && int_map(r[2].1, "max"@, 3)
    &&& r[3].0@ == "max-kanji-continuous-len"@ && int_map(r[3].1, "max"@, 6)
    &&& r[4].0@ == "max-ten"@ && int_map(r[4].1, "max"@, 3)
    &&& r[5].0@ == "no-double-negative-ja"@ && r[5].1 == OptValue::Bool(true)
    &&& r[6].0@ == "no-doubled-conjunction"@ && r[6].1 == OptValue::Bool(true)
    &&& r[7].0@ == "no-doubled-conjunctive-particle-ga"@ && r[7].1 == OptValue::Bool(true)
    &&& r[8].0@ == "no-doubled-joshi"@ && int_map(r[8].1, "min_interval"@, 1)
    &&& r[9].0@ == "no-dropping-the-ra"@ && r[9].1 == OptValue::Bool(true)
    &&& r[10].0@ == "no-exclamation-question-mark"@ && r[10].1 == OptValue::Bool(true)
    &&& r[11].0@ == "no-hankaku-kana"@ && r[11].1 == OptValue::Bool(true)
    &&& r[12].0@ == "no-invalid-control-character"@ && r[12].1 == OptValue::Bool(true)
    &&& r[13].0@ == "no-mix-dearu-desumasu"@
    &&& r[13].1 matches OptValue::Mapping(m) && m@.len() == 4
        && m@[0].0@ == "preferInHeader"@ && str_is(m@[0].1, ""@) && m@[1].0@ == "preferInBody"@ && str_is(
        m@[1].1,
        "ですます"@,
    ) && m@[2].0@ == "preferInList"@ && str_is(m@[2].1, "である"@) && m@[3].0@ == "strict"@ && m@[3].1
        == OptValue::Bool(false)
    &&& r[14].0@ == "no-nfd"@ && r[14].1 == OptValue::Bool(true)
    &&& r[15].0@ == "no-zero-width-spaces"@ && r[15].1 == OptValue::Bool(true)
    &&& r[16].0@ == "sentence-length"@ && int_map(r[16].1, "max"@, 100)
}

fn one_entry(key: &str, v: OptValue) -> (r: OptValue)
    ensures
        r matches OptValue::Mapping(m) && m@.len() == 1 && m@[0].0@ == key@ && m@[0].1 == v,
{
    let mut m: Vec<(String, OptValue)> = Vec::new();
    m.push((key.to_string(), v));
    OptValue::Mapping(m)
}

fn text(s: &str) -> (r: OptValue)
    ensures
        str_is(r, s@),
{
    OptValue::Str(s.to_string())
}

impl Config {
    pub open spec fn wf(&self) -> bool {
        keys_sorted(self.rules@)
    }

    /// The settings given for rule `id`.
    pub open spec fn rule_spec(&self, id: Seq<char>) -> Option<OptValue> {
        lookup(self.rules@, id)
    }

    /// The ja-technical-writing preset, with the default gate.
    pub fn preset() -> (c: Config)
        ensures
            preset_rules(c.rules@),
            c.gate.fail_on is None,
            c.gate.max_warnings is None,
    {
        let mut r: Vec<(String, OptValue)> = Vec::new();
        r.push(("ja-no-mixed-period".to_string(), one_entry("periodMark", text("。"))));
        r.push(("ja-no-weak-phrase".to_string(), OptValue::Bool(true)));
        r.push(("max-comma".to_string(), one_entry("max", OptValue::Int(3))));
        r.push(("max-kanji-continuous-len".to_string(), one_entry("max", OptValue::Int(6))));
        r.push(("max-ten".to_string(), one_entry("max", OptValue::Int(3))));
        r.push(("no-double-negative-ja".to_string(), OptValue::Bool(true)));
        r.push(("no-doubled-conjunction".to_string(), OptValue::Bool(true)));
        r.push(("no-doubled-conjunctive-particle-ga".to_string(), OptValue::Bool(true)));
        r.push(("no-doubled-joshi".to_string(), one_entry("min_interval", OptValue::Int(1))));
        r.push(("no-dropping-the-ra".to_string(), OptValue::Bool(true)));
        r.push(("no-exclamation-question-mark".to_string(), OptValue::Bool(true)));
        r.push(("no-hankaku-kana".to_string(), OptValue::Bool(true)));
        r.push(("no-invalid-control-character".to_string(), OptValue::Bool(true)));
        let mut mix: Vec<(String, OptValue)> = Vec::new();
        mix.push(("preferInHeader".to_string(), text("")));
        mix.push(("preferInBody".to_string(), text("ですます")));
        mix.push(("preferInList".to_string(), text("である")));
        mix.push(("strict".to_string(), OptValue::Bool(false)));
        r.push(("no-mix-dearu-desumasu".to_string(), OptValue::Mapping(mix)));
        r.push(("no-nfd".to_string(), OptValue::Bool(true)));
        r.push(("no-zero-width-spaces".to_string(), OptValue::Bool(true)));
        r.push(("sentence-length".to_string(), one_entry("max", OptValue::Int(100))));
        Config { rules: r, gate: Gate { fail_on: None, max_warnings: None } }
    }

    /// The settings for rule `id` when they are a mapping of options.
    pub fn options(&self, id: &str) -> (r: Option<&OptValue>)
        ensures
            match r {
                Some(v) => self.rule_spec(id@) == Some(*v) && v is Mapping,
                None => !(self.rule_spec(id@) matches Some(OptValue::Mapping(_))),
            },
    {
        let mut i: usize = 0;
        assert(self.rules@.skip(0) =~= self.rules@);
        while i < self.rules.len()
            invariant
                i <= self.rules@.len(),
                lookup(self.rules@.skip(i as int), id@) == lookup(self.rules@, id@),
            decreases self.rules@.len() - i,
        {
            assert(self.rules@.skip(i as int).drop_first() =~= self.rules@.skip(i + 1));
            assert(self.rules@.skip(i as int)[0] == self.rules@[i as int]);
            if utf::str_eq(self.rules[i].0.as_str(), id) {
                return match &self.rules[i].1 {
                    OptValue::Mapping(_) => Some(&self.rules[i].1),
                    _ => None,
                };
            }
            i = i + 1;
        }
        None
    }

    /// The settings for rule `id`, whatever they are.
    pub fn rule(&self, id: &str) -> (r: Option<&OptValue>)
        ensures
            match r {
                Some(v) => self.rule_spec(id@) == Some(*v),
                None => self.rule_spec(id@) is None,
            },
    {
        let mut i: usize = 0;
        assert(self.rules@.skip(0) =~= self.rules@);
        while i < self.rules.len()
            invariant
                i <= self.rules@.len(),
                lookup(self.rules@.skip(i as int), id@) == lookup(self.rules@, id@),
            decreases self.rules@.len() - i,
        {
            assert(self.rules@.skip(i as int).drop_first() =~= self.rules@.skip(i + 1));
            assert(self.rules@.skip(i as int)[0] == self.rules@[i as int]);
            if utf::str_eq(self.rules[i].0.as_str(), id) {
                return Some(&self.rules[i].1);
            }
            i = i + 1;
        }
        None
    }
}

pub proof fn lemma_str_lt_irreflexive(a: Seq<char>)
    ensures
        !str_lt(a, a),
    decreases a.len(),
{
    if a.len() > 0 {
        lemma_str_lt_irreflexive(a.drop_first());
    }
}

/// Two different strings are ordered one way or the other.
pub proof fn lemma_str_lt_total(a: Seq<char>, b: Seq<char>)
    requires
        a != b,
    ensures
        str_lt(a, b) || str_lt(b, a),
    decreases a.len(),
{
    if a.len() > 0 && b.len() > 0 && a[0] == b[0] {
        if a.drop_first() == b.drop_first() {
            assert(a =~= seq![a[0]] + a.drop_first());
            assert(b =~= seq![b[0]] + b.drop_first());
        }
        lemma_str_lt_total(a.drop_first(), b.drop_first());
    } else if a.len() == 0 && b.len() == 0 {
        assert(a =~= b);
    }
}

pub proof fn lemma_str_lt_asym(a: Seq<char>, b: Seq<char>)
    ensures
        !(str_lt(a, b) && str_lt(b, a)),
    decreases a.len(),
{
    if a.len() > 0 && b.len() > 0 && a[0] == b[0] {
        lemma_str_lt_asym(a.drop_first(), b.drop_first());
    }
}

/// In key order, the entry holding `k` is what `lookup` finds.
pub proof fn lemma_lookup_at(s: Seq<(String, OptValue)>, i: int)
    requires
        keys_sorted(s),
        0 <= i < s.len(),
    ensures
        lookup(s, s[i].0@) == Some(s[i].1),
    decreases i,
{
    if i > 0 {
        assert(s[0].0@ != s[i].0@) by {
            lemma_str_lt_irreflexive(s[i].0@);
        }
        let t = s.drop_first();
        assert forall|a: int, b: int| 0 <= a < b < t.len() implies str_lt(#[trigger] t[a].0@, #[trigger] t[b].0@) by {
            assert(t[a] == s[a + 1] && t[b] == s[b + 1]);
        }
        lemma_lookup_at(t, i - 1);
    }
}

pub proof fn lemma_lookup_none(s: Seq<(String, OptValue)>, k: Seq<char>)
    requires
        forall|i: int| 0 <= i < s.len() ==> (#[trigger] s[i]).0@ != k,
    ensures
        lookup(s, k) is None,
    decreases s.len(),
{
    if s.len() > 0 {
        let t = s.drop_first();
        assert forall|i: int| 0 <= i < t.len() implies (#[trigger] t[i]).0@ != k by {
            assert(t[i] == s[i + 1]);
        }
        lemma_lookup_none(t, k);
    }
}

/// What a user setting makes of the preset's: `true` keeps the preset's
/// options, two mappings merge key by key, anything else replaces.
pub open spec fn merged_ok(prev: Option<OptValue>, v: OptValue, r: OptValue) -> bool {
    match prev {
        Some(p) => if v == OptValue::Bool(true) {
            r == p
        } else if p is Mapping && v is Mapping {
            r matches OptValue::Mapping(rm) && rm@ == extend_entries(p->Mapping_0@, v->Mapping_0@)
        } else {
            r == v
        },
        None => r == v,
    }
}

/// `p` with the entries of `u` set one after another: a key already present
/// keeps its place and takes the new value; a new key goes at the end.
pub open spec fn extend_entries(p: Seq<(String, OptValue)>, u: Seq<(String, OptValue)>) -> Seq<(String, OptValue)>
    decreases u.len(),
{
    if u.len() == 0 {
        p
    } else {
        let acc = extend_entries(p, u.drop_last());
        let e = u.last();
        match find_key(acc, e.0@) {
            Some(i) => acc.update(i, (acc[i].0, e.1)),
            None => acc.push(e),
        }
    }
}

pub open spec fn has_key(s: Seq<(String, OptValue)>, k: Seq<char>) -> bool {
    exists|i: int| 0 <= i < s.len() && (#[trigger] s[i]).0@ == k
}

/// The user's rule settings layered over `base`, key by key.
pub open spec fn layered_ok(base: Seq<(String, OptValue)>, user: Seq<(String, OptValue)>, r: Seq<(String, OptValue)>) -> bool {
    &&& keys_sorted(r)
    &&& forall|k: Seq<char>| has_key(r, k) <==> (has_key(base, k) || has_key(user, k))
    &&& forall|i: int|
        0 <= i < r.len() ==> {
            let k = (#[trigger] r[i]).0@;
            match lookup(user, k) {
                Some(v) => merged_ok(lookup(base, k), v, r[i].1),
                None => lookup(base, k) == Some(r[i].1),
            }
        }
}

fn find_entry(s: &Vec<(String, OptValue)>, k: &str) -> (r: Option<usize>)
    ensures
        match r {
            Some(i) => i < s@.len() && s@[i as int].0@ == k@ && find_key(s@, k@) == Some(i as int),
            None => forall|i: int| 0 <= i < s@.len() ==> (#[trigger] s@[i]).0@ != k@,
        },
        r is None <==> find_key(s@, k@) is None,
{
    let mut i: usize = 0;
    while i < s.len()
        invariant
            i <= s@.len(),
            forall|j: int| 0 <= j < i ==> (#[trigger] s@[j]).0@ != k@,
        decreases s@.len() - i,
    {
        if utf::str_eq(s[i].0.as_str(), k) {
            proof {
                lemma_find_key_first(s@, k@, i as int);
            }
            return Some(i);
        }
        i = i + 1;
    }
    proof {
        lemma_find_key_absent(s@, k@);
    }
    None
}

proof fn lemma_find_key_first(s: Seq<(String, OptValue)>, k: Seq<char>, i: int)
    requires
        0 <= i < s.len(),
        s[i].0@ == k,
        forall|j: int| 0 <= j < i ==> (#[trigger] s[j]).0@ != k,
    ensures
        find_key(s, k) == Some(i),
    decreases s.len(),
{
    if s.len() - 1 > i {
        assert forall|j: int| 0 <= j < i implies (#[trigger] s.drop_last()[j]).0@ != k by {
            assert(s.drop_last()[j] == s[j]);
        }
        lemma_find_key_first(s.drop_last(), k, i);
    } else {
        lemma_find_key_absent(s.drop_last(), k);
    }
}

proof fn lemma_find_key_absent(s: Seq<(String, OptValue)>, k: Seq<char>)
    requires
        forall|j: int| 0 <= j < s.len() ==> (#[trigger] s[j]).0@ != k,
    ensures
        find_key(s, k) is None,
    decreases s.len(),
{
    if s.len() > 0 {
        assert forall|j: int| 0 <= j < s.drop_last().len() implies (#[trigger] s.drop_last()[j]).0@ != k by {
            assert(s.drop_last()[j] == s[j]);
        }
        lemma_find_key_absent(s.drop_last(), k);
    }
}

/// IndexMap-style `extend`: each user entry in order.
fn extend_map(p: Vec<(String, OptValue)>, u: Vec<(String, OptValue)>) -> (r: Vec<(String, OptValue)>)
    ensures
        r@ == extend_entries(p@, u@),
{
    let ghost uu = u@;
    let mut acc = p;
    let mut rest = u;
    let ghost mut j: int = 0;
    assert(uu.take(0) =~= Seq::<(String, OptValue)>::empty());
    assert(uu.skip(0) =~= uu);
    while rest.len() > 0
        invariant
            0 <= j <= uu.len(),
            rest@ == uu.skip(j),
            acc@ == extend_entries(p@, uu.take(j)),
        decreases rest@.len(),
    {
        let ghost before = rest@;
        let e = rest.remove(0);
        proof {
            assert(e == uu[j]);
            assert(rest@ =~= uu.skip(j + 1));
            assert(uu.take(j + 1).drop_last() =~= uu.take(j));
            assert(uu.take(j + 1).last() == uu[j]);
        }
        let (k, v) = e;
        match find_entry(&acc, k.as_str()) {
            Some(i) => {
                let (k0, _old) = acc.remove(i);
                let ghost mid = acc@;
                acc.insert(i, (k0, v));
                proof {
                    let prev = extend_entries(p@, uu.take(j));
                    assert(acc@ =~= prev.update(i as int, (prev[i as int].0, v)));
                }
            },
            None => {
                acc.push((k, v));
            },
        }
        proof {
            j = j + 1;
        }
    }
    proof {
        assert(uu.take(j) =~= uu);
    }
    acc
}

/// A user setting merged over the preset's.
fn merge_value(prev: Option<OptValue>, v: OptValue) -> (r: OptValue)
    ensures
        merged_ok(prev, v, r),
{
    match prev {
        Some(p) => {
            let keep = match &v {
                OptValue::Bool(b) => *b,
                _ => false,
            };
            if keep {
                p
            } else {
                match (p, v) {
                    (OptValue::Mapping(pm), OptValue::Mapping(um)) => OptValue::Mapping(extend_map(pm, um)),
                    (_, v) => v,
                }
            }
        },
        None => v,
    }
}

pub proof fn lemma_str_lt_trans(a: Seq<char>, b: Seq<char>, c: Seq<char>)
    requires
        str_lt(a, b),
        str_lt(b, c),
    ensures
        str_lt(a, c),
    decreases a.len(),
{
    if a.len() > 0 && b.len() > 0 && c.len() > 0 && a[0] == b[0] && b[0] == c[0] {
        lemma_str_lt_trans(a.drop_first(), b.drop_first(), c.drop_first());
    }
}

/// Whether `p` occurs in `s`.
pub open spec fn has_sub(s: Seq<char>, p: Seq<char>) -> bool {
    exists|i: int| 0 <= i && i + p.len() <= s.len() && #[trigger] s.subrange(i, i + p.len()) == p
}

fn contains_str(s: &str, p: &str) -> (r: bool)
    ensures
        r == has_sub(s@, p@),
{
    let x = utf::chars_of(s);
    let y = utf::chars_of(p);
    if y.len() > x.len() {
        return false;
    }
    let mut i: usize = 0;
    let xl = x.len();
    while i <= x.len() - y.len()
        invariant
            xl == x@.len(),
            x@ == s@,
            y@ == p@,
            y@.len() <= x@.len(),
            i <= x@.len() - y@.len() + 1,
            forall|j: int| 0 <= j < i ==> #[trigger] x@.subrange(j, j + y@.len()) != y@,
        decreases x@.len() - y@.len() + 1 - i,
    {
        let mut k: usize = 0;
        while k < y.len() && x[i + k] == y[k]
            invariant
                xl == x@.len(),
                i + y@.len() <= x@.len(),
                k <= y@.len(),
                forall|m: int| 0 <= m < k ==> x@[i + m] == y@[m],
            decreases y@.len() - k,
        {
            k = k + 1;
        }
        if k == y.len() {
            assert(x@.subrange(i as int, i + y@.len()) =~= y@);
            return true;
        }
        assert(x@.subrange(i as int, i + y@.len())[k as int] != y@[k as int]);
        i = i + 1;
    }
    false
}

pub open spec fn keys_of(s: Seq<(String, OptValue)>) -> Seq<Seq<char>> {
    Seq::new(s.len(), |i: int| s[i].0@)
}

/// The first known id that contains `name` or is contained in it.
pub open spec fn hint_in(known: Seq<Seq<char>>, name: Seq<char>) -> Option<Seq<char>>
    decreases known.len(),
{
    if known.len() == 0 {
        None
    } else {
        match hint_in(known.drop_last(), name) {
            Some(h) => Some(h),
            None => if has_sub(known.last(), name) || has_sub(name, known.last()) {
                Some(known.last())
            } else {
                None
            },
        }
    }
}

pub open spec fn unknown_rule_message(name: Seq<char>) -> Seq<char> {
    let hint = match hint_in(crate::rules::rule_ids(), name) {
        Some(k) => " Did you mean \""@ + k + "\"?"@,
        None => Seq::empty(),
    };
    "rules."@ + name + ": unknown rule."@ + hint + " Run `issen --list-rules` to see them all."@
}

/// The first rule key no rule answers to.
pub open spec fn first_unknown(keys: Seq<Seq<char>>) -> Option<Seq<char>>
    decreases keys.len(),
{
    if keys.len() == 0 {
        None
    } else {
        match first_unknown(keys.drop_last()) {
            Some(k) => Some(k),
            None => if crate::rules::rule_ids().contains(keys.last()) {
                None
            } else {
                Some(keys.last())
            },
        }
    }
}

/// Why a configuration is rejected: a gate value first, then the first
/// unknown rule name in key order.
pub open spec fn config_error(gate: Gate, keys: Seq<Seq<char>>) -> Option<Seq<char>> {
    match gate.fail_on_view() {
        Some(v) if !fail_on_known(v) => Some(
            "gate.fail-on: unknown value \""@ + v + "\". Use one of: error, warning, warn, never, none"@,
        ),
        _ => match first_unknown(keys) {
            Some(name) => Some(unknown_rule_message(name)),
            None => None,
        },
    }
}

fn hint_for(known: &Vec<&'static str>, name: &str) -> (r: String)
    ensures
        r@ == match hint_in(str_views(known@), name@) {
            Some(k) => " Did you mean \""@ + k + "\"?"@,
            None => Seq::empty(),
        },
{
    let ghost kv = str_views(known@);
    let mut i: usize = 0;
    assert(kv.take(0) =~= Seq::<Seq<char>>::empty());
    while i < known.len()
        invariant
            i <= known@.len(),
            kv == str_views(known@),
            hint_in(kv.take(i as int), name@) is None,
        decreases known@.len() - i,
    {
        assert(kv.take(i + 1).drop_last() =~= kv.take(i as int));
        let k = known[i];
        if contains_str(k, name) || contains_str(name, k) {
            proof {
                lemma_hint_prefix(kv, name@, i + 1);
            }
            return utf::concat3(" Did you mean \"", k, "\"?");
        }
        i = i + 1;
    }
    assert(kv.take(i as int) =~= kv);
    String::new()
}

proof fn lemma_hint_prefix(known: Seq<Seq<char>>, name: Seq<char>, n: int)
    requires
        0 <= n <= known.len(),
        hint_in(known.take(n), name) is Some,
    ensures
        hint_in(known, name) == hint_in(known.take(n), name),
    decreases known.len() - n,
{
    if n < known.len() {
        assert(known.take(n + 1).drop_last() =~= known.take(n));
        lemma_hint_prefix(known, name, n + 1);
    } else {
        assert(known.take(n) =~= known);
    }
}

proof fn lemma_unknown_prefix(keys: Seq<Seq<char>>, n: int)
    requires
        0 <= n <= keys.len(),
        first_unknown(keys.take(n)) is Some,
    ensures
        first_unknown(keys) == first_unknown(keys.take(n)),
    decreases keys.len() - n,
{
    if n < keys.len() {
        assert(keys.take(n + 1).drop_last() =~= keys.take(n));
        lemma_unknown_prefix(keys, n + 1);
    } else {
        assert(keys.take(n) =~= keys);
    }
}

impl Config {
    /// Reject a config that would otherwise fail quietly: a misspelled rule
    /// name that disables nothing, or a gate value that lets errors through.
    pub fn validate(&self) -> (r: Result<(), String>)
        ensures
            r is Ok <==> config_error(self.gate, keys_of(self.rules@)) is None,
            r matches Err(e) ==> config_error(self.gate, keys_of(self.rules@)) == Some(e@),
    {
        match self.gate.validate() {
            Err(e) => {
                return Err(e);
            },
            Ok(()) => {},
        }
        let known = crate::rules::all_ids();
        let ghost keys = keys_of(self.rules@);
        let mut i: usize = 0;
        assert(keys.take(0) =~= Seq::<Seq<char>>::empty());
        while i < self.rules.len()
            invariant
                i <= self.rules@.len(),
                keys == keys_of(self.rules@),
                str_views(known@) == crate::rules::rule_ids(),
                first_unknown(keys.take(i as int)) is None,
                !(self.gate.fail_on_view() matches Some(v) && !fail_on_known(v)),
            decreases self.rules@.len() - i,
        {
            assert(keys.take(i + 1).drop_last() =~= keys.take(i as int));
            let name = self.rules[i].0.as_str();
            let mut found = false;
            let mut j: usize = 0;
            while j < known.len()
                invariant
                    j <= known@.len(),
                    found == exists|x: int| 0 <= x < j && str_views(known@)[x] == name@,
                decreases known@.len() - j,
            {
                if utf::str_eq(known[j], name) {
                    assert(str_views(known@)[j as int] == name@);
                    found = true;
                }
                j = j + 1;
            }
            if !found {
                proof {
                    assert(!crate::rules::rule_ids().contains(name@));
                    assert(first_unknown(keys.take(i + 1)) == Some(name@));
                    lemma_unknown_prefix(keys, i + 1);
                }
                let hint = hint_for(&known, name);
                let a = utf::concat3("rules.", name, ": unknown rule.");
                let b = utf::concat3(a.as_str(), hint.as_str(), " Run `issen --list-rules` to see them all.");
                proof {
                    assert(first_unknown(keys) == Some(name@));
                    assert(b@ == unknown_rule_message(name@));
                    assert(!(self.gate.fail_on_view() matches Some(v) && !fail_on_known(v)));
                }
                return Err(b);
            }
            proof {
                let x = choose|x: int| 0 <= x < known@.len() && str_views(known@)[x] == name@;
                assert(crate::rules::rule_ids()[x] == name@);
            }
            i = i + 1;
        }
        assert(keys.take(i as int) =~= keys);
        Ok(())
    }
}

proof fn lemma_has_key_push(s: Seq<(String, OptValue)>, e: (String, OptValue), k: Seq<char>)
    ensures
        has_key(s.push(e), k) == (has_key(s, k) || e.0@ == k),
{
    if has_key(s, k) {
        let i = choose|i: int| 0 <= i < s.len() && (#[trigger] s[i]).0@ == k;
        assert(s.push(e)[i] == s[i]);
    }
    if e.0@ == k {
        assert(s.push(e)[s.len() as int] == e);
    }
    if has_key(s.push(e), k) {
        let i = choose|i: int| 0 <= i < s.push(e).len() && (#[trigger] s.push(e)[i]).0@ == k;
        if i < s.len() {
            assert(s.push(e)[i] == s[i]);
        }
    }
}

/// Whether the key `k` sorts before every key left in `s` from `from` on.
pub open spec fn below_all(k: Seq<char>, s: Seq<(String, OptValue)>, from: int) -> bool {
    forall|x: int| from <= x < s.len() ==> str_lt(k, #[trigger] s[x].0@)
}

impl Config {
    /// The user's rule settings layered over `base`, which must be in key
    /// order: the two key-ordered lists are merged, a key in both merging
    /// its settings.
    fn layer_rules(base: Vec<(String, OptValue)>, user: Vec<(String, OptValue)>) -> (r: Vec<(String, OptValue)>)
        requires
            keys_sorted(base@),
            keys_sorted(user@),
        ensures
            layered_ok(base@, user@, r@),
    {
        let ghost b0 = base@;
        let ghost u0 = user@;
        let mut bs = base;
        let mut us = user;
        let mut out: Vec<(String, OptValue)> = Vec::new();
        let ghost mut a: int = 0;
        let ghost mut b: int = 0;
        while bs.len() > 0 || us.len() > 0
            invariant
                keys_sorted(b0),
                keys_sorted(u0),
                0 <= a <= b0.len(),
                0 <= b <= u0.len(),
                bs@ == b0.skip(a),
                us@ == u0.skip(b),
                keys_sorted(out@),
                forall|i: int| 0 <= i < out@.len() ==> below_all(#[trigger] out@[i].0@, b0, a) && below_all(out@[i].0@, u0, b),
                forall|k: Seq<char>| has_key(out@, k) <==> (has_key(b0.take(a), k) || has_key(u0.take(b), k)),
                forall|i: int|
                    0 <= i < out@.len() ==> {
                        let k = (#[trigger] out@[i]).0@;
                        match lookup(u0, k) {
                            Some(v) => merged_ok(lookup(b0, k), v, out@[i].1),
                            None => lookup(b0, k) == Some(out@[i].1),
                        }
                    },
            decreases bs@.len() + us@.len(),
        {
            let take_base = if bs.len() == 0 {
                false
            } else if us.len() == 0 {
                true
            } else {
                str_less(bs[0].0.as_str(), us[0].0.as_str())
            };
            let same = !take_base && bs.len() > 0 && us.len() > 0 && utf::str_eq(bs[0].0.as_str(), us[0].0.as_str());
            let ghost old_out = out@;
            if take_base {
                let e = bs.remove(0);
                proof {
                    assert(e == b0[a]);
                    let k = e.0@;
                    lemma_lookup_at(b0, a);
                    assert forall|x: int| 0 <= x < u0.len() implies (#[trigger] u0[x]).0@ != k by {
                        if x < b {
                            assert(has_key(out@, u0[x].0@)) by {
                                assert(has_key(u0.take(b), u0[x].0@)) by {
                                    assert(u0.take(b)[x] == u0[x]);
                                }
                            }
                            let i = choose|i: int| 0 <= i < out@.len() && (#[trigger] out@[i]).0@ == u0[x].0@;
                            assert(below_all(out@[i].0@, b0, a));
                            assert(str_lt(u0[x].0@, b0[a].0@));
                            lemma_str_lt_irreflexive(k);
                        } else {
                            if x > b {
                                lemma_str_lt_trans(k, u0[b].0@, u0[x].0@);
                            }
                            lemma_str_lt_irreflexive(k);
                        }
                    }
                    lemma_lookup_none(u0, k);
                }
                out.push(e);
                proof {
                    let k = b0[a].0@;
                    assert(b0.take(a + 1) =~= b0.take(a).push(b0[a]));
                    assert forall|kk: Seq<char>| has_key(out@, kk) <==> (has_key(b0.take(a + 1), kk) || has_key(u0.take(b), kk)) by {
                        lemma_has_key_push(old_out, b0[a], kk);
                        lemma_has_key_push(b0.take(a), b0[a], kk);
                    }
                    assert forall|i: int| 0 <= i < out@.len() implies below_all(#[trigger] out@[i].0@, b0, a + 1) && below_all(out@[i].0@, u0, b) by {
                        if i < old_out.len() {
                            assert(out@[i] == old_out[i]);
                        } else {
                            assert forall|x: int| a + 1 <= x < b0.len() implies str_lt(k, #[trigger] b0[x].0@) by {}
                            assert forall|x: int| b <= x < u0.len() implies str_lt(k, #[trigger] u0[x].0@) by {
                                if x > b {
                                    lemma_str_lt_trans(k, u0[b].0@, u0[x].0@);
                                }
                            }
                        }
                    }
                    assert forall|i: int, j: int| 0 <= i < j < out@.len() implies str_lt(#[trigger] out@[i].0@, #[trigger] out@[j].0@) by {
                        if j == old_out.len() {
                            assert(below_all(old_out[i].0@, b0, a));
                        }
                    }
                    a = a + 1;
                }
            } else if same {
                let eb = bs.remove(0);
                let eu = us.remove(0);
                let (k, bv) = eb;
                let (_, uv) = eu;
                let m = merge_value(Some(bv), uv);
                proof {
                    lemma_lookup_at(b0, a);
                    lemma_lookup_at(u0, b);
                }
                out.push((k, m));
                proof {
                    let kk0 = k@;
                    assert(b0.take(a + 1) =~= b0.take(a).push(b0[a]));
                    assert(u0.take(b + 1) =~= u0.take(b).push(u0[b]));
                    assert forall|kk: Seq<char>| has_key(out@, kk) <==> (has_key(b0.take(a + 1), kk) || has_key(u0.take(b + 1), kk)) by {
                        lemma_has_key_push(old_out, (k, m), kk);
                        lemma_has_key_push(b0.take(a), b0[a], kk);
                        lemma_has_key_push(u0.take(b), u0[b], kk);
                    }
                    assert forall|i: int| 0 <= i < out@.len() implies below_all(#[trigger] out@[i].0@, b0, a + 1) && below_all(out@[i].0@, u0, b + 1) by {
                        if i < old_out.len() {
                            assert(out@[i] == old_out[i]);
                        } else {
                            assert forall|x: int| a + 1 <= x < b0.len() implies str_lt(kk0, #[trigger] b0[x].0@) by {}
                            assert forall|x: int| b + 1 <= x < u0.len() implies str_lt(kk0, #[trigger] u0[x].0@) by {}
                        }
                    }
                    assert forall|i: int, j: int| 0 <= i < j < out@.len() implies str_lt(#[trigger] out@[i].0@, #[trigger] out@[j].0@) by {
                        if j == old_out.len() {
                            assert(below_all(old_out[i].0@, b0, a));
                        }
                    }
                    a = a + 1;
                    b = b + 1;
                }
            } else {
                let eu = us.remove(0);
                let (k, uv) = eu;
                proof {
                    lemma_lookup_at(u0, b);
                    assert forall|x: int| 0 <= x < b0.len() implies (#[trigger] b0[x]).0@ != k@ by {
                        if x < a {
                            assert(has_key(out@, b0[x].0@)) by {
                                assert(has_key(b0.take(a), b0[x].0@)) by {
                                    assert(b0.take(a)[x] == b0[x]);
                                }
                            }
                            let i = choose|i: int| 0 <= i < out@.len() && (#[trigger] out@[i]).0@ == b0[x].0@;
                            assert(below_all(out@[i].0@, u0, b));
                            lemma_str_lt_irreflexive(k@);
                        } else {
                            lemma_str_lt_total(b0[a].0@, k@);
                            if x > a {
                                lemma_str_lt_trans(k@, b0[a].0@, b0[x].0@);
                            }
                            lemma_str_lt_irreflexive(k@);
                        }
                    }
                    lemma_lookup_none(b0, k@);
                }
                let m = merge_value(None, uv);
                out.push((k, m));
                proof {
                    let kk0 = k@;
                    if a < b0.len() {
                        lemma_str_lt_total(b0[a].0@, kk0);
                    }
                    assert(u0.take(b + 1) =~= u0.take(b).push(u0[b]));
                    assert forall|kk: Seq<char>| has_key(out@, kk) <==> (has_key(b0.take(a), kk) || has_key(u0.take(b + 1), kk)) by {
                        lemma_has_key_push(old_out, (k, m), kk);
                        lemma_has_key_push(u0.take(b), u0[b], kk);
                    }
                    assert forall|i: int| 0 <= i < out@.len() implies below_all(#[trigger] out@[i].0@, b0, a) && below_all(out@[i].0@, u0, b + 1) by {
                        if i < old_out.len() {
                            assert(out@[i] == old_out[i]);
                        } else {
                            assert forall|x: int| a <= x < b0.len() implies str_lt(kk0, #[trigger] b0[x].0@) by {
                                if x > a {
                                    lemma_str_lt_trans(kk0, b0[a].0@, b0[x].0@);
                                }
                            }
                            assert forall|x: int| b + 1 <= x < u0.len() implies str_lt(kk0, #[trigger] u0[x].0@) by {}
                        }
                    }
                    assert forall|i: int, j: int| 0 <= i < j < out@.len() implies str_lt(#[trigger] out@[i].0@, #[trigger] out@[j].0@) by {
                        if j == old_out.len() {
                            assert(below_all(old_out[i].0@, u0, b));
                        }
                    }
                    b = b + 1;
                }
            }
        }
        proof {
            assert(b0.take(a) =~= b0);
            assert(u0.take(b) =~= u0);
        }
        out
    }

    /// A user configuration layered over the preset, then validated.
    pub fn layered(user: Config) -> (r: Result<Config, String>)
        requires
            user.wf(),
        ensures
            r matches Ok(c) ==> {
                &&& c.wf()
                &&& c.gate == user.gate
                &&& exists|base: Seq<(String, OptValue)>| preset_rules(base) && layered_ok(base, user.rules@, c.rules@)
                &&& config_error(c.gate, keys_of(c.rules@)) is None
            },
            r matches Err(e) ==> exists|rs: Seq<(String, OptValue)>|
                {
                    &&& exists|base: Seq<(String, OptValue)>| preset_rules(base) && layered_ok(base, user.rules@, rs)
                    &&& config_error(user.gate, keys_of(rs)) == Some(e@)
                },
    {
        let preset = Config::preset();
        proof {
            lemma_preset_sorted(preset.rules@);
        }
        let ghost base = preset.rules@;
        let rules = Config::layer_rules(preset.rules, user.rules);
        let c = Config { rules, gate: user.gate };
        match c.validate() {
            Ok(()) => Ok(c),
            Err(e) => Err(e),
        }
    }
}

proof fn lemma_preset_sorted(r: Seq<(String, OptValue)>)
    requires
        preset_rules(r),
    ensures
        keys_sorted(r),
{
    reveal_strlit("ja-no-mixed-period");
    reveal_strlit("ja-no-weak-phrase");
    reveal_strlit("max-comma");
    reveal_strlit("max-kanji-continuous-len");
    reveal_strlit("max-ten");
    reveal_strlit("no-double-negative-ja");
    reveal_strlit("no-doubled-conjunction");
    reveal_strlit("no-doubled-conjunctive-particle-ga");
    reveal_strlit("no-doubled-joshi");
    reveal_strlit("no-dropping-the-ra");
    reveal_strlit("no-exclamation-question-mark");
    reveal_strlit("no-hankaku-kana");
    reveal_strlit("no-invalid-control-character");
    reveal_strlit("no-mix-dearu-desumasu");
    reveal_strlit("no-nfd");
    reveal_strlit("no-zero-width-spaces");
    reveal_strlit("sentence-length");
    assert(r[0].0@.take(6) =~= r[1].0@.take(6));
    lemma_lt_at(r[0].0@, r[1].0@, 6);
    assert(r[1].0@.take(0) =~= r[2].0@.take(0));
    lemma_lt_at(r[1].0@, r[2].0@, 0);
    assert(r[2].0@.take(4) =~= r[3].0@.take(4));
    lemma_lt_at(r[2].0@, r[3].0@, 4);
    assert(r[3].0@.take(4) =~= r[4].0@.take(4));
    lemma_lt_at(r[3].0@, r[4].0@, 4);
    assert(r[4].0@.take(0) =~= r[5].0@.take(0));
    lemma_lt_at(r[4].0@, r[5].0@, 0);
    assert(r[5].0@.take(9) =~= r[6].0@.take(9));
    lemma_lt_at(r[5].0@, r[6].0@, 9);
    assert(r[6].0@.take(20) =~= r[7].0@.take(20));
    lemma_lt_at(r[6].0@, r[7].0@, 20);
    assert(r[7].0@.take(11) =~= r[8].0@.take(11));
    lemma_lt_at(r[7].0@, r[8].0@, 11);
    assert(r[8].0@.take(4) =~= r[9].0@.take(4));
    lemma_lt_at(r[8].0@, r[9].0@, 4);
    assert(r[9].0@.take(3) =~= r[10].0@.take(3));
    lemma_lt_at(r[9].0@, r[10].0@, 3);
    assert(r[10].0@.take(3) =~= r[11].0@.take(3));
    lemma_lt_at(r[10].0@, r[11].0@, 3);
    assert(r[11].0@.take(3) =~= r[12].0@.take(3));
    lemma_lt_at(r[11].0@, r[12].0@, 3);
    assert(r[12].0@.take(3) =~= r[13].0@.take(3));
    lemma_lt_at(r[12].0@, r[13].0@, 3);
    assert(r[13].0@.take(3) =~= r[14].0@.take(3));
    lemma_lt_at(r[13].0@, r[14].0@, 3);
    assert(r[14].0@.take(3) =~= r[15].0@.take(3));
    lemma_lt_at(r[14].0@, r[15].0@, 3);
    assert(r[15].0@.take(0) =~= r[16].0@.take(0));
    lemma_lt_at(r[15].0@, r[16].0@, 0);
    assert forall|i: int, j: int| 0 <= i < j < r.len() implies str_lt(#[trigger] r[i].0@, #[trigger] r[j].0@) by {
        lemma_chain(r, i, j);
    }
}

/// Strings that agree before position `n` and differ there are ordered by
/// the characters at `n`.
proof fn lemma_lt_at(a: Seq<char>, b: Seq<char>, n: int)
    requires
        0 <= n < a.len(),
        n < b.len(),
        a.take(n) == b.take(n),
        a[n] < b[n],
    ensures
        str_lt(a, b),
    decreases n,
{
    if n > 0 {
        assert(a[0] == a.take(n)[0]);
        assert(b[0] == b.take(n)[0]);
        assert(a.drop_first().take(n - 1) =~= b.drop_first().take(n - 1)) by {
            assert forall|i: int| 0 <= i < n - 1 implies #[trigger] a.drop_first().take(n - 1)[i] == b.drop_first().take(n - 1)[i] by {
                assert(a.drop_first().take(n - 1)[i] == a.take(n)[i + 1]);
                assert(b.drop_first().take(n - 1)[i] == b.take(n)[i + 1]);
            }
        }
        lemma_lt_at(a.drop_first(), b.drop_first(), n - 1);
    }
}

proof fn lemma_chain(r: Seq<(String, OptValue)>, i: int, j: int)
    requires
        0 <= i < j < r.len(),
        forall|k: int| 0 <= k < r.len() - 1 ==> str_lt(#[trigger] r[k].0@, r[k + 1].0@),
    ensures
        str_lt(r[i].0@, r[j].0@),
    decreases j - i,
{
    if j > i + 1 {
        lemma_chain(r, i, j - 1);
        lemma_str_lt_trans(r[i].0@, r[j - 1].0@, r[j].0@);
    }
}

/// `fail-on: never` (or `none`) with no warning limit never fails.
pub proof fn lemma_gate_never(errors: int, warnings: int)
    ensures
        !gate_fails(Some(lit_never()), None, errors, warnings),
        !gate_fails(Some(lit_none()), None, errors, warnings),
{
}

/// By default only errors fail; `fail-on: warning` fails on any finding.
pub proof fn lemma_gate_levels(errors: int, warnings: int)
    ensures
        gate_fails(None, None, errors, warnings) == (errors > 0),
        gate_fails(Some(lit_error()), None, errors, warnings) == (errors > 0),
        gate_fails(Some(lit_warning()), None, errors, warnings) == (errors + warnings > 0),
{
    assert(lit_error() != lit_never() && lit_error() != lit_none() && lit_error() != lit_warning() && lit_error()
        != lit_warn()) by {
        assert(lit_error()[0] != lit_never()[0]);
        assert(lit_error()[0] != lit_warning()[0]);
        assert(lit_error().len() != lit_none().len() || lit_error()[0] != lit_none()[0]);
        assert(lit_error()[0] != lit_warn()[0]);
    }
    assert(lit_warning() != lit_never() && lit_warning() != lit_none()) by {
        assert(lit_warning()[0] != lit_never()[0]);
        assert(lit_warning()[0] != lit_none()[0]);
    }
}

/// More warnings than `max-warnings` fail whatever `fail-on` says.
pub proof fn lemma_gate_max_warnings(fail_on: Option<Seq<char>>, m: usize, errors: int, warnings: int)
    requires
        warnings > m,
    ensures
        gate_fails(fail_on, Some(m), errors, warnings),
{
}

/// A rule set to `true` keeps the preset's options untouched.
pub proof fn lemma_true_keeps_preset(
    base: Seq<(String, OptValue)>,
    user: Seq<(String, OptValue)>,
    r: Seq<(String, OptValue)>,
    i: int,
)
    requires
        layered_ok(base, user, r),
        0 <= i < r.len(),
        lookup(user, r[i].0@) == Some(OptValue::Bool(true)),
        lookup(base, r[i].0@) is Some,
    ensures
        Some(r[i].1) == lookup(base, r[i].0@),
{
}

proof fn lemma_lookup_update_other(s: Seq<(String, OptValue)>, i: int, e: (String, OptValue), k: Seq<char>)
    requires
        0 <= i < s.len(),
        e.0@ == s[i].0@,
        s[i].0@ != k,
    ensures
        lookup(s.update(i, e), k) == lookup(s, k),
    decreases s.len(),
{
    if i > 0 {
        assert(s.update(i, e).drop_first() =~= s.drop_first().update(i - 1, e));
        lemma_lookup_update_other(s.drop_first(), i - 1, e, k);
    } else {
        assert(s.update(i, e).drop_first() =~= s.drop_first());
    }
}

proof fn lemma_lookup_push_other(s: Seq<(String, OptValue)>, e: (String, OptValue), k: Seq<char>)
    requires
        e.0@ != k,
    ensures
        lookup(s.push(e), k) == lookup(s, k),
    decreases s.len(),
{
    let t = s.push(e);
    if s.len() > 0 {
        assert(t[0] == s[0]);
        assert(t.drop_first() =~= s.drop_first().push(e));
        lemma_lookup_push_other(s.drop_first(), e, k);
        if s[0].0@ != k {
            assert(lookup(t, k) == lookup(t.drop_first(), k));
            assert(lookup(s, k) == lookup(s.drop_first(), k));
        }
    } else {
        assert(t[0] == e);
        assert(t.drop_first() =~= Seq::<(String, OptValue)>::empty());
        assert(lookup(t, k) == lookup(t.drop_first(), k));
    }
}

proof fn lemma_find_key_at(s: Seq<(String, OptValue)>, k: Seq<char>)
    ensures
        find_key(s, k) matches Some(i) ==> 0 <= i < s.len() && s[i].0@ == k,
    decreases s.len(),
{
    if s.len() > 0 {
        lemma_find_key_at(s.drop_last(), k);
    }
}

/// A user mapping merges key by key: an option the user does not name keeps
/// the preset's value.
pub proof fn lemma_merge_keeps_unnamed(p: Seq<(String, OptValue)>, u: Seq<(String, OptValue)>, k: Seq<char>)
    requires
        !has_key(u, k),
    ensures
        lookup(extend_entries(p, u), k) == lookup(p, k),
    decreases u.len(),
{
    if u.len() > 0 {
        assert(!has_key(u.drop_last(), k)) by {
            if has_key(u.drop_last(), k) {
                let i = choose|i: int| 0 <= i < u.drop_last().len() && (#[trigger] u.drop_last()[i]).0@ == k;
                assert(u[i] == u.drop_last()[i]);
            }
        }
        lemma_merge_keeps_unnamed(p, u.drop_last(), k);
        let acc = extend_entries(p, u.drop_last());
        let e = u.last();
        assert(e.0@ != k) by {
            if e.0@ == k {
                assert(u[u.len() - 1] == e);
            }
        }
        lemma_find_key_at(acc, e.0@);
        match find_key(acc, e.0@) {
            Some(i) => {
                lemma_lookup_update_other(acc, i, (acc[i].0, e.1), k);
            },
            None => {
                lemma_lookup_push_other(acc, e, k);
            },
        }
    }
}

} // verus!

