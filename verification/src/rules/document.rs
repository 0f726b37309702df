//! Document-level validation for agent output: the headings a document must
//! carry, phrases it must not, and terms it must spell one way. These rules
//! are off until configured -- unlike the prose rules they have no sensible
//! default.

use super::{
    concat_upto, found, found_fix, lemma_models_empty, lemma_models_push, models, sort_by_start, sort_reports, Anchor,
    BlockData, Ctx, Report, ReportModel,
};
use super::style::anchored_models;
use crate::config::{self, Matcher, MatcherSpec, OptValue};
use crate::document::BlockKind;
use crate::utf;
use vstd::prelude::*;

verus! {

/// `s` with white space trimmed from both ends.
pub fn trim_text(s: &str) -> (r: String)
    ensures
        r@ == utf::trimmed(s@),
{
    let cs = utf::chars_of(s);
    let a = utf::lead_white_in(&cs, 0, cs.len());
    let b = utf::trail_white_in(&cs, a, cs.len());
    let mut out: Vec<char> = Vec::new();
    let mut k = a;
    while k < cs.len() - b
        invariant
            a <= k <= cs@.len() - b,
            a + b <= cs@.len(),
            out@ == cs@.subrange(a as int, k as int),
        decreases cs@.len() - b - k,
    {
        out.push(cs[k]);
        k = k + 1;
        assert(out@ =~= cs@.subrange(a as int, k as int));
    }
    proof {
        assert(cs@.subrange(0, cs@.len() as int) =~= cs@);
        let rest = cs@.skip(a as int);
        assert(rest =~= cs@.subrange(a as int, cs@.len() as int));
        assert(rest.take(rest.len() - b) =~= cs@.subrange(a as int, cs@.len() - b));
    }
    utf::string_of(out.as_slice())
}

/// The configured headings no heading block carried, each as a
/// document-level finding.
pub open spec fn missing_headings(seen: Seq<Seq<char>>, want: Seq<Seq<char>>) -> Seq<(Anchor, ReportModel)>
    decreases want.len(),
{
    if want.len() == 0 {
        Seq::empty()
    } else {
        let rest = missing_headings(seen, want.drop_last());
        let h = want.last();
        if seen.contains(h) {
            rest
        } else {
            rest.push((Anchor::Source, found(0, 0, "必須の見出し \""@ + h + "\" がありません。"@)))
        }
    }
}

/// required-headings: every configured heading text must appear as a heading.
pub struct RequiredHeadings {
    seen: Vec<String>,
}

impl RequiredHeadings {
    /// The trimmed texts of the headings seen so far.
    pub closed spec fn seen_spec(&self) -> Seq<Seq<char>> {
        config::views(self.seen@)
    }

    pub fn new() -> (r: RequiredHeadings)
        ensures
            r.seen_spec() == Seq::<Seq<char>>::empty(),
    {
        let r = RequiredHeadings { seen: Vec::new() };
        assert(config::views(r.seen@) =~= Seq::<Seq<char>>::empty());
        r
    }

    /// The name the rule reports under and is configured by.
    pub fn id(&self) -> (r: &'static str)
        ensures
            r@ == super::rule_ids()[17],
    {
        "required-headings"
    }

    /// Document validators stay off until the config names them.
    pub fn default_enabled(&self) -> (b: bool)
        ensures
            !b,
    {
        false
    }

    pub fn check(&mut self, blk: &BlockData, _ctx: &Ctx) -> (r: Vec<Report>)
        ensures
            final(self).seen_spec() == if blk.block.kind == BlockKind::Heading {
                old(self).seen_spec().push(utf::trimmed(blk.block.text@))
            } else {
                old(self).seen_spec()
            },
            r@.len() == 0,
    {
        if blk.block.kind == BlockKind::Heading {
            let t = trim_text(blk.text());
            let ghost before = config::views(self.seen@);
            self.seen.push(t);
            assert(config::views(self.seen@) =~= before.push(t@));
        }
        Vec::new()
    }

    pub fn finish(&mut self, ctx: &Ctx) -> (r: Vec<(Anchor, Report)>)
        ensures
            final(self).seen_spec() == old(self).seen_spec(),
            anchored_models(r@) == missing_headings(
                old(self).seen_spec(),
                config::opt_strs_spec(*ctx.options, "headings"@, Seq::empty()),
            ),
    {
        let want = config::opt_strs(ctx.options, "headings");
        let ghost wv = config::views(want@);
        let mut out: Vec<(Anchor, Report)> = Vec::new();
        let mut i: usize = 0;
        assert(wv.take(0) =~= Seq::<Seq<char>>::empty());
        assert(anchored_models(out@) =~= Seq::<(Anchor, ReportModel)>::empty());
        while i < want.len()
            invariant
                i <= want@.len(),
                wv == config::views(want@),
                anchored_models(out@) == missing_headings(config::views(self.seen@), wv.take(i as int)),
            decreases want@.len() - i,
        {
            assert(wv.take(i + 1).drop_last() =~= wv.take(i as int));
            assert(wv.take(i + 1).last() == want@[i as int]@);
            if !super::str_in(want[i].as_str(), &self.seen) {
                let m = utf::concat3("必須の見出し \"", want[i].as_str(), "\" がありません。");
                let r = Report::at(0, 0, m);
                let ghost before = anchored_models(out@);
                out.push((Anchor::Source, r));
                assert(anchored_models(out@) =~= before.push((Anchor::Source, r.model())));
            }
            i = i + 1;
        }
        assert(wv.take(i as int) =~= wv);
        out
    }
}

/// The matches of `m` in `text`, each as a finding built by `report`.
pub open spec fn match_reports(
    text: Seq<char>,
    spans: Seq<(usize, usize)>,
    report: spec_fn(int, int, Seq<char>) -> Seq<ReportModel>,
) -> Seq<ReportModel> {
    concat_upto(
        |k: int| report(spans[k].0 as int, spans[k].1 as int, utf::chars_in_bytes(text, spans[k].0 as int, spans[k].1 as int)),
        spans.len() as int,
    )
}

pub open spec fn forbidden_message(m: Seq<char>) -> Seq<char> {
    "禁止されている表現 \""@ + m + "\" が使われています。"@
}

/// forbidden's findings in `text` for the matchers `pats`, by position.
pub open spec fn forbidden_reports(text: Seq<char>, pats: Seq<MatcherSpec>) -> Seq<ReportModel> {
    sort_by_start(
        concat_upto(
            |q: int|
                match_reports(
                    text,
                    config::spans_of(pats[q], text),
                    |s: int, e: int, m: Seq<char>| seq![found(s, e, forbidden_message(m))],
                ),
            pats.len() as int,
        ),
    )
}

/// The matchers a rule compiled before, else those configured under `key`
/// (none when they do not compile).
pub open spec fn cached_or(cached: Option<Seq<MatcherSpec>>, opts: OptValue, key: Seq<char>) -> Seq<MatcherSpec> {
    match cached {
        Some(p) => p,
        None => match config::matchers_spec(config::opt_strs_spec(opts, key, Seq::empty())) {
            Ok(ms) => ms,
            Err(_) => Seq::empty(),
        },
    }
}

/// The matchers under `key`, or none when they do not compile.
fn matchers_or_none(opts: &OptValue, key: &str) -> (r: Vec<Matcher>)
    ensures
        config::matcher_views(r@) == cached_or(None, *opts, key@),
        forall|i: int| 0 <= i < r@.len() ==> (#[trigger] r@[i]).wf(),
{
    match config::matchers(opts, key) {
        Ok(ms) => ms,
        Err(_) => {
            let none: Vec<Matcher> = Vec::new();
            assert(config::matcher_views(none@) =~= Seq::<MatcherSpec>::empty());
            none
        },
    }
}

/// forbidden: phrases that must not appear.
pub struct Forbidden {
    needles: Option<Vec<Matcher>>,
}

impl Forbidden {
    pub closed spec fn cached(&self) -> Option<Seq<MatcherSpec>> {
        match self.needles {
            Some(v) => Some(config::matcher_views(v@)),
            None => None,
        }
    }

    pub closed spec fn inv(&self) -> bool {
        self.needles matches Some(v) ==> forall|i: int| 0 <= i < v@.len() ==> (#[trigger] v@[i]).wf()
    }

    pub fn new() -> (r: Forbidden)
        ensures
            r.cached() is None,
            r.inv(),
    {
        Forbidden { needles: None }
    }

    /// The name the rule reports under and is configured by.
    pub fn id(&self) -> (r: &'static str)
        ensures
            r@ == super::rule_ids()[18],
    {
        "forbidden"
    }

    /// Document validators stay off until the config names them.
    pub fn default_enabled(&self) -> (b: bool)
        ensures
            !b,
    {
        false
    }

    pub fn validate(&self, options: &OptValue) -> (r: Result<(), String>)
        ensures
            r is Ok <==> config::matchers_spec(config::opt_strs_spec(*options, "patterns"@, Seq::empty())) is Ok,
            r matches Err(e) ==> config::matchers_spec(config::opt_strs_spec(*options, "patterns"@, Seq::empty()))
                == Err::<Seq<MatcherSpec>, Seq<char>>(e@),
    {
        match config::matchers(options, "patterns") {
            Ok(_) => Ok(()),
            Err(e) => Err(e),
        }
    }

    pub fn check(&mut self, blk: &BlockData, ctx: &Ctx) -> (r: Vec<Report>)
        requires
            old(self).inv(),
        ensures
            final(self).inv(),
            final(self).cached() == Some(cached_or(old(self).cached(), *ctx.options, "patterns"@)),
            models(r@) == forbidden_reports(blk.block.text@, cached_or(old(self).cached(), *ctx.options, "patterns"@)),
    {
        if self.needles.is_none() {
            self.needles = Some(matchers_or_none(ctx.options, "patterns"));
        }
        let Some(needles) = &self.needles else { return Vec::new() };
        let ghost pats = config::matcher_views(needles@);
        let text = blk.text();
        let mut out: Vec<Report> = Vec::new();
        proof {
            lemma_models_empty();
        }
        let mut q: usize = 0;
        while q < needles.len()
            invariant
                q <= needles@.len(),
                pats == config::matcher_views(needles@),
                forall|i: int| 0 <= i < needles@.len() ==> (#[trigger] needles@[i]).wf(),
                text@ == blk.block.text@,
                models(out@) == concat_upto(
                    |x: int|
                        match_reports(
                            text@,
                            config::spans_of(pats[x], text@),
                            |s: int, e: int, m: Seq<char>| seq![found(s, e, forbidden_message(m))],
                        ),
                    q as int,
                ),
            decreases needles@.len() - q,
        {
            let hits = needles[q].find_all(text);
            let ghost sp = config::spans_of(pats[q as int], text@);
            let ghost base = models(out@);
            let mut k: usize = 0;
            while k < hits.len()
                invariant
                    k <= hits@.len(),
                    hits@.len() == sp.len(),
                    forall|i: int| 0 <= i < hits@.len() ==> {
                        let x = #[trigger] sp[i];
                        &&& hits@[i].0 == x.0
                        &&& hits@[i].1 == x.1
                        &&& hits@[i].2@ == utf::chars_in_bytes(text@, x.0 as int, x.1 as int)
                    },
                    models(out@) == base + concat_upto(
                        |i: int|
                            seq![
                                found(
                                    sp[i].0 as int,
                                    sp[i].1 as int,
                                    forbidden_message(utf::chars_in_bytes(text@, sp[i].0 as int, sp[i].1 as int)),
                                ),
                            ],
                        k as int,
                    ),
                decreases hits@.len() - k,
            {
                let ghost x = sp[k as int];
                let m = utf::concat3("禁止されている表現 \"", hits[k].2.as_str(), "\" が使われています。");
                let r = Report::at(hits[k].0, hits[k].1, m);
                proof {
                    lemma_models_push(out@, r);
                }
                out.push(r);
                k = k + 1;
            }
            proof {
                let f = |i: int|
                    seq![
                        found(
                            sp[i].0 as int,
                            sp[i].1 as int,
                            forbidden_message(utf::chars_in_bytes(text@, sp[i].0 as int, sp[i].1 as int)),
                        ),
                    ];
                let g = |i: int|
                    (|s: int, e: int, m: Seq<char>| seq![found(s, e, forbidden_message(m))])(
                        sp[i].0 as int,
                        sp[i].1 as int,
                        utf::chars_in_bytes(text@, sp[i].0 as int, sp[i].1 as int),
                    );
                assert(f =~= g);
            }
            q = q + 1;
        }
        sort_reports(out)
    }
}

pub open spec fn term_message(m: Seq<char>, preferred: Seq<char>) -> Seq<char> {
    "\""@ + m + "\" ではなく \""@ + preferred + "\" を使ってください。"@
}

/// The entries of the `terms` list.
pub open spec fn term_items(opts: OptValue) -> Seq<OptValue> {
    match opts.get_spec("terms"@) {
        Some(OptValue::List(v)) => v@,
        _ => Seq::empty(),
    }
}

/// Each entry with a `preferred` string, with its `avoid` matchers (none when
/// they do not compile).
pub open spec fn terms_spec(items: Seq<OptValue>) -> Seq<(Seq<char>, Seq<MatcherSpec>)>
    decreases items.len(),
{
    if items.len() == 0 {
        Seq::empty()
    } else {
        let rest = terms_spec(items.drop_last());
        let t = items.last();
        match t.get_spec("preferred"@) {
            Some(OptValue::Str(p)) => rest.push((p@, cached_or(None, t, "avoid"@))),
            _ => rest,
        }
    }
}

/// terminology's findings in `text`: every match of an avoided spelling that
/// differs from the preferred one, fixable to it, in order of position.
pub open spec fn term_reports(text: Seq<char>, terms: Seq<(Seq<char>, Seq<MatcherSpec>)>) -> Seq<ReportModel> {
    sort_by_start(
        concat_upto(
            |t: int|
                concat_upto(
                    |q: int|
                        match_reports(
                            text,
                            config::spans_of(terms[t].1[q], text),
                            |s: int, e: int, m: Seq<char>|
                                if m == terms[t].0 {
                                    Seq::empty()
                                } else {
                                    seq![found_fix(s, e, term_message(m, terms[t].0), terms[t].0)]
                                },
                        ),
                    terms[t].1.len() as int,
                ),
            terms.len() as int,
        ),
    )
}

pub open spec fn terms_view(v: Seq<(String, Vec<Matcher>)>) -> Seq<(Seq<char>, Seq<MatcherSpec>)> {
    Seq::new(v.len(), |i: int| (v[i].0@, config::matcher_views(v[i].1@)))
}

/// The term entry list for a validation error, if any.
pub open spec fn terms_error(items: Seq<OptValue>) -> Option<Seq<char>>
    decreases items.len(),
{
    if items.len() == 0 {
        None
    } else {
        match terms_error(items.drop_last()) {
            Some(e) => Some(e),
            None => {
                let t = items.last();
                if !(t.get_spec("preferred"@) matches Some(OptValue::Str(_))) {
                    Some("terminology.terms: every entry needs a `preferred` string"@)
                } else {
                    match config::matchers_spec(config::opt_strs_spec(t, "avoid"@, Seq::empty())) {
                        Err(e) => Some(e),
                        Ok(_) => None,
                    }
                }
            },
        }
    }
}

/// terminology: spell a term one way; every variant is fixable.
pub struct Terminology {
    terms: Option<Vec<(String, Vec<Matcher>)>>,
}

impl Terminology {
    pub closed spec fn cached(&self) -> Option<Seq<(Seq<char>, Seq<MatcherSpec>)>> {
        match self.terms {
            Some(v) => Some(terms_view(v@)),
            None => None,
        }
    }

    pub closed spec fn inv(&self) -> bool {
        self.terms matches Some(v) ==> forall|i: int, j: int|
            0 <= i < v@.len() && 0 <= j < v@[i].1@.len() ==> (#[trigger] v@[i].1@[j]).wf()
    }

    pub fn new() -> (r: Terminology)
        ensures
            r.cached() is None,
            r.inv(),
    {
        Terminology { terms: None }
    }

    /// The name the rule reports under and is configured by.
    pub fn id(&self) -> (r: &'static str)
        ensures
            r@ == super::rule_ids()[19],
    {
        "terminology"
    }

    /// Document validators stay off until the config names them.
    pub fn default_enabled(&self) -> (b: bool)
        ensures
            !b,
    {
        false
    }

    pub fn validate(&self, options: &OptValue) -> (r: Result<(), String>)
        ensures
            r is Ok <==> terms_error(term_items(*options)) is None,
            r matches Err(e) ==> terms_error(term_items(*options)) == Some(e@),
    {
        let empty: Vec<OptValue> = Vec::new();
        let items: &Vec<OptValue> = match options.get("terms") {
            Some(OptValue::List(v)) => v,
            _ => &empty,
        };
        assert(items@ == term_items(*options));
        let mut i: usize = 0;
        while i < items.len()
            invariant
                i <= items@.len(),
                items@ == term_items(*options),
                terms_error(items@.take(i as int)) is None,
            decreases items@.len() - i,
        {
            assert(items@.take(i + 1).drop_last() =~= items@.take(i as int));
            let t = &items[i];
            match t.get("preferred") {
                Some(OptValue::Str(_)) => {},
                _ => {
                    proof {
                        lemma_terms_error_prefix(items@, i + 1);
                    }
                    return Err("terminology.terms: every entry needs a `preferred` string".to_string());
                },
            }
            match config::matchers(t, "avoid") {
                Ok(_) => {},
                Err(e) => {
                    proof {
                        lemma_terms_error_prefix(items@, i + 1);
                    }
                    return Err(e);
                },
            }
            i = i + 1;
        }
        assert(items@.take(i as int) =~= items@);
        Ok(())
    }

    fn build(options: &OptValue) -> (r: Vec<(String, Vec<Matcher>)>)
        ensures
            terms_view(r@) == terms_spec(term_items(*options)),
            forall|i: int, j: int| 0 <= i < r@.len() && 0 <= j < r@[i].1@.len() ==> (#[trigger] r@[i].1@[j]).wf(),
    {
        let empty: Vec<OptValue> = Vec::new();
        let items: &Vec<OptValue> = match options.get("terms") {
            Some(OptValue::List(v)) => v,
            _ => &empty,
        };
        assert(items@ == term_items(*options));
        let mut out: Vec<(String, Vec<Matcher>)> = Vec::new();
        let mut i: usize = 0;
        assert(terms_view(out@) =~= terms_spec(items@.take(0)));
        while i < items.len()
            invariant
                i <= items@.len(),
                items@ == term_items(*options),
                terms_view(out@) == terms_spec(items@.take(i as int)),
                forall|a: int, b: int| 0 <= a < out@.len() && 0 <= b < out@[a].1@.len() ==> (#[trigger] out@[a].1@[b]).wf(),
            decreases items@.len() - i,
        {
            assert(items@.take(i + 1).drop_last() =~= items@.take(i as int));
            let t = &items[i];
            match t.get("preferred") {
                Some(OptValue::Str(p)) => {
                    let ms = matchers_or_none(t, "avoid");
                    let ghost before = terms_view(out@);
                    out.push((p.clone(), ms));
                    assert(terms_view(out@) =~= before.push((p@, config::matcher_views(ms@))));
                },
                _ => {},
            }
            i = i + 1;
        }
        assert(items@.take(i as int) =~= items@);
        out
    }

    pub fn check(&mut self, blk: &BlockData, ctx: &Ctx) -> (r: Vec<Report>)
        requires
            old(self).inv(),
        ensures
            final(self).inv(),
            final(self).cached() == Some(
                match old(self).cached() {
                    Some(t) => t,
                    None => terms_spec(term_items(*ctx.options)),
                },
            ),
            models(r@) == term_reports(
                blk.block.text@,
                match old(self).cached() {
                    Some(t) => t,
                    None => terms_spec(term_items(*ctx.options)),
                },
            ),
    {
        if self.terms.is_none() {
            self.terms = Some(Self::build(ctx.options));
        }
        let Some(terms) = &self.terms else { return Vec::new() };
        let ghost tv = terms_view(terms@);
        let text = blk.text();
        let mut out: Vec<Report> = Vec::new();
        proof {
            lemma_models_empty();
        }
        let mut t: usize = 0;
        while t < terms.len()
            invariant
                t <= terms@.len(),
                tv == terms_view(terms@),
                forall|a: int, b: int| 0 <= a < terms@.len() && 0 <= b < terms@[a].1@.len() ==> (#[trigger] terms@[a].1@[b]).wf(),
                text@ == blk.block.text@,
                models(out@) == concat_upto(
                    |x: int|
                        concat_upto(
                            |q: int|
                                match_reports(
                                    text@,
                                    config::spans_of(tv[x].1[q], text@),
                                    |s: int, e: int, m: Seq<char>|
                                        if m == tv[x].0 {
                                            Seq::empty()
                                        } else {
                                            seq![found_fix(s, e, term_message(m, tv[x].0), tv[x].0)]
                                        },
                                ),
                            tv[x].1.len() as int,
                        ),
                    t as int,
                ),
            decreases terms@.len() - t,
        {
            let preferred = &terms[t].0;
            let needles = &terms[t].1;
            let ghost pv = preferred@;
            let ghost nv = config::matcher_views(needles@);
            assert(tv[t as int].0 == pv && tv[t as int].1 == nv);
            let ghost base = models(out@);
            let ghost rep = |s: int, e: int, m: Seq<char>|
                if m == pv {
                    Seq::<ReportModel>::empty()
                } else {
                    seq![found_fix(s, e, term_message(m, pv), pv)]
                };
            let mut q: usize = 0;
            while q < needles.len()
                invariant
                    q <= needles@.len(),
                    rep == (|s: int, e: int, m: Seq<char>|
                        if m == pv {
                            Seq::<ReportModel>::empty()
                        } else {
                            seq![found_fix(s, e, term_message(m, pv), pv)]
                        }),
                    nv == config::matcher_views(needles@),
                    forall|b: int| 0 <= b < needles@.len() ==> (#[trigger] needles@[b]).wf(),
                    text@ == blk.block.text@,
                    pv == preferred@,
                    models(out@) == base + concat_upto(
                        |y: int| match_reports(text@, config::spans_of(nv[y], text@), rep),
                        q as int,
                    ),
                decreases needles@.len() - q,
            {
                let hits = needles[q].find_all(text);
                let ghost sp = config::spans_of(nv[q as int], text@);
                let ghost base2 = models(out@);
                let mut k: usize = 0;
                while k < hits.len()
                    invariant
                        k <= hits@.len(),
                        hits@.len() == sp.len(),
                        pv == preferred@,
                        rep == (|s: int, e: int, m: Seq<char>|
                        if m == pv {
                            Seq::<ReportModel>::empty()
                        } else {
                            seq![found_fix(s, e, term_message(m, pv), pv)]
                        }),
                        forall|i: int| 0 <= i < hits@.len() ==> {
                            let x = #[trigger] sp[i];
                            &&& hits@[i].0 == x.0
                            &&& hits@[i].1 == x.1
                            &&& hits@[i].2@ == utf::chars_in_bytes(text@, x.0 as int, x.1 as int)
                        },
                        models(out@) == base2 + concat_upto(
                            |i: int| rep(sp[i].0 as int, sp[i].1 as int, utf::chars_in_bytes(text@, sp[i].0 as int, sp[i].1 as int)),
                            k as int,
                        ),
                    decreases hits@.len() - k,
                {
                    let m = &hits[k].2;
                    if !utf::str_eq(m.as_str(), preferred.as_str()) {
                        let a = utf::concat3("\"", m.as_str(), "\" ではなく \"");
                        let a = utf::concat3(a.as_str(), preferred.as_str(), "\" を使ってください。");
                        let r = Report::at(hits[k].0, hits[k].1, a).replace(preferred.clone());
                        proof {
                            lemma_models_push(out@, r);
                        }
                        out.push(r);
                    } else {
                        assert(models(out@) + Seq::<ReportModel>::empty() =~= models(out@));
                    }
                    k = k + 1;
                }
                q = q + 1;
            }
            proof {
                let rep2 = |s: int, e: int, m: Seq<char>|
                    if m == tv[t as int].0 {
                        Seq::empty()
                    } else {
                        seq![found_fix(s, e, term_message(m, tv[t as int].0), tv[t as int].0)]
                    };
                assert(rep =~= rep2);
                let f = |y: int| match_reports(text@, config::spans_of(nv[y], text@), rep);
                let g = |q: int|
                    match_reports(
                        text@,
                        config::spans_of(tv[t as int].1[q], text@),
                        |s: int, e: int, m: Seq<char>|
                            if m == tv[t as int].0 {
                                Seq::empty()
                            } else {
                                seq![found_fix(s, e, term_message(m, tv[t as int].0), tv[t as int].0)]
                            },
                    );
                assert(f =~= g);
            }
            t = t + 1;
        }
        sort_reports(out)
    }
}

proof fn lemma_terms_error_prefix(items: Seq<OptValue>, n: int)
    requires
        0 <= n <= items.len(),
        terms_error(items.take(n)) is Some,
    ensures
        terms_error(items) == terms_error(items.take(n)),
    decreases items.len() - n,
{
    if n < items.len() {
        assert(items.take(n + 1).drop_last() =~= items.take(n));
        lemma_terms_error_prefix(items, n + 1);
    } else {
        assert(items.take(n) =~= items);
    }
}

} // verus!
