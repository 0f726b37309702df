//! Verb-form and phrase rules: ら抜き, double negatives, weak phrases.
//! All three are token-sequence patterns over IPADIC features.
//!
//! A pattern field lists its accepted values separated by '|'; an empty
//! field accepts anything.

use super::{
    concat_upto, concat_upto_index, found, sort_by_start_index, lemma_models_empty, lemma_models_push, models, sort_by_start, sort_reports, BlockData, Ctx,
    Report, ReportModel, Scope,
};
use crate::tokenizer::Token;
use crate::utf;
use vstd::prelude::*;

verus! {

/// The values of a '|'-separated field from character `i` on, `cur` being
/// the value read so far.
pub open spec fn pieces(s: Seq<char>, i: int, cur: Seq<char>) -> Seq<Seq<char>>
    decreases s.len() - i,
{
    if i < 0 || i >= s.len() {
        seq![cur]
    } else if s[i] == '|' {
        seq![cur] + pieces(s, i + 1, Seq::empty())
    } else {
        pieces(s, i + 1, cur.push(s[i]))
    }
}

/// The values a field accepts; none listed means any.
pub open spec fn alts(s: Seq<char>) -> Seq<Seq<char>> {
    if s.len() == 0 {
        Seq::empty()
    } else {
        pieces(s, 0, Seq::empty())
    }
}

fn split_alts(s: &str) -> (r: Vec<String>)
    ensures
        crate::config::views(r@) == alts(s@),
{
    let cs = utf::chars_of(s);
    let mut out: Vec<String> = Vec::new();
    if cs.len() == 0 {
        assert(crate::config::views(out@) =~= Seq::<Seq<char>>::empty());
        return out;
    }
    let mut cur: Vec<char> = Vec::new();
    let mut i: usize = 0;
    assert(crate::config::views(out@) =~= Seq::<Seq<char>>::empty());
    while i < cs.len()
        invariant
            i <= cs@.len(),
            cs@ == s@,
            crate::config::views(out@) + pieces(cs@, i as int, cur@) == pieces(cs@, 0, Seq::empty()),
        decreases cs@.len() - i,
    {
        if cs[i] == '|' {
            let piece = utf::string_of(cur.as_slice());
            let ghost before = crate::config::views(out@);
            out.push(piece);
            assert(crate::config::views(out@) =~= before.push(cur@));
            assert(before.push(cur@) + pieces(cs@, i + 1, Seq::empty()) =~= before + (seq![cur@] + pieces(
                cs@,
                i + 1,
                Seq::empty(),
            )));
            cur = Vec::new();
        } else {
            cur.push(cs[i]);
        }
        i = i + 1;
    }
    let piece = utf::string_of(cur.as_slice());
    let ghost before = crate::config::views(out@);
    out.push(piece);
    assert(crate::config::views(out@) =~= before + seq![cur@]);
    out
}

/// One position in a token pattern. Every set field must match; a field with
/// several values matches any of them.
pub struct Expect {
    pub surface: Vec<String>,
    pub pos: Vec<String>,
    pub pos_detail_1: Vec<String>,
    pub conjugated_type: Vec<String>,
    pub conjugated_form: Vec<String>,
    pub basic_form: Vec<String>,
    pub reading: Vec<String>,
}

pub ghost struct ExpectModel {
    pub surface: Seq<Seq<char>>,
    pub pos: Seq<Seq<char>>,
    pub pd1: Seq<Seq<char>>,
    pub ctype: Seq<Seq<char>>,
    pub cform: Seq<Seq<char>>,
    pub base: Seq<Seq<char>>,
    pub reading: Seq<Seq<char>>,
}

impl Expect {
    pub open spec fn model(&self) -> ExpectModel {
        ExpectModel {
            surface: crate::config::views(self.surface@),
            pos: crate::config::views(self.pos@),
            pd1: crate::config::views(self.pos_detail_1@),
            ctype: crate::config::views(self.conjugated_type@),
            cform: crate::config::views(self.conjugated_form@),
            base: crate::config::views(self.basic_form@),
            reading: crate::config::views(self.reading@),
        }
    }
}

/// The expectation written as its seven fields: surface, pos, pos detail 1,
/// conjugated type, conjugated form, basic form, reading.
pub open spec fn ex(
    su: Seq<char>,
    po: Seq<char>,
    p1: Seq<char>,
    ct: Seq<char>,
    cf: Seq<char>,
    bf: Seq<char>,
    rd: Seq<char>,
) -> ExpectModel {
    ExpectModel {
        surface: alts(su),
        pos: alts(po),
        pd1: alts(p1),
        ctype: alts(ct),
        cform: alts(cf),
        base: alts(bf),
        reading: alts(rd),
    }
}

fn expect(su: &str, po: &str, p1: &str, ct: &str, cf: &str, bf: &str, rd: &str) -> (e: Expect)
    ensures
        e.model() == ex(su@, po@, p1@, ct@, cf@, bf@, rd@),
{
    Expect {
        surface: split_alts(su),
        pos: split_alts(po),
        pos_detail_1: split_alts(p1),
        conjugated_type: split_alts(ct),
        conjugated_form: split_alts(cf),
        basic_form: split_alts(bf),
        reading: split_alts(rd),
    }
}

pub open spec fn field_ok(vals: Seq<Seq<char>>, actual: Seq<char>) -> bool {
    vals.len() == 0 || vals.contains(actual)
}

pub open spec fn expect_matches(e: ExpectModel, t: Token) -> bool {
    &&& field_ok(e.surface, t.surface@)
    &&& field_ok(e.pos, t.pos_spec())
    &&& field_ok(e.pd1, t.pd1_spec())
    &&& field_ok(e.ctype, t.ctype_spec())
    &&& field_ok(e.cform, t.cform_spec())
    &&& field_ok(e.base, t.base_spec())
    &&& field_ok(e.reading, t.reading_spec())
}

fn field_matches(vals: &Vec<String>, actual: &str) -> (b: bool)
    ensures
        b == field_ok(crate::config::views(vals@), actual@),
{
    vals.len() == 0 || super::str_in(actual, vals)
}

impl Expect {
    fn matches(&self, t: &Token) -> (b: bool)
        ensures
            b == expect_matches(self.model(), *t),
    {
        field_matches(&self.surface, t.surface.as_str()) && field_matches(&self.pos, t.pos()) && field_matches(
            &self.pos_detail_1,
            t.pos_detail_1(),
        ) && field_matches(&self.conjugated_type, t.conjugated_type()) && field_matches(
            &self.conjugated_form,
            t.conjugated_form(),
        ) && field_matches(&self.basic_form, t.basic_form()) && field_matches(&self.reading, t.reading())
    }
}

/// A pattern is a sequence of alternatives per position.
pub struct Pattern {
    pub label: String,
    pub steps: Vec<Vec<Expect>>,
}

pub ghost struct PatternModel {
    pub label: Seq<char>,
    pub steps: Seq<Seq<ExpectModel>>,
}

pub open spec fn expects(v: Seq<Expect>) -> Seq<ExpectModel> {
    Seq::new(v.len(), |i: int| v[i].model())
}

pub open spec fn steps_model(v: Seq<Vec<Expect>>) -> Seq<Seq<ExpectModel>> {
    Seq::new(v.len(), |k: int| expects(v[k]@))
}

impl Pattern {
    pub open spec fn model(&self) -> PatternModel {
        PatternModel { label: self.label@, steps: steps_model(self.steps@) }
    }
}

pub open spec fn pattern_models(v: Seq<Pattern>) -> Seq<PatternModel> {
    Seq::new(v.len(), |i: int| v[i].model())
}

fn alt1(a: Expect) -> (r: Vec<Expect>)
    ensures
        expects(r@) == seq![a.model()],
{
    let mut v: Vec<Expect> = Vec::new();
    v.push(a);
    assert(expects(v@) =~= seq![a.model()]);
    v
}

fn alt2(a: Expect, b: Expect) -> (r: Vec<Expect>)
    ensures
        expects(r@) == seq![a.model(), b.model()],
{
    let mut v: Vec<Expect> = Vec::new();
    v.push(a);
    v.push(b);
    assert(expects(v@) =~= seq![a.model(), b.model()]);
    v
}

/// A pattern from its label and its steps, in order.
fn pattern(label: &str, steps: Vec<Vec<Expect>>) -> (p: Pattern)
    ensures
        p.model() == (PatternModel { label: label@, steps: steps_model(steps@) }),
{
    Pattern { label: label.to_string(), steps }
}

fn push_step(steps: &mut Vec<Vec<Expect>>, s: Vec<Expect>)
    ensures
        steps_model(final(steps)@) == steps_model(old(steps)@).push(expects(s@)),
{
    let ghost before = steps_model(old(steps)@);
    steps.push(s);
    assert(steps_model(steps@) =~= before.push(expects(s@)));
}

fn no_steps() -> (r: Vec<Vec<Expect>>)
    ensures
        steps_model(r@) == Seq::<Seq<ExpectModel>>::empty(),
{
    let r: Vec<Vec<Expect>> = Vec::new();
    assert(steps_model(r@) =~= Seq::<Seq<ExpectModel>>::empty());
    r
}

fn no_patterns() -> (r: Vec<Pattern>)
    ensures
        pattern_models(r@) == Seq::<PatternModel>::empty(),
{
    let r: Vec<Pattern> = Vec::new();
    assert(pattern_models(r@) =~= Seq::<PatternModel>::empty());
    r
}

fn push_pattern(out: &mut Vec<Pattern>, p: Pattern)
    ensures
        pattern_models(final(out)@) == pattern_models(old(out)@).push(p.model()),
{
    let ghost before = pattern_models(old(out)@);
    out.push(p);
    assert(pattern_models(out@) =~= before.push(p.model()));
}

/// Which rule a scan reports for; each has its own gate and report.
#[derive(Clone, Copy, PartialEq, Eq, Structural)]
pub enum ScanKind {
    DroppingTheRa,
    DoubleNegative,
    WeakPhrase,
}

/// The cheap per-token test every pattern of a rule needs somewhere.
pub open spec fn gate(kind: ScanKind, t: Token) -> bool {
    match kind {
        ScanKind::DroppingTheRa => t.pos_spec() == "動詞"@,
        ScanKind::DoubleNegative => t.base_spec() == "ない"@ || t.base_spec() == "無い"@,
        ScanKind::WeakPhrase => t.surface@ == "かも"@ || t.surface@ == "思う"@ || t.surface@ == "思い"@ || t.surface@
            == "可能"@,
    }
}

fn gate_exec(kind: ScanKind, t: &Token) -> (b: bool)
    ensures
        b == gate(kind, *t),
{
    match kind {
        ScanKind::DroppingTheRa => utf::str_eq(t.pos(), "動詞"),
        ScanKind::DoubleNegative => utf::str_eq(t.basic_form(), "ない") || utf::str_eq(t.basic_form(), "無い"),
        ScanKind::WeakPhrase => utf::str_eq(t.surface.as_str(), "かも") || utf::str_eq(t.surface.as_str(), "思う")
            || utf::str_eq(t.surface.as_str(), "思い") || utf::str_eq(t.surface.as_str(), "可能"),
    }
}

/// The finding for a match of pattern `label` over tokens `first..=last`.
pub open spec fn scan_report(kind: ScanKind, toks: Seq<Token>, label: Seq<char>, first: int, last: int) -> ReportModel {
    match kind {
        ScanKind::DroppingTheRa => found(
            toks[last].byte_start as int,
            toks[last].byte_end as int,
            "ら抜き言葉を使用しています。"@,
        ),
        ScanKind::DoubleNegative => found(
            toks[last].byte_start as int,
            toks[last].byte_end as int,
            "二重否定: 〜"@ + label,
        ),
        ScanKind::WeakPhrase => found(
            toks[first].byte_start as int,
            toks[last].byte_end as int,
            "弱い表現: \""@ + label + "\" が使われています。"@,
        ),
    }
}

/// Indices of the tokens that are not white space.
pub open spec fn nonws_idx(toks: Seq<Token>) -> Seq<int>
    decreases toks.len(),
{
    if toks.len() == 0 {
        Seq::empty()
    } else {
        let rest = nonws_idx(toks.drop_last());
        if utf::all_white(toks.last().surface@) {
            rest
        } else {
            rest.push(toks.len() - 1)
        }
    }
}

/// Whether step `k` of `p` accepts the token at `idx[i + k]`.
pub open spec fn step_ok(p: PatternModel, toks: Seq<Token>, idx: Seq<int>, i: int, k: int) -> bool {
    exists|m: int| 0 <= m < p.steps[k].len() && expect_matches(#[trigger] p.steps[k][m], toks[idx[i + k]])
}

/// Matches of `p` over the non-white-space tokens from position `i` on:
/// a match consumes its tokens, a miss moves on by one.
pub open spec fn hits_with(p: PatternModel, toks: Seq<Token>, idx: Seq<int>, i: int, kind: ScanKind) -> Seq<ReportModel>
    decreases idx.len() - i,
{
    let n = p.steps.len() as int;
    if n == 0 || i < 0 || i + n > idx.len() {
        Seq::empty()
    } else if forall|k: int| 0 <= k < n ==> #[trigger] step_ok(p, toks, idx, i, k) {
        seq![scan_report(kind, toks, p.label, idx[i], idx[i + n - 1])] + hits_with(p, toks, idx, i + n, kind)
    } else {
        hits_with(p, toks, idx, i + 1, kind)
    }
}

/// A block's findings for a rule's patterns, in order of position.
pub open spec fn scan_spec(kind: ScanKind, toks: Seq<Token>, pats: Seq<PatternModel>) -> Seq<ReportModel> {
    if !(exists|i: int| 0 <= i < toks.len() && gate(kind, #[trigger] toks[i])) {
        Seq::empty()
    } else {
        let idx = nonws_idx(toks);
        sort_by_start(concat_upto(|q: int| hits_with(pats[q], toks, idx, 0, kind), pats.len() as int))
    }
}

fn nonws_indices(toks: &Vec<Token>) -> (r: Vec<usize>)
    ensures
        r@.len() == nonws_idx(toks@).len(),
        forall|k: int| 0 <= k < r@.len() ==> #[trigger] r@[k] == nonws_idx(toks@)[k] && r@[k] < toks@.len(),
{
    let mut out: Vec<usize> = Vec::new();
    let mut i: usize = 0;
    while i < toks.len()
        invariant
            i <= toks@.len(),
            out@.len() == nonws_idx(toks@.take(i as int)).len(),
            forall|k: int| 0 <= k < out@.len() ==> #[trigger] out@[k] == nonws_idx(toks@.take(i as int))[k] && out@[k] < i,
        decreases toks@.len() - i,
    {
        assert(toks@.take(i + 1).drop_last() =~= toks@.take(i as int));
        if !toks[i].is_whitespace() {
            out.push(i);
        }
        i = i + 1;
    }
    assert(toks@.take(i as int) =~= toks@);
    out
}

/// Whether step `k` of the pattern accepts token `t`.
fn step_accepts(alts: &Vec<Expect>, t: &Token) -> (b: bool)
    ensures
        b == exists|m: int| 0 <= m < alts@.len() && expect_matches(#[trigger] expects(alts@)[m], *t),
{
    let mut m: usize = 0;
    while m < alts.len()
        invariant
            m <= alts@.len(),
            forall|x: int| 0 <= x < m ==> !expect_matches(#[trigger] expects(alts@)[x], *t),
        decreases alts@.len() - m,
    {
        if alts[m].matches(t) {
            assert(expect_matches(expects(alts@)[m as int], *t));
            return true;
        }
        m = m + 1;
    }
    false
}

fn report_for(kind: ScanKind, toks: &Vec<Token>, label: &str, first: usize, last: usize) -> (r: Report)
    requires
        first < toks@.len(),
        last < toks@.len(),
    ensures
        r.model() == scan_report(kind, toks@, label@, first as int, last as int),
{
    match kind {
        ScanKind::DroppingTheRa => Report::token(&toks[last], "ら抜き言葉を使用しています。".to_string()),
        ScanKind::DoubleNegative => Report::token(&toks[last], utf::concat_str("二重否定: 〜", label)),
        ScanKind::WeakPhrase => Report::at(
            toks[first].byte_start,
            toks[last].byte_end,
            utf::concat3("弱い表現: \"", label, "\" が使われています。"),
        ),
    }
}

fn pattern_hits(kind: ScanKind, toks: &Vec<Token>, idx: &Vec<usize>, p: &Pattern) -> (r: Vec<Report>)
    requires
        forall|k: int| 0 <= k < idx@.len() ==> #[trigger] idx@[k] < toks@.len(),
    ensures
        models(r@) == hits_with(p.model(), toks@, Seq::new(idx@.len(), |k: int| idx@[k] as int), 0, kind),
{
    let ghost ix = Seq::new(idx@.len(), |k: int| idx@[k] as int);
    let ghost pm = p.model();
    let n = p.steps.len();
    let mut out: Vec<Report> = Vec::new();
    proof {
        lemma_models_empty();
    }
    if n == 0 {
        return out;
    }
    let mut i: usize = 0;
    let il = idx.len();
    while i <= idx.len() && n <= idx.len() - i
        invariant
            il == idx@.len(),
            n == pm.steps.len(),
            n > 0,
            pm == p.model(),
            ix == Seq::new(idx@.len(), |k: int| idx@[k] as int),
            forall|k: int| 0 <= k < idx@.len() ==> #[trigger] idx@[k] < toks@.len(),
            models(out@) + hits_with(pm, toks@, ix, i as int, kind) == hits_with(pm, toks@, ix, 0, kind),
        decreases idx@.len() + 1 - i,
    {
        let mut k: usize = 0;
        let mut all = true;
        while k < n
            invariant
                k <= n,
                n == pm.steps.len(),
                pm == p.model(),
                i + n <= idx@.len(),
                idx@.len() <= usize::MAX,
                ix == Seq::new(idx@.len(), |x: int| idx@[x] as int),
                forall|x: int| 0 <= x < idx@.len() ==> #[trigger] idx@[x] < toks@.len(),
                all == forall|x: int| 0 <= x < k ==> #[trigger] step_ok(pm, toks@, ix, i as int, x),
            decreases n - k,
        {
            assert(i + k < idx@.len());
            let ok = step_accepts(&p.steps[k], &toks[idx[i + k]]);
            proof {
                assert(pm.steps[k as int] == expects(p.steps@[k as int]@));
                if ok {
                    let m = choose|m: int|
                        0 <= m < p.steps@[k as int]@.len() && expect_matches(
                            #[trigger] expects(p.steps@[k as int]@)[m],
                            toks@[idx@[i + k] as int],
                        );
                    assert(expect_matches(pm.steps[k as int][m], toks@[ix[i + k]]));
                    assert(step_ok(pm, toks@, ix, i as int, k as int));
                } else {
                    if step_ok(pm, toks@, ix, i as int, k as int) {
                        let m = choose|m: int|
                            0 <= m < pm.steps[k as int].len() && expect_matches(
                                #[trigger] pm.steps[k as int][m],
                                toks@[ix[i + k]],
                            );
                        assert(expect_matches(expects(p.steps@[k as int]@)[m], toks@[idx@[i + k] as int]));
                    }
                }
            }
            if !ok {
                all = false;
            }
            k = k + 1;
        }
        if all {
            let r = report_for(kind, toks, p.label.as_str(), idx[i], idx[i + n - 1]);
            proof {
                lemma_models_push(out@, r);
            }
            out.push(r);
            i = i + n;
        } else {
            i = i + 1;
        }
    }
    out
}

/// Run every pattern over the block's non-white-space tokens. A block with
/// no token passing the rule's gate is skipped without matching.
fn scan(kind: ScanKind, toks: &Vec<Token>, pats: &Vec<Pattern>) -> (r: Vec<Report>)
    ensures
        models(r@) == scan_spec(kind, toks@, pattern_models(pats@)),
{
    let mut any = false;
    let mut g: usize = 0;
    while g < toks.len()
        invariant
            g <= toks@.len(),
            any == exists|x: int| 0 <= x < g && gate(kind, #[trigger] toks@[x]),
        decreases toks@.len() - g,
    {
        if gate_exec(kind, &toks[g]) {
            any = true;
        }
        g = g + 1;
    }
    if !any {
        let out: Vec<Report> = Vec::new();
        proof {
            lemma_models_empty();
        }
        return out;
    }
    let idx = nonws_indices(toks);
    let ghost ix = Seq::new(idx@.len(), |k: int| idx@[k] as int);
    assert(ix =~= nonws_idx(toks@));
    let ghost pm = pattern_models(pats@);
    let mut out: Vec<Report> = Vec::new();
    proof {
        lemma_models_empty();
    }
    let mut q: usize = 0;
    while q < pats.len()
        invariant
            q <= pats@.len(),
            pm == pattern_models(pats@),
            ix == Seq::new(idx@.len(), |k: int| idx@[k] as int),
            ix == nonws_idx(toks@),
            forall|k: int| 0 <= k < idx@.len() ==> #[trigger] idx@[k] < toks@.len(),
            models(out@) == concat_upto(|x: int| hits_with(pm[x], toks@, ix, 0, kind), q as int),
        decreases pats@.len() - q,
    {
        let more = pattern_hits(kind, toks, &idx, &pats[q]);
        super::append_reports(&mut out, more);
        q = q + 1;
    }
    sort_reports(out)
}

/// The ら抜き patterns: the fixed forms 来れる and 見れる, and an 一段 verb in
/// 未然形 followed by the suffix れる, as in 食べれる.
pub open spec fn ra_table() -> Seq<PatternModel> {
    seq![
        PatternModel { label: "ら抜き"@, steps: seq![seq![ex(""@, "動詞"@, ""@, ""@, ""@, "来れる|見れる"@, ""@)]] },
        PatternModel {
            label: "ら抜き"@,
            steps: seq![
                seq![ex(""@, "動詞"@, "自立"@, "一段"@, "未然形"@, ""@, ""@)],
                seq![ex(""@, "動詞"@, "接尾"@, ""@, ""@, "れる"@, ""@)],
            ],
        },
    ]
}

fn ra_patterns() -> (r: Vec<Pattern>)
    ensures
        pattern_models(r@) == ra_table(),
{
    let mut out = no_patterns();
    let mut s1 = no_steps();
    push_step(&mut s1, alt1(expect("", "動詞", "", "", "", "来れる|見れる", "")));
    assert(steps_model(s1@) =~= ra_table()[0].steps);
    push_pattern(&mut out, pattern("ら抜き", s1));
    let mut s2 = no_steps();
    push_step(&mut s2, alt1(expect("", "動詞", "自立", "一段", "未然形", "", "")));
    push_step(&mut s2, alt1(expect("", "動詞", "接尾", "", "", "れる", "")));
    assert(steps_model(s2@) =~= ra_table()[1].steps);
    push_pattern(&mut out, pattern("ら抜き", s2));
    assert(pattern_models(out@) =~= ra_table());
    out
}

pub struct NoDroppingTheRa;

impl NoDroppingTheRa {
    /// The name the rule reports under and is configured by.
    pub fn id(&self) -> (r: &'static str)
        ensures
            r@ == super::rule_ids()[13],
    {
        "no-dropping-the-ra"
    }

    /// The kinds of block the rule looks at.
    pub fn scope(&self) -> (r: Scope)
        ensures
            r == super::scope_of(13),
    {
        Scope::text()
    }

    pub fn check(&mut self, blk: &BlockData, _ctx: &Ctx) -> (r: Vec<Report>)
        ensures
            models(r@) == scan_spec(ScanKind::DroppingTheRa, blk.tokens@, ra_table()),
    {
        let pats = ra_patterns();
        scan(ScanKind::DroppingTheRa, &blk.tokens, &pats)
    }
}

pub open spec fn nai_any() -> ExpectModel {
    ex(""@, ""@, ""@, ""@, ""@, "ない|無い"@, ""@)
}

pub open spec fn nai_adj() -> ExpectModel {
    ex(""@, "形容詞"@, ""@, ""@, ""@, "ない|無い"@, ""@)
}

pub open spec fn nai_special() -> ExpectModel {
    ex(""@, ""@, ""@, "特殊・ナイ"@, ""@, "ない|無い"@, ""@)
}

pub open spec fn particle(s: Seq<char>) -> ExpectModel {
    ex(s, "助詞"@, ""@, ""@, ""@, ""@, ""@)
}

pub open spec fn da_renyou() -> ExpectModel {
    ex(""@, ""@, ""@, ""@, "連用形"@, "だ"@, ""@)
}

pub open spec fn noun_read(r: Seq<char>) -> ExpectModel {
    ex(""@, "名詞"@, ""@, ""@, ""@, ""@, r)
}

/// A construction with は and its twin with も: the head, the particle, then
/// the step after it.
pub open spec fn pair_spec(ha: Seq<char>, mo: Seq<char>, head: Seq<Seq<ExpectModel>>, last: Seq<ExpectModel>) -> Seq<
    PatternModel,
> {
    seq![
        PatternModel { label: ha, steps: head + seq![seq![particle("は"@)], last] },
        PatternModel { label: mo, steps: head + seq![seq![particle("も"@)], last] },
    ]
}

/// The double negatives textlint knows, each in a は / も pair, then the two
/// とは forms.
pub open spec fn double_negative_table() -> Seq<PatternModel> {
    pair_spec(
        "ないことはない"@,
        "ないこともない"@,
        seq![seq![nai_any()], seq![noun_read("コト"@)]],
        seq![nai_special(), nai_adj()],
    ) + pair_spec(
        "なくはない"@,
        "なくもない"@,
        seq![seq![ex("なく|無く"@, ""@, ""@, ""@, ""@, "ない|無い"@, ""@)]],
        seq![nai_any()],
    ) + pair_spec(
        "ないではない"@,
        "ないでもない"@,
        seq![seq![nai_any()], seq![ex("で"@, ""@, ""@, ""@, ""@, ""@, ""@)]],
        seq![nai_adj()],
    ) + pair_spec(
        "ないものではない"@,
        "ないものでもない"@,
        seq![seq![nai_any()], seq![noun_read("モノ"@)], seq![da_renyou()]],
        seq![nai_adj()],
    ) + pair_spec(
        "ないわけではない"@,
        "ないわけでもない"@,
        seq![seq![nai_any()], seq![noun_read("ワケ"@)], seq![da_renyou()]],
        seq![nai_adj()],
    ) + seq![
        PatternModel {
            label: "ないとはいいきれない"@,
            steps: seq![
                seq![nai_any()],
                seq![particle("と"@)],
                seq![particle("は"@)],
                seq![ex(""@, ""@, ""@, ""@, ""@, "言い切れる|いい切れる|言いきれる|いいきれる"@, ""@)],
                seq![nai_any()],
            ],
        },
        PatternModel {
            label: "ないとはかぎらない"@,
            steps: seq![
                seq![nai_any()],
                seq![particle("と"@)],
                seq![particle("は"@)],
                seq![ex(""@, ""@, ""@, ""@, ""@, "限る|かぎる"@, ""@)],
                seq![nai_any()],
            ],
        },
    ]
}

fn nai_any_e() -> (e: Expect)
    ensures
        e.model() == nai_any(),
{
    expect("", "", "", "", "", "ない|無い", "")
}

fn nai_adj_e() -> (e: Expect)
    ensures
        e.model() == nai_adj(),
{
    expect("", "形容詞", "", "", "", "ない|無い", "")
}

fn nai_special_e() -> (e: Expect)
    ensures
        e.model() == nai_special(),
{
    expect("", "", "", "特殊・ナイ", "", "ない|無い", "")
}

fn particle_e(s: &str) -> (e: Expect)
    ensures
        e.model() == particle(s@),
{
    expect(s, "助詞", "", "", "", "", "")
}

fn da_renyou_e() -> (e: Expect)
    ensures
        e.model() == da_renyou(),
{
    expect("", "", "", "", "連用形", "だ", "")
}

fn noun_read_e(r: &str) -> (e: Expect)
    ensures
        e.model() == noun_read(r@),
{
    expect("", "名詞", "", "", "", "", r)
}

/// The heads of the five pairs, by position in the table.
pub open spec fn dn_head_spec(which: u8) -> Seq<Seq<ExpectModel>> {
    match which {
        0 => seq![seq![nai_any()], seq![noun_read("コト"@)]],
        1 => seq![seq![ex("なく|無く"@, ""@, ""@, ""@, ""@, "ない|無い"@, ""@)]],
        2 => seq![seq![nai_any()], seq![ex("で"@, ""@, ""@, ""@, ""@, ""@, ""@)]],
        3 => seq![seq![nai_any()], seq![noun_read("モノ"@)], seq![da_renyou()]],
        _ => seq![seq![nai_any()], seq![noun_read("ワケ"@)], seq![da_renyou()]],
    }
}

/// The steps after the particle of the five pairs.
pub open spec fn dn_last_spec(which: u8) -> Seq<ExpectModel> {
    match which {
        0 => seq![nai_special(), nai_adj()],
        1 => seq![nai_any()],
        _ => seq![nai_adj()],
    }
}

/// The head of a pair: which one is chosen by `which`.
fn dn_head(which: u8) -> (r: Vec<Vec<Expect>>)
    requires
        which < 5,
    ensures
        steps_model(r@) == dn_head_spec(which),
{
    let mut h = no_steps();
    if which == 0 {
        push_step(&mut h, alt1(nai_any_e()));
        push_step(&mut h, alt1(noun_read_e("コト")));
    } else if which == 1 {
        push_step(&mut h, alt1(expect("なく|無く", "", "", "", "", "ない|無い", "")));
    } else if which == 2 {
        push_step(&mut h, alt1(nai_any_e()));
        push_step(&mut h, alt1(expect("で", "", "", "", "", "", "")));
    } else if which == 3 {
        push_step(&mut h, alt1(nai_any_e()));
        push_step(&mut h, alt1(noun_read_e("モノ")));
        push_step(&mut h, alt1(da_renyou_e()));
    } else {
        push_step(&mut h, alt1(nai_any_e()));
        push_step(&mut h, alt1(noun_read_e("ワケ")));
        push_step(&mut h, alt1(da_renyou_e()));
    }
    proof {
        if which == 0 {
            assert(steps_model(h@) =~= seq![seq![nai_any()], seq![noun_read("コト"@)]]);
        } else if which == 1 {
            assert(steps_model(h@) =~= seq![seq![ex("なく|無く"@, ""@, ""@, ""@, ""@, "ない|無い"@, ""@)]]);
        } else if which == 2 {
            assert(steps_model(h@) =~= seq![seq![nai_any()], seq![ex("で"@, ""@, ""@, ""@, ""@, ""@, ""@)]]);
        } else if which == 3 {
            assert(steps_model(h@) =~= seq![seq![nai_any()], seq![noun_read("モノ"@)], seq![da_renyou()]]);
        } else {
            assert(steps_model(h@) =~= seq![seq![nai_any()], seq![noun_read("ワケ"@)], seq![da_renyou()]]);
        }
    }
    h
}

/// The step after the particle of a pair.
fn dn_last(which: u8) -> (r: Vec<Expect>)
    requires
        which < 5,
    ensures
        expects(r@) == dn_last_spec(which),
{
    if which == 0 {
        alt2(nai_special_e(), nai_adj_e())
    } else if which == 1 {
        alt1(nai_any_e())
    } else {
        alt1(nai_adj_e())
    }
}

fn push_pair(out: &mut Vec<Pattern>, ha: &str, mo: &str, which: u8)
    requires
        which < 5,
    ensures
        pattern_models(final(out)@) == pattern_models(old(out)@) + pair_spec(
            ha@,
            mo@,
            dn_head_spec(which),
            dn_last_spec(which),
        ),
{
    let ghost head = dn_head_spec(which);
    let ghost last = dn_last_spec(which);
    let ghost before = pattern_models(out@);
    let mut h1 = dn_head(which);
    push_step(&mut h1, alt1(particle_e("は")));
    push_step(&mut h1, dn_last(which));
    assert(steps_model(h1@) =~= head + seq![seq![particle("は"@)], last]);
    push_pattern(out, pattern(ha, h1));
    let mut h2 = dn_head(which);
    push_step(&mut h2, alt1(particle_e("も")));
    push_step(&mut h2, dn_last(which));
    assert(steps_model(h2@) =~= head + seq![seq![particle("も"@)], last]);
    push_pattern(out, pattern(mo, h2));
    assert(pattern_models(out@) =~= before + pair_spec(ha@, mo@, head, last));
}

fn to_wa_pattern(label: &str, verb: &str) -> (p: Pattern)
    ensures
        p.model() == (PatternModel {
            label: label@,
            steps: seq![
                seq![nai_any()],
                seq![particle("と"@)],
                seq![particle("は"@)],
                seq![ex(""@, ""@, ""@, ""@, ""@, verb@, ""@)],
                seq![nai_any()],
            ],
        }),
{
    let mut h = no_steps();
    push_step(&mut h, alt1(nai_any_e()));
    push_step(&mut h, alt1(particle_e("と")));
    push_step(&mut h, alt1(particle_e("は")));
    push_step(&mut h, alt1(expect("", "", "", "", "", verb, "")));
    push_step(&mut h, alt1(nai_any_e()));
    assert(steps_model(h@) =~= seq![
        seq![nai_any()],
        seq![particle("と"@)],
        seq![particle("は"@)],
        seq![ex(""@, ""@, ""@, ""@, ""@, verb@, ""@)],
        seq![nai_any()],
    ]);
    pattern(label, h)
}

fn double_negative_patterns() -> (r: Vec<Pattern>)
    ensures
        pattern_models(r@) == double_negative_table(),
{
    let mut out = no_patterns();
    push_pair(&mut out, "ないことはない", "ないこともない", 0);
    push_pair(&mut out, "なくはない", "なくもない", 1);
    push_pair(&mut out, "ないではない", "ないでもない", 2);
    push_pair(&mut out, "ないものではない", "ないものでもない", 3);
    push_pair(&mut out, "ないわけではない", "ないわけでもない", 4);
    push_pattern(&mut out, to_wa_pattern("ないとはいいきれない", "言い切れる|いい切れる|言いきれる|いいきれる"));
    push_pattern(&mut out, to_wa_pattern("ないとはかぎらない", "限る|かぎる"));
    assert(pattern_models(out@) =~= double_negative_table());
    out
}

pub struct NoDoubleNegativeJa;

impl NoDoubleNegativeJa {
    /// The name the rule reports under and is configured by.
    pub fn id(&self) -> (r: &'static str)
        ensures
            r@ == super::rule_ids()[14],
    {
        "no-double-negative-ja"
    }

    /// The kinds of block the rule looks at.
    pub fn scope(&self) -> (r: Scope)
        ensures
            r == super::scope_of(14),
    {
        Scope::everywhere()
    }

    /// textlint reports at the token that completes the pattern.
    pub fn check(&mut self, blk: &BlockData, _ctx: &Ctx) -> (r: Vec<Report>)
        ensures
            models(r@) == scan_spec(ScanKind::DoubleNegative, blk.tokens@, double_negative_table()),
    {
        let pats = double_negative_patterns();
        scan(ScanKind::DoubleNegative, &blk.tokens, &pats)
    }
}

pub open spec fn kamo() -> ExpectModel {
    ex("かも"@, "助詞"@, "副助詞"@, ""@, ""@, ""@, ""@)
}

/// The weak phrases: かも at a sentence end or before しれ, 思う, 思います,
/// and 可能性を示唆している.
pub open spec fn weak_phrase_table() -> Seq<PatternModel> {
    seq![
        PatternModel { label: "かも"@, steps: seq![seq![kamo()], seq![ex("。"@, "記号"@, ""@, ""@, ""@, ""@, ""@)]] },
        PatternModel {
            label: "かも"@,
            steps: seq![seq![kamo()], seq![ex("しれ"@, "動詞"@, ""@, ""@, "連用形|未然形"@, "しれる"@, ""@)]],
        },
        PatternModel { label: "思う"@, steps: seq![seq![ex("思う"@, "動詞"@, ""@, ""@, "基本形"@, "思う"@, ""@)]] },
        PatternModel {
            label: "思います"@,
            steps: seq![
                seq![ex("思い"@, "動詞"@, ""@, ""@, "連用形"@, "思う"@, ""@)],
                seq![ex("ます"@, "助動詞"@, ""@, "特殊・マス"@, "基本形"@, ""@, ""@)],
            ],
        },
        PatternModel {
            label: "可能性を示唆している"@,
            steps: seq![
                seq![ex("可能"@, "名詞"@, ""@, ""@, ""@, ""@, ""@)],
                seq![ex("性"@, "名詞"@, ""@, ""@, ""@, ""@, ""@)],
                seq![ex("を"@, "助詞"@, ""@, ""@, ""@, ""@, ""@)],
                seq![ex("示唆"@, "名詞"@, ""@, ""@, ""@, ""@, ""@)],
                seq![ex("し"@, "動詞"@, ""@, ""@, ""@, "する"@, ""@)],
                seq![ex("て"@, "助詞"@, ""@, ""@, ""@, ""@, ""@)],
                seq![ex("いる"@, "動詞"@, ""@, ""@, ""@, "いる"@, ""@)],
            ],
        },
    ]
}

fn kamo_e() -> (e: Expect)
    ensures
        e.model() == kamo(),
{
    expect("かも", "助詞", "副助詞", "", "", "", "")
}

fn weak_phrase_patterns() -> (r: Vec<Pattern>)
    ensures
        pattern_models(r@) == weak_phrase_table(),
{
    let ghost t = weak_phrase_table();
    let mut out = no_patterns();
    let mut s = no_steps();
    push_step(&mut s, alt1(kamo_e()));
    push_step(&mut s, alt1(expect("。", "記号", "", "", "", "", "")));
    assert(steps_model(s@) =~= t[0].steps);
    push_pattern(&mut out, pattern("かも", s));
    let mut s = no_steps();
    push_step(&mut s, alt1(kamo_e()));
    push_step(&mut s, alt1(expect("しれ", "動詞", "", "", "連用形|未然形", "しれる", "")));
    assert(steps_model(s@) =~= t[1].steps);
    push_pattern(&mut out, pattern("かも", s));
    let mut s = no_steps();
    push_step(&mut s, alt1(expect("思う", "動詞", "", "", "基本形", "思う", "")));
    assert(steps_model(s@) =~= t[2].steps);
    push_pattern(&mut out, pattern("思う", s));
    let mut s = no_steps();
    push_step(&mut s, alt1(expect("思い", "動詞", "", "", "連用形", "思う", "")));
    push_step(&mut s, alt1(expect("ます", "助動詞", "", "特殊・マス", "基本形", "", "")));
    assert(steps_model(s@) =~= t[3].steps);
    push_pattern(&mut out, pattern("思います", s));
    let mut s = no_steps();
    push_step(&mut s, alt1(expect("可能", "名詞", "", "", "", "", "")));
    push_step(&mut s, alt1(expect("性", "名詞", "", "", "", "", "")));
    push_step(&mut s, alt1(expect("を", "助詞", "", "", "", "", "")));
    push_step(&mut s, alt1(expect("示唆", "名詞", "", "", "", "", "")));
    push_step(&mut s, alt1(expect("し", "動詞", "", "", "", "する", "")));
    push_step(&mut s, alt1(expect("て", "助詞", "", "", "", "", "")));
    push_step(&mut s, alt1(expect("いる", "動詞", "", "", "", "いる", "")));
    assert(steps_model(s@) =~= t[4].steps);
    push_pattern(&mut out, pattern("可能性を示唆している", s));
    assert(pattern_models(out@) =~= t);
    out
}

pub struct JaNoWeakPhrase;

impl JaNoWeakPhrase {
    /// The name the rule reports under and is configured by.
    pub fn id(&self) -> (r: &'static str)
        ensures
            r@ == super::rule_ids()[15],
    {
        "ja-no-weak-phrase"
    }

    /// The kinds of block the rule looks at.
    pub fn scope(&self) -> (r: Scope)
        ensures
            r == super::scope_of(15),
    {
        Scope::everywhere()
    }

    pub fn check(&mut self, blk: &BlockData, _ctx: &Ctx) -> (r: Vec<Report>)
        ensures
            models(r@) == scan_spec(ScanKind::WeakPhrase, blk.tokens@, weak_phrase_table()),
    {
        let pats = weak_phrase_patterns();
        scan(ScanKind::WeakPhrase, &blk.tokens, &pats)
    }
}

proof fn nonws_index(toks: Seq<Token>, j: int) -> (i: int)
    requires
        0 <= j < toks.len(),
        !utf::all_white(toks[j].surface@),
    ensures
        0 <= i < nonws_idx(toks).len(),
        nonws_idx(toks)[i] == j,
    decreases toks.len(),
{
    let rest = nonws_idx(toks.drop_last());
    if j == toks.len() - 1 {
        assert(toks.last() == toks[j]);
        rest.len() as int
    } else {
        assert(toks.drop_last()[j] == toks[j]);
        let i = nonws_index(toks.drop_last(), j);
        assert(nonws_idx(toks)[i] == rest[i]);
        i
    }
}

proof fn single_step_hit(p: PatternModel, toks: Seq<Token>, idx: Seq<int>, i0: int, i: int, kind: ScanKind) -> (x: int)
    requires
        p.steps.len() == 1,
        0 <= i0 <= i < idx.len(),
        step_ok(p, toks, idx, i, 0),
    ensures
        0 <= x < hits_with(p, toks, idx, i0, kind).len(),
        hits_with(p, toks, idx, i0, kind)[x] == scan_report(kind, toks, p.label, idx[i], idx[i]),
    decreases i - i0,
{
    let h = hits_with(p, toks, idx, i0, kind);
    if forall|k: int| 0 <= k < 1 ==> #[trigger] step_ok(p, toks, idx, i0, k) {
        let r0 = scan_report(kind, toks, p.label, idx[i0], idx[i0]);
        assert(h == seq![r0] + hits_with(p, toks, idx, i0 + 1, kind));
        if i0 == i {
            0
        } else {
            let y = single_step_hit(p, toks, idx, i0 + 1, i, kind);
            assert(h[y + 1] == hits_with(p, toks, idx, i0 + 1, kind)[y]);
            y + 1
        }
    } else {
        if i0 == i {
            assert(forall|k: int| 0 <= k < 1 ==> #[trigger] step_ok(p, toks, idx, i0, k));
        }
        assert(h == hits_with(p, toks, idx, i0 + 1, kind));
        single_step_hit(p, toks, idx, i0 + 1, i, kind)
    }
}

proof fn lemma_ra_first_step(t: Token)
    requires
        t.pos_spec() == "動詞"@,
        t.base_spec() == "見れる"@ || t.base_spec() == "来れる"@,
    ensures
        expect_matches(ra_table()[0].steps[0][0], t),
{
    reveal_strlit("");
    reveal_strlit("動詞");
    reveal_strlit("来れる|見れる");
    reveal_strlit("見れる");
    reveal_strlit("来れる");
    let e = ra_table()[0].steps[0][0];
    assert(alts(""@) == Seq::<Seq<char>>::empty());
    let d = "動詞"@;
    assert(d.len() == 2 && d[0] == '動' && d[1] == '詞');
    assert(Seq::<char>::empty().push('動') =~= seq!['動']);
    assert(seq!['動'].push('詞') =~= d);
    assert(pieces(d, 2, d) == seq![d]);
    assert(pieces(d, 1, seq!['動']) == pieces(d, 2, d));
    assert(pieces(d, 0, Seq::empty()) == pieces(d, 1, seq!['動']));
    assert(alts(d) =~= seq![d]);
    let both = "来れる|見れる"@;
    let ku = "来れる"@;
    let mi = "見れる"@;
    assert(both.len() == 7 && both[0] == '来' && both[1] == 'れ' && both[2] == 'る' && both[3] == '|' && both[4] == '見'
        && both[5] == 'れ' && both[6] == 'る');
    assert(ku.len() == 3 && ku[0] == '来' && ku[1] == 'れ' && ku[2] == 'る');
    assert(mi.len() == 3 && mi[0] == '見' && mi[1] == 'れ' && mi[2] == 'る');
    assert(Seq::<char>::empty().push('来') =~= seq!['来']);
    assert(seq!['来'].push('れ') =~= seq!['来', 'れ']);
    assert(seq!['来', 'れ'].push('る') =~= ku);
    assert(Seq::<char>::empty().push('見') =~= seq!['見']);
    assert(seq!['見'].push('れ') =~= seq!['見', 'れ']);
    assert(seq!['見', 'れ'].push('る') =~= mi);
    assert(pieces(both, 7, mi) == seq![mi]);
    assert(pieces(both, 6, seq!['見', 'れ']) == pieces(both, 7, mi));
    assert(pieces(both, 5, seq!['見']) == pieces(both, 6, seq!['見', 'れ']));
    assert(pieces(both, 4, Seq::empty()) == pieces(both, 5, seq!['見']));
    assert(pieces(both, 3, ku) == seq![ku] + pieces(both, 4, Seq::empty()));
    assert(pieces(both, 2, seq!['来', 'れ']) == pieces(both, 3, ku));
    assert(pieces(both, 1, seq!['来']) == pieces(both, 2, seq!['来', 'れ']));
    assert(pieces(both, 0, Seq::empty()) == pieces(both, 1, seq!['来']));
    assert(alts(both) =~= seq![ku, mi]);
    assert(e == ex(""@, d, ""@, ""@, ""@, both, ""@));
    assert(alts(d)[0] == t.pos_spec());
    assert(field_ok(e.surface, t.surface@));
    assert(field_ok(e.pos, t.pos_spec()));
    assert(field_ok(e.pd1, t.pd1_spec()));
    assert(field_ok(e.ctype, t.ctype_spec()));
    assert(field_ok(e.cform, t.cform_spec()));
    assert(field_ok(e.reading, t.reading_spec()));
    assert(alts(both).contains(t.base_spec())) by {
        if t.base_spec() == "見れる"@ {
            assert(alts(both)[1] == t.base_spec());
        } else {
            assert(alts(both)[0] == t.base_spec());
        }
    }
}

/// no-dropping-the-ra reports every verb token whose basic form is one of the
/// fixed ら抜き forms 見れる and 来れる, over exactly that token.
pub proof fn lemma_ra_fixed_forms(toks: Seq<Token>, j: int)
    requires
        0 <= j < toks.len(),
        !utf::all_white(toks[j].surface@),
        toks[j].pos_spec() == "動詞"@,
        toks[j].base_spec() == "見れる"@ || toks[j].base_spec() == "来れる"@,
    ensures
        exists|x: int|
            0 <= x < scan_spec(ScanKind::DroppingTheRa, toks, ra_table()).len() && #[trigger] scan_spec(
                ScanKind::DroppingTheRa,
                toks,
                ra_table(),
            )[x] == found(toks[j].byte_start as int, toks[j].byte_end as int, "ら抜き言葉を使用しています。"@),
{
    let kind = ScanKind::DroppingTheRa;
    let pats = ra_table();
    assert(gate(kind, toks[j]));
    let idx = nonws_idx(toks);
    let i = nonws_index(toks, j);
    let p0 = pats[0];
    lemma_ra_first_step(toks[j]);
    assert(p0.steps[0][0] == ra_table()[0].steps[0][0]);
    assert(expect_matches(p0.steps[0][0], toks[idx[i]]));
    assert(step_ok(p0, toks, idx, i, 0));
    let y = single_step_hit(p0, toks, idx, 0, i, kind);
    let f = |q: int| hits_with(pats[q], toks, idx, 0, kind);
    assert(f(0) == hits_with(p0, toks, idx, 0, kind));
    let x0 = concat_upto_index(f, pats.len() as int, 0, y);
    let all = concat_upto(f, pats.len() as int);
    let x = sort_by_start_index(all, x0);
    assert(scan_spec(kind, toks, pats) == sort_by_start(all));
    assert(scan_spec(kind, toks, pats)[x] == found(toks[j].byte_start as int, toks[j].byte_end as int, "ら抜き言葉を使用しています。"@));
}

} // verus!
