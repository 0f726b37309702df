//! no-mix-dearu-desumasu: keep 敬体 (ですます) and 常体 (である) consistent,
//! judged separately for headings, body paragraphs, and list items.

use super::{found, Anchor, BlockData, Ctx, Report, ReportModel, Scope};
use crate::config::{self, OptValue};
use crate::document::BlockKind;
use crate::tokenizer::Token;
use crate::utf;
use vstd::prelude::*;

verus! {

#[derive(Clone, Copy, PartialEq, Eq, Structural)]
pub enum Style {
    Desumasu,
    Dearu,
}

pub open spec fn style_name(s: Style) -> Seq<char> {
    match s {
        Style::Desumasu => "ですます"@,
        Style::Dearu => "である"@,
    }
}

pub open spec fn other_style(s: Style) -> Style {
    match s {
        Style::Desumasu => Style::Dearu,
        Style::Dearu => Style::Desumasu,
    }
}

pub open spec fn style_named(s: Seq<char>) -> Option<Style> {
    if s == "ですます"@ {
        Some(Style::Desumasu)
    } else if s == "である"@ {
        Some(Style::Dearu)
    } else {
        None
    }
}

impl Style {
    pub fn name(self) -> (r: &'static str)
        ensures
            r@ == style_name(self),
    {
        match self {
            Style::Desumasu => "ですます",
            Style::Dearu => "である",
        }
    }

    pub fn other(self) -> (r: Style)
        ensures
            r == other_style(self),
    {
        match self {
            Style::Desumasu => Style::Dearu,
            Style::Dearu => Style::Desumasu,
        }
    }

    pub fn parse(s: &str) -> (r: Option<Style>)
        ensures
            r == style_named(s@),
    {
        if utf::str_eq(s, "ですます") {
            Some(Style::Desumasu)
        } else if utf::str_eq(s, "である") {
            Some(Style::Dearu)
        } else {
            None
        }
    }
}

/// One sentence-final form found in a block.
pub struct Hit {
    pub block: usize,
    pub kind: BlockKind,
    pub style: Style,
    pub byte_start: usize,
    pub byte_end: usize,
    pub value: String,
}

pub ghost struct HitModel {
    pub block: int,
    pub kind: BlockKind,
    pub style: Style,
    pub byte_start: int,
    pub byte_end: int,
    pub value: Seq<char>,
}

impl Hit {
    pub open spec fn model(&self) -> HitModel {
        HitModel {
            block: self.block as int,
            kind: self.kind,
            style: self.style,
            byte_start: self.byte_start as int,
            byte_end: self.byte_end as int,
            value: self.value@,
        }
    }
}

pub open spec fn hit_models(v: Seq<Hit>) -> Seq<HitModel> {
    Seq::new(v.len(), |i: int| v[i].model())
}

/// Whether `s` holds `a` followed by `b`.
pub open spec fn has_pair(s: Seq<char>, a: char, b: char) -> bool {
    exists|i: int| 0 <= i < s.len() - 1 && s[i] == a && #[trigger] s[i + 1] == b
}

pub open spec fn has_char(s: Seq<char>, p: spec_fn(char) -> bool) -> bool {
    exists|i: int| 0 <= i < s.len() && p(#[trigger] s[i])
}

/// A token that ends the current clause: punctuation, a 特殊 conjugation
/// (the です/ます/だ family), or a noun.
pub open spec fn clause_end(t: Token) -> bool {
    has_char(t.surface@, |c: char| c == '、' || c == '。') || has_pair(t.ctype_spec(), '特', '殊') || t.pos_spec()
        == "名詞"@
}

/// The first clause end at or after `from`.
pub open spec fn punct_from(ts: Seq<Token>, from: int) -> Option<int>
    decreases ts.len() - from,
{
    if from < 0 || from >= ts.len() {
        None
    } else if clause_end(ts[from]) {
        Some(from)
    } else {
        punct_from(ts, from + 1)
    }
}

/// The clause end after token `idx`.
pub open spec fn next_puncture(ts: Seq<Token>, idx: int) -> Option<int> {
    punct_from(ts, idx + 1)
}

/// Whether the form at `idx` ends its sentence: textlint tests the clause
/// end's surface for any of these marks.
pub open spec fn is_last_token(ts: Seq<Token>, idx: int) -> bool {
    match next_puncture(ts, idx) {
        None => true,
        Some(p) => has_char(ts[p].surface@, |c: char| c == '!' || c == '?' || c == '！' || c == '？' || c == '。'),
    }
}

/// The style of the form at token `i`, if it is one.
pub open spec fn style_at(ts: Seq<Token>, i: int) -> Option<Style> {
    let t = ts[i];
    let ct = t.ctype_spec();
    if ct == "特殊・ダ"@ {
        if t.pos_spec() == "助動詞"@ && t.cform_spec() == "連用形"@ && i + 1 < ts.len() && ts[i + 1].ctype_spec()
            == "五段・ラ行アル"@ {
            Some(Style::Dearu)
        } else {
            None
        }
    } else if (ct == "特殊・デス"@ || ct == "特殊・マス"@) && t.base_spec() != "やす"@ && t.cform_spec() == "基本形"@ {
        Some(Style::Desumasu)
    } else {
        None
    }
}

/// The forms found from token `i` on; with `ignore_conjunction`, only those
/// that end a sentence.
pub open spec fn analyze_from(ts: Seq<Token>, i: int, ignore_conjunction: bool) -> Seq<(int, Style)>
    decreases ts.len() - i,
{
    if i < 0 || i >= ts.len() {
        Seq::empty()
    } else {
        let rest = analyze_from(ts, i + 1, ignore_conjunction);
        match style_at(ts, i) {
            Some(s) => if !ignore_conjunction || is_last_token(ts, i) {
                seq![(i, s)] + rest
            } else {
                rest
            },
            None => rest,
        }
    }
}

/// The surfaces of `ts`, joined.
pub open spec fn joined(ts: Seq<Token>) -> Seq<char>
    decreases ts.len(),
{
    if ts.len() == 0 {
        Seq::empty()
    } else {
        joined(ts.drop_last()) + ts.last().surface@
    }
}

/// The text a hit quotes: from its token to the clause end (or the last token).
pub open spec fn value_spec(ts: Seq<Token>, idx: int) -> Seq<char> {
    let end = match next_puncture(ts, idx) {
        Some(p) => p,
        None => ts.len() - 1,
    };
    joined(ts.subrange(idx, end + 1))
}

/// The hits one block adds.
pub open spec fn block_hits(blk: BlockData, opts: OptValue) -> Seq<HitModel> {
    let ts = blk.tokens@;
    let found = analyze_from(ts, 0, !config::opt_bool_spec(opts, "strict"@, false));
    Seq::new(
        found.len(),
        |k: int|
            HitModel {
                block: blk.index as int,
                kind: blk.block.kind,
                style: found[k].1,
                byte_start: ts[found[k].0].byte_start as int,
                byte_end: ts[found[k].0].byte_end as int,
                value: value_spec(ts, found[k].0),
            },
    )
}

fn has_char_in(s: &str, a: char, b: char) -> (r: bool)
    ensures
        r == has_char(s@, |c: char| c == a || c == b),
{
    let cs = utf::chars_of(s);
    let mut i: usize = 0;
    while i < cs.len()
        invariant
            cs@ == s@,
            i <= cs@.len(),
            forall|k: int| 0 <= k < i ==> !(cs@[k] == a || cs@[k] == b),
        decreases cs@.len() - i,
    {
        if cs[i] == a || cs[i] == b {
            assert((|c: char| c == a || c == b)(cs@[i as int]));
            return true;
        }
        i = i + 1;
    }
    assert(!has_char(s@, |c: char| c == a || c == b)) by {
        if has_char(s@, |c: char| c == a || c == b) {
            let k = choose|k: int| 0 <= k < s@.len() && (|c: char| c == a || c == b)(#[trigger] s@[k]);
            assert(cs@[k] == a || cs@[k] == b);
        }
    }
    false
}

fn has_sentence_mark(s: &str) -> (r: bool)
    ensures
        r == has_char(s@, |c: char| c == '!' || c == '?' || c == '！' || c == '？' || c == '。'),
{
    let cs = utf::chars_of(s);
    let ghost p = |c: char| c == '!' || c == '?' || c == '！' || c == '？' || c == '。';
    let mut i: usize = 0;
    while i < cs.len()
        invariant
            cs@ == s@,
            i <= cs@.len(),
            p == (|c: char| c == '!' || c == '?' || c == '！' || c == '？' || c == '。'),
            forall|k: int| 0 <= k < i ==> !p(cs@[k]),
        decreases cs@.len() - i,
    {
        let c = cs[i];
        if c == '!' || c == '?' || c == '！' || c == '？' || c == '。' {
            assert(p(cs@[i as int]));
            return true;
        }
        i = i + 1;
    }
    assert(!has_char(s@, p)) by {
        if has_char(s@, p) {
            let k = choose|k: int| 0 <= k < s@.len() && p(#[trigger] s@[k]);
            assert(!p(cs@[k]));
        }
    }
    false
}

fn has_toku(s: &str) -> (r: bool)
    ensures
        r == has_pair(s@, '特', '殊'),
{
    let cs = utf::chars_of(s);
    let mut i: usize = 0;
    while cs.len() > 0 && i < cs.len() - 1
        invariant
            cs@ == s@,
            i <= cs@.len(),
            forall|k: int| 0 <= k < i && k < cs@.len() - 1 ==> !(cs@[k] == '特' && #[trigger] cs@[k + 1] == '殊'),
        decreases cs@.len() - i,
    {
        if cs[i] == '特' && cs[i + 1] == '殊' {
            assert(s@[i + 1] == '殊');
            return true;
        }
        i = i + 1;
    }
    assert(!has_pair(s@, '特', '殊')) by {
        if has_pair(s@, '特', '殊') {
            let k = choose|k: int| 0 <= k < s@.len() - 1 && s@[k] == '特' && #[trigger] s@[k + 1] == '殊';
            assert(!(cs@[k] == '特' && cs@[k + 1] == '殊'));
        }
    }
    false
}

fn is_clause_end(t: &Token) -> (b: bool)
    ensures
        b == clause_end(*t),
{
    has_char_in(t.surface.as_str(), '、', '。') || has_toku(t.conjugated_type()) || utf::str_eq(t.pos(), "名詞")
}

fn next_puncture_exec(ts: &Vec<Token>, idx: usize) -> (r: Option<usize>)
    requires
        idx < ts@.len(),
    ensures
        match r {
            Some(p) => idx < p < ts@.len() && next_puncture(ts@, idx as int) == Some(p as int),
            None => next_puncture(ts@, idx as int) is None,
        },
{
    let n = ts.len();
    let mut i = idx + 1;
    while i < ts.len()
        invariant
            idx < i <= ts@.len(),
            punct_from(ts@, idx + 1) == punct_from(ts@, i as int),
        decreases ts@.len() - i,
    {
        if is_clause_end(&ts[i]) {
            return Some(i);
        }
        i = i + 1;
    }
    None
}

fn style_exec(ts: &Vec<Token>, i: usize) -> (r: Option<Style>)
    requires
        i < ts@.len(),
    ensures
        r == style_at(ts@, i as int),
{
    let t = &ts[i];
    let ct = t.conjugated_type();
    if utf::str_eq(ct, "特殊・ダ") {
        if utf::str_eq(t.pos(), "助動詞") && utf::str_eq(t.conjugated_form(), "連用形") && i < ts.len() - 1
            && utf::str_eq(ts[i + 1].conjugated_type(), "五段・ラ行アル") {
            Some(Style::Dearu)
        } else {
            None
        }
    } else if (utf::str_eq(ct, "特殊・デス") || utf::str_eq(ct, "特殊・マス")) && !utf::str_eq(t.basic_form(), "やす")
        && utf::str_eq(t.conjugated_form(), "基本形") {
        Some(Style::Desumasu)
    } else {
        None
    }
}

fn value_exec(ts: &Vec<Token>, idx: usize) -> (r: String)
    requires
        idx < ts@.len(),
    ensures
        r@ == value_spec(ts@, idx as int),
{
    let end = match next_puncture_exec(ts, idx) {
        Some(p) => p,
        None => ts.len() - 1,
    };
    let ghost sub = ts@.subrange(idx as int, end + 1);
    let mut out = String::new();
    let mut k = idx;
    let n = ts.len();
    assert(out@ =~= joined(ts@.subrange(idx as int, idx as int)));
    while k <= end
        invariant
            n == ts@.len(),
            idx <= k <= end + 1,
            end < ts@.len(),
            out@ == joined(ts@.subrange(idx as int, k as int)),
        decreases end + 1 - k,
    {
        assert(ts@.subrange(idx as int, k + 1).drop_last() =~= ts@.subrange(idx as int, k as int));
        out = utf::concat_str(out.as_str(), ts[k].surface.as_str());
        k = k + 1;
    }
    out
}

/// How many hits of `kind` there are, and how many of those have `style`.
pub open spec fn count_kind(hs: Seq<HitModel>, kind: BlockKind) -> nat
    decreases hs.len(),
{
    if hs.len() == 0 {
        0
    } else {
        count_kind(hs.drop_last(), kind) + if hs.last().kind == kind { 1nat } else { 0nat }
    }
}

pub open spec fn count_style(hs: Seq<HitModel>, kind: BlockKind, style: Style) -> nat
    decreases hs.len(),
{
    if hs.len() == 0 {
        0
    } else {
        count_style(hs.drop_last(), kind, style) + if hs.last().kind == kind && hs.last().style == style {
            1nat
        } else {
            0nat
        }
    }
}

proof fn lemma_count_style_le(hs: Seq<HitModel>, kind: BlockKind, style: Style)
    ensures
        count_style(hs, kind, style) <= count_kind(hs, kind),
        count_kind(hs, kind) <= hs.len(),
    decreases hs.len(),
{
    if hs.len() > 0 {
        lemma_count_style_le(hs.drop_last(), kind, style);
    }
}

pub open spec fn overruled(dearu: nat, desumasu: nat, prefer: Option<Style>) -> Option<Style> {
    match prefer {
        Some(Style::Desumasu) => if dearu != 0 { Some(Style::Desumasu) } else { None },
        Some(Style::Dearu) => if desumasu != 0 { Some(Style::Dearu) } else { None },
        None => if dearu != 0 && desumasu != 0 {
            if dearu > desumasu { Some(Style::Dearu) } else { Some(Style::Desumasu) }
        } else {
            None
        },
    }
}

pub open spec fn top_message(over: Style, preferred: bool) -> Seq<char> {
    let want = style_name(over);
    let other = style_name(other_style(over));
    if preferred {
        "\""@ + want + "\"調 でなければなりません\n=> \""@ + want + "\"調 であるべき箇所に、次の \""@ + other
            + "\"調 の箇所があります"@
    } else {
        "\"である\"調 と \"ですます\"調 が混在\n=> \""@ + want + "\"調 の文体に、次の \""@ + other + "\"調 の箇所があります"@
    }
}

pub open spec fn hit_message(label: Seq<char>, top: Seq<char>, value: Seq<char>, dearu: nat, desumasu: nat) -> Seq<char> {
    label + ": "@ + top + ": \""@ + value + "\"\nTotal:\nである  : "@ + utf::digits(dearu, 10) + "\nですます: "@
        + utf::digits(desumasu, 10) + "\n"@
}

/// The findings among `hs` for one block kind, for hits not of style `over`.
pub open spec fn kind_items(
    hs: Seq<HitModel>,
    kind: BlockKind,
    over: Style,
    label: Seq<char>,
    top: Seq<char>,
    dearu: nat,
    desumasu: nat,
) -> Seq<(Anchor, ReportModel)>
    decreases hs.len(),
{
    if hs.len() == 0 {
        Seq::empty()
    } else {
        let h = hs.last();
        let rest = kind_items(hs.drop_last(), kind, over, label, top, dearu, desumasu);
        if h.kind == kind && h.style != over {
            rest.push(
                (
                    Anchor::Block(h.block as usize),
                    found(h.byte_start, h.byte_end, hit_message(label, top, h.value, dearu, desumasu)),
                ),
            )
        } else {
            rest
        }
    }
}

/// The findings for one block kind: every hit of the style that must yield.
pub open spec fn kind_reports(all: Seq<HitModel>, kind: BlockKind, label: Seq<char>, prefer: Option<Style>) -> Seq<
    (Anchor, ReportModel),
> {
    let dearu = count_style(all, kind, Style::Dearu);
    let desumasu = (count_kind(all, kind) - dearu) as nat;
    match overruled(dearu, desumasu, prefer) {
        None => Seq::empty(),
        Some(over) => kind_items(all, kind, over, label, top_message(over, prefer is Some), dearu, desumasu),
    }
}

/// What `finish` reports: body paragraphs, headings, then list items.
pub open spec fn mix_reports(all: Seq<HitModel>, opts: OptValue) -> Seq<(Anchor, ReportModel)> {
    kind_reports(all, BlockKind::Paragraph, "本文"@, style_named(config::opt_str_spec(opts, "preferInBody"@, ""@)))
        + kind_reports(all, BlockKind::Heading, "見出し"@, style_named(config::opt_str_spec(opts, "preferInHeader"@, ""@)))
        + kind_reports(all, BlockKind::ListItem, "箇条書き"@, style_named(config::opt_str_spec(opts, "preferInList"@, ""@)))
}

pub open spec fn anchored_models(v: Seq<(Anchor, Report)>) -> Seq<(Anchor, ReportModel)> {
    Seq::new(v.len(), |i: int| (v[i].0, v[i].1.model()))
}

#[derive(Default)]
pub struct NoMixDearuDesumasu {
    hits: Vec<Hit>,
}

impl NoMixDearuDesumasu {
    /// Every hit collected so far, in order.
    pub closed spec fn hits_spec(&self) -> Seq<HitModel> {
        hit_models(self.hits@)
    }

    pub fn new() -> (r: NoMixDearuDesumasu)
        ensures
            r.hits_spec() == Seq::<HitModel>::empty(),
    {
        let r = NoMixDearuDesumasu { hits: Vec::new() };
        assert(hit_models(r.hits@) =~= Seq::<HitModel>::empty());
        r
    }

    /// The name the rule reports under and is configured by.
    pub fn id(&self) -> (r: &'static str)
        ensures
            r@ == super::rule_ids()[16],
    {
        "no-mix-dearu-desumasu"
    }

    /// The kinds of block the rule looks at.
    pub fn scope(&self) -> (r: Scope)
        ensures
            r == super::scope_of(16),
    {
        Scope { paragraph: true, heading: true, list_item: true, table_cell: false, blockquote: false }
    }

    /// Collect the block's sentence-final forms; findings come from `finish`.
    pub fn check(&mut self, blk: &BlockData, ctx: &Ctx) -> (r: Vec<Report>)
        ensures
            final(self).hits_spec() == old(self).hits_spec() + block_hits(*blk, *ctx.options),
            r@.len() == 0,
    {
        let strict = config::opt_bool(ctx.options, "strict", false);
        let ghost ts = blk.tokens@;
        let ghost ign = !strict;
        let ghost start = hit_models(self.hits@);
        let ghost all = analyze_from(ts, 0, ign);
        let mut i: usize = 0;
        let ghost mut done: Seq<(int, Style)> = Seq::empty();
        while i < blk.tokens.len()
            invariant
                i <= ts.len(),
                ts == blk.tokens@,
                ign == !config::opt_bool_spec(*ctx.options, "strict"@, false),
                strict == !ign,
                all == analyze_from(ts, 0, ign),
                done + analyze_from(ts, i as int, ign) == all,
                hit_models(self.hits@) == start + Seq::new(
                    done.len(),
                    |k: int|
                        HitModel {
                            block: blk.index as int,
                            kind: blk.block.kind,
                            style: done[k].1,
                            byte_start: ts[done[k].0].byte_start as int,
                            byte_end: ts[done[k].0].byte_end as int,
                            value: value_spec(ts, done[k].0),
                        },
                ),
                forall|k: int| 0 <= k < done.len() ==> 0 <= #[trigger] done[k].0 < ts.len(),
            decreases ts.len() - i,
        {
            match style_exec(&blk.tokens, i) {
                Some(style) => {
                    let keep = strict || match next_puncture_exec(&blk.tokens, i) {
                        None => true,
                        Some(p) => has_sentence_mark(blk.tokens[p].surface.as_str()),
                    };
                    if keep {
                        let t = &blk.tokens[i];
                        let h = Hit {
                            block: blk.index,
                            kind: blk.block.kind,
                            style,
                            byte_start: t.byte_start,
                            byte_end: t.byte_end,
                            value: value_exec(&blk.tokens, i),
                        };
                        let ghost before = hit_models(self.hits@);
                        self.hits.push(h);
                        proof {
                            assert(hit_models(self.hits@) =~= before.push(h.model()));
                            let nd = done.push((i as int, style));
                            assert(nd + analyze_from(ts, i + 1, ign) =~= done + analyze_from(ts, i as int, ign));
                            done = nd;
                            assert(hit_models(self.hits@) =~= start + Seq::new(
                                done.len(),
                                |k: int|
                                    HitModel {
                                        block: blk.index as int,
                                        kind: blk.block.kind,
                                        style: done[k].1,
                                        byte_start: ts[done[k].0].byte_start as int,
                                        byte_end: ts[done[k].0].byte_end as int,
                                        value: value_spec(ts, done[k].0),
                                    },
                            ));
                        }
                    }
                },
                None => {},
            }
            i = i + 1;
        }
        proof {
            assert(done =~= all);
            assert(hit_models(self.hits@) =~= start + block_hits(*blk, *ctx.options));
        }
        Vec::new()
    }
}

impl NoMixDearuDesumasu {
    fn reports(&self, kind: BlockKind, label: &str, prefer: Option<Style>) -> (r: Vec<(Anchor, Report)>)
        ensures
            anchored_models(r@) == kind_reports(self.hits_spec(), kind, label@, prefer),
    {
        let ghost hs = hit_models(self.hits@);
        let mut total: usize = 0;
        let mut dearu: usize = 0;
        let mut i: usize = 0;
        while i < self.hits.len()
            invariant
                i <= self.hits@.len(),
                hs == hit_models(self.hits@),
                total == count_kind(hs.take(i as int), kind),
                dearu == count_style(hs.take(i as int), kind, Style::Dearu),
                dearu <= total <= i,
            decreases self.hits@.len() - i,
        {
            assert(hs.take(i + 1).drop_last() =~= hs.take(i as int));
            let h = &self.hits[i];
            if h.kind == kind {
                total = total + 1;
                if h.style == Style::Dearu {
                    dearu = dearu + 1;
                }
            }
            i = i + 1;
        }
        assert(hs.take(i as int) =~= hs);
        let desumasu = total - dearu;
        let mut out: Vec<(Anchor, Report)> = Vec::new();
        assert(anchored_models(out@) =~= Seq::<(Anchor, ReportModel)>::empty());
        let over = match prefer {
            Some(Style::Desumasu) => if dearu != 0 {
                Style::Desumasu
            } else {
                return out;
            },
            Some(Style::Dearu) => if desumasu != 0 {
                Style::Dearu
            } else {
                return out;
            },
            None => if dearu != 0 && desumasu != 0 {
                if dearu > desumasu {
                    Style::Dearu
                } else {
                    Style::Desumasu
                }
            } else {
                return out;
            },
        };
        let want = over.name();
        let other = over.other().name();
        let top = if prefer.is_some() {
            let a = utf::concat3("\"", want, "\"調 でなければなりません\n=> \"");
            let a = utf::concat3(a.as_str(), want, "\"調 であるべき箇所に、次の \"");
            utf::concat3(a.as_str(), other, "\"調 の箇所があります")
        } else {
            let a = utf::concat3("\"である\"調 と \"ですます\"調 が混在\n=> \"", want, "\"調 の文体に、次の \"");
            utf::concat3(a.as_str(), other, "\"調 の箇所があります")
        };
        let ds = utf::decimal(dearu as u64);
        let ms = utf::decimal(desumasu as u64);
        let mut j: usize = 0;
        while j < self.hits.len()
            invariant
                j <= self.hits@.len(),
                hs == hit_models(self.hits@),
                top@ == top_message(over, prefer is Some),
                ds@ == utf::digits(dearu as nat, 10),
                ms@ == utf::digits(desumasu as nat, 10),
                anchored_models(out@) == kind_items(
                    hs.take(j as int),
                    kind,
                    over,
                    label@,
                    top@,
                    dearu as nat,
                    desumasu as nat,
                ),
            decreases self.hits@.len() - j,
        {
            assert(hs.take(j + 1).drop_last() =~= hs.take(j as int));
            let h = &self.hits[j];
            if h.kind == kind && h.style != over {
                let m = utf::concat3(label, ": ", top.as_str());
                let m = utf::concat3(m.as_str(), ": \"", h.value.as_str());
                let m = utf::concat3(m.as_str(), "\"\nTotal:\nである  : ", ds.as_str());
                let m = utf::concat3(m.as_str(), "\nですます: ", ms.as_str());
                let m = utf::concat_str(m.as_str(), "\n");
                let r = Report::at(h.byte_start, h.byte_end, m);
                let ghost before = anchored_models(out@);
                out.push((Anchor::Block(h.block), r));
                assert(anchored_models(out@) =~= before.push((Anchor::Block(h.block), r.model())));
            }
            j = j + 1;
        }
        assert(hs.take(j as int) =~= hs);
        out
    }

    pub fn finish(&mut self, ctx: &Ctx) -> (r: Vec<(Anchor, Report)>)
        ensures
            final(self).hits_spec() == old(self).hits_spec(),
            anchored_models(r@) == mix_reports(old(self).hits_spec(), *ctx.options),
    {
        let body = Style::parse(config::opt_str(ctx.options, "preferInBody", "").as_str());
        let head = Style::parse(config::opt_str(ctx.options, "preferInHeader", "").as_str());
        let list = Style::parse(config::opt_str(ctx.options, "preferInList", "").as_str());
        let mut out = self.reports(BlockKind::Paragraph, "本文", body);
        let mut b = self.reports(BlockKind::Heading, "見出し", head);
        let mut c = self.reports(BlockKind::ListItem, "箇条書き", list);
        let ghost a0 = out@;
        let ghost b0 = b@;
        let ghost c0 = c@;
        out.append(&mut b);
        out.append(&mut c);
        assert(anchored_models(out@) =~= anchored_models(a0) + anchored_models(b0) + anchored_models(c0));
        out
    }
}

proof fn lemma_counts_uniform(hs: Seq<HitModel>, kind: BlockKind, s: Style)
    requires
        forall|i: int| 0 <= i < hs.len() ==> (#[trigger] hs[i]).style == s,
    ensures
        count_style(hs, kind, s) == count_kind(hs, kind),
        count_style(hs, kind, other_style(s)) == 0,
    decreases hs.len(),
{
    if hs.len() > 0 {
        assert forall|i: int| 0 <= i < hs.drop_last().len() implies (#[trigger] hs.drop_last()[i]).style == s by {
            assert(hs.drop_last()[i] == hs[i]);
        }
        lemma_counts_uniform(hs.drop_last(), kind, s);
        assert(hs.last() == hs[hs.len() - 1]);
    }
}

proof fn lemma_kind_uniform_quiet(all: Seq<HitModel>, kind: BlockKind, label: Seq<char>, s: Style)
    requires
        forall|i: int| 0 <= i < all.len() ==> (#[trigger] all[i]).style == s,
    ensures
        kind_reports(all, kind, label, None).len() == 0,
{
    lemma_counts_uniform(all, kind, s);
    lemma_count_style_le(all, kind, Style::Dearu);
}

/// With no preferred style set, no-mix-dearu-desumasu reports nothing when
/// every sentence end it collected is in the same style.
pub proof fn lemma_mix_uniform_quiet(all: Seq<HitModel>, opts: OptValue, s: Style)
    requires
        forall|i: int| 0 <= i < all.len() ==> (#[trigger] all[i]).style == s,
        style_named(config::opt_str_spec(opts, "preferInBody"@, ""@)) is None,
        style_named(config::opt_str_spec(opts, "preferInHeader"@, ""@)) is None,
        style_named(config::opt_str_spec(opts, "preferInList"@, ""@)) is None,
    ensures
        mix_reports(all, opts).len() == 0,
{
    lemma_kind_uniform_quiet(all, BlockKind::Paragraph, "本文"@, s);
    lemma_kind_uniform_quiet(all, BlockKind::Heading, "見出し"@, s);
    lemma_kind_uniform_quiet(all, BlockKind::ListItem, "箇条書き"@, s);
}

/// How many collected hits in blocks of `kind` end in `style`.
pub open spec fn style_hits(all: Seq<HitModel>, kind: BlockKind, style: Style) -> nat {
    all.filter(|h: HitModel| h.kind == kind && h.style == style).len()
}

/// Whether hits of `style` in blocks of `kind` are the ones to yield: with a
/// preferred style, every other style yields; without one, the less used
/// style yields, and on a tie である yields to ですます.
pub open spec fn yields(all: Seq<HitModel>, kind: BlockKind, style: Style, prefer: Option<Style>) -> bool {
    match prefer {
        Some(p) => style != p,
        None => style_hits(all, kind, style) < style_hits(all, kind, other_style(style)) || (style_hits(
            all,
            kind,
            style,
        ) == style_hits(all, kind, other_style(style)) && style == Style::Dearu),
    }
}

/// Report `r` is over hit `h`: anchored in its block, over its bytes.
pub open spec fn hit_finding(h: HitModel, r: (Anchor, ReportModel)) -> bool {
    &&& r.0 == Anchor::Block(h.block as usize)
    &&& r.1.start == h.byte_start
    &&& r.1.end == h.byte_end
}

proof fn lemma_style_hits(all: Seq<HitModel>, kind: BlockKind)
    ensures
        count_style(all, kind, Style::Dearu) == style_hits(all, kind, Style::Dearu),
        count_style(all, kind, Style::Desumasu) == style_hits(all, kind, Style::Desumasu),
        count_kind(all, kind) == style_hits(all, kind, Style::Dearu) + style_hits(all, kind, Style::Desumasu),
    decreases all.len(),
{
    reveal(Seq::filter);
    if all.len() > 0 {
        lemma_style_hits(all.drop_last(), kind);
    }
}

proof fn kind_items_source(
    hs: Seq<HitModel>,
    kind: BlockKind,
    over: Style,
    label: Seq<char>,
    top: Seq<char>,
    dearu: nat,
    desumasu: nat,
    x: int,
) -> (i: int)
    requires
        0 <= x < kind_items(hs, kind, over, label, top, dearu, desumasu).len(),
    ensures
        0 <= i < hs.len(),
        hs[i].kind == kind,
        hs[i].style != over,
        hit_finding(hs[i], kind_items(hs, kind, over, label, top, dearu, desumasu)[x]),
    decreases hs.len(),
{
    let rest = kind_items(hs.drop_last(), kind, over, label, top, dearu, desumasu);
    let h = hs.last();
    if h.kind == kind && h.style != over && x == rest.len() {
        assert(hs[hs.len() - 1] == h);
        (hs.len() - 1) as int
    } else {
        let i = kind_items_source(hs.drop_last(), kind, over, label, top, dearu, desumasu, x);
        assert(hs[i] == hs.drop_last()[i]);
        i
    }
}

proof fn kind_items_index(
    hs: Seq<HitModel>,
    kind: BlockKind,
    over: Style,
    label: Seq<char>,
    top: Seq<char>,
    dearu: nat,
    desumasu: nat,
    i: int,
) -> (x: int)
    requires
        0 <= i < hs.len(),
        hs[i].kind == kind,
        hs[i].style != over,
    ensures
        0 <= x < kind_items(hs, kind, over, label, top, dearu, desumasu).len(),
        hit_finding(hs[i], kind_items(hs, kind, over, label, top, dearu, desumasu)[x]),
    decreases hs.len(),
{
    let rest = kind_items(hs.drop_last(), kind, over, label, top, dearu, desumasu);
    if i == hs.len() - 1 {
        assert(hs.last() == hs[i]);
        rest.len() as int
    } else {
        assert(hs[i] == hs.drop_last()[i]);
        kind_items_index(hs.drop_last(), kind, over, label, top, dearu, desumasu, i)
    }
}

proof fn lemma_over_yields(all: Seq<HitModel>, kind: BlockKind, prefer: Option<Style>, s: Style)
    requires
        style_hits(all, kind, s) > 0,
    ensures
        ({
            let dearu = count_style(all, kind, Style::Dearu);
            let desumasu = (count_kind(all, kind) - dearu) as nat;
            match overruled(dearu, desumasu, prefer) {
                Some(over) => s != over <==> yields(all, kind, s, prefer),
                None => !yields(all, kind, s, prefer),
            }
        }),
{
    lemma_style_hits(all, kind);
}

proof fn kind_reports_source(all: Seq<HitModel>, kind: BlockKind, label: Seq<char>, prefer: Option<Style>, x: int) -> (i: int)
    requires
        0 <= x < kind_reports(all, kind, label, prefer).len(),
    ensures
        0 <= i < all.len(),
        all[i].kind == kind,
        yields(all, kind, all[i].style, prefer),
        hit_finding(all[i], kind_reports(all, kind, label, prefer)[x]),
{
    let dearu = count_style(all, kind, Style::Dearu);
    let desumasu = (count_kind(all, kind) - dearu) as nat;
    lemma_style_hits(all, kind);
    let over = overruled(dearu, desumasu, prefer)->0;
    let top = top_message(over, prefer is Some);
    let i = kind_items_source(all, kind, over, label, top, dearu, desumasu, x);
    lemma_hit_counted(all, kind, i);
    lemma_over_yields(all, kind, prefer, all[i].style);
    i
}

proof fn lemma_hit_counted(all: Seq<HitModel>, kind: BlockKind, i: int)
    requires
        0 <= i < all.len(),
        all[i].kind == kind,
    ensures
        style_hits(all, kind, all[i].style) > 0,
{
    let pred = |h: HitModel| h.kind == kind && h.style == all[i].style;
    all.lemma_filter_contains(pred, i);
}

proof fn kind_reports_index(all: Seq<HitModel>, kind: BlockKind, label: Seq<char>, prefer: Option<Style>, i: int) -> (x: int)
    requires
        0 <= i < all.len(),
        all[i].kind == kind,
        yields(all, kind, all[i].style, prefer),
    ensures
        0 <= x < kind_reports(all, kind, label, prefer).len(),
        hit_finding(all[i], kind_reports(all, kind, label, prefer)[x]),
{
    let dearu = count_style(all, kind, Style::Dearu);
    let desumasu = (count_kind(all, kind) - dearu) as nat;
    lemma_style_hits(all, kind);
    lemma_hit_counted(all, kind, i);
    lemma_over_yields(all, kind, prefer, all[i].style);
    let over = overruled(dearu, desumasu, prefer)->0;
    let top = top_message(over, prefer is Some);
    kind_items_index(all, kind, over, label, top, dearu, desumasu, i)
}

/// The preferred style the options set for blocks of `kind`, if any.
pub open spec fn prefer_for(opts: OptValue, kind: BlockKind) -> Option<Style> {
    match kind {
        BlockKind::Paragraph => style_named(config::opt_str_spec(opts, "preferInBody"@, ""@)),
        BlockKind::Heading => style_named(config::opt_str_spec(opts, "preferInHeader"@, ""@)),
        BlockKind::ListItem => style_named(config::opt_str_spec(opts, "preferInList"@, ""@)),
        BlockKind::TableCell => None,
    }
}

/// The block kinds no-mix-dearu-desumasu weighs separately.
pub open spec fn weighed(kind: BlockKind) -> bool {
    kind == BlockKind::Paragraph || kind == BlockKind::Heading || kind == BlockKind::ListItem
}

/// Report `r` is over a hit that yields within its block kind.
pub open spec fn over_yielding_hit(all: Seq<HitModel>, opts: OptValue, r: (Anchor, ReportModel)) -> bool {
    exists|i: int|
        0 <= i < all.len() && weighed(all[i].kind) && yields(all, all[i].kind, all[i].style, prefer_for(opts, all[i].kind))
            && #[trigger] hit_finding(all[i], r)
}

/// no-mix-dearu-desumasu reports exactly the hits that must yield within
/// their block kind (body, headings, list items, each counted apart): with a
/// preferred style, the hits of the other style; without one, the hits of the
/// less used style, である on a tie. A hit of the majority style is never
/// reported.
pub proof fn lemma_mix_reports(all: Seq<HitModel>, opts: OptValue)
    ensures
        forall|x: int|
            0 <= x < mix_reports(all, opts).len() ==> over_yielding_hit(all, opts, #[trigger] mix_reports(all, opts)[x]),
        forall|i: int|
            #![trigger all[i]]
            0 <= i < all.len() && weighed(all[i].kind) && yields(all, all[i].kind, all[i].style, prefer_for(opts, all[i].kind))
                ==> exists|x: int| 0 <= x < mix_reports(all, opts).len() && #[trigger] hit_finding(all[i], mix_reports(all, opts)[x]),
{
    let a = kind_reports(all, BlockKind::Paragraph, "本文"@, prefer_for(opts, BlockKind::Paragraph));
    let b = kind_reports(all, BlockKind::Heading, "見出し"@, prefer_for(opts, BlockKind::Heading));
    let c = kind_reports(all, BlockKind::ListItem, "箇条書き"@, prefer_for(opts, BlockKind::ListItem));
    assert(mix_reports(all, opts) == a + b + c);
    assert forall|x: int| 0 <= x < mix_reports(all, opts).len() implies over_yielding_hit(
        all,
        opts,
        #[trigger] mix_reports(all, opts)[x],
    ) by {
        let m = mix_reports(all, opts);
        if x < a.len() {
            let i = kind_reports_source(all, BlockKind::Paragraph, "本文"@, prefer_for(opts, BlockKind::Paragraph), x);
            assert(m[x] == a[x]);
            assert(hit_finding(all[i], m[x]));
        } else if x < a.len() + b.len() {
            let i = kind_reports_source(all, BlockKind::Heading, "見出し"@, prefer_for(opts, BlockKind::Heading), x - a.len());
            assert(m[x] == b[x - a.len()]);
            assert(hit_finding(all[i], m[x]));
        } else {
            let i = kind_reports_source(
                all,
                BlockKind::ListItem,
                "箇条書き"@,
                prefer_for(opts, BlockKind::ListItem),
                x - a.len() - b.len(),
            );
            assert(m[x] == c[x - a.len() - b.len()]);
            assert(hit_finding(all[i], m[x]));
        }
    }
    assert forall|i: int|
        #![trigger all[i]]
        0 <= i < all.len() && weighed(all[i].kind) && yields(all, all[i].kind, all[i].style, prefer_for(opts, all[i].kind))
            implies exists|x: int| 0 <= x < mix_reports(all, opts).len() && #[trigger] hit_finding(all[i], mix_reports(all, opts)[x]) by {
        let m = mix_reports(all, opts);
        if all[i].kind == BlockKind::Paragraph {
            let y = kind_reports_index(all, BlockKind::Paragraph, "本文"@, prefer_for(opts, BlockKind::Paragraph), i);
            assert(m[y] == a[y]);
            assert(hit_finding(all[i], m[y]));
        } else if all[i].kind == BlockKind::Heading {
            let y = kind_reports_index(all, BlockKind::Heading, "見出し"@, prefer_for(opts, BlockKind::Heading), i);
            assert(m[a.len() + y] == b[y]);
            assert(hit_finding(all[i], m[a.len() + y]));
        } else {
            let y = kind_reports_index(all, BlockKind::ListItem, "箇条書き"@, prefer_for(opts, BlockKind::ListItem), i);
            assert(m[a.len() + b.len() + y] == c[y]);
            assert(hit_finding(all[i], m[a.len() + b.len() + y]));
        }
    }
}

} // verus!
