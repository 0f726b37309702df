//! Rule interface and registry.
//!
//! Rules see one block at a time (tokens and sentences precomputed) and report
//! byte ranges within the block text. Rules that need the whole document
//! (style consistency, required headings) collect during `check` and emit
//! from `finish`. Which blocks a rule sees is declared by `scope`, and the
//! engine enforces it, so a rule never re-checks block kinds itself.

pub mod document;
pub mod joshi;
pub mod style;
pub mod text;
pub mod verb;

use crate::config::{self, OptValue};
use crate::document::{Block, BlockKind, Document};
use crate::sentence::{self, Sentence};
use crate::tokenizer::{self, Token};
use crate::utf;
use vstd::prelude::*;

verus! {

/// A finding, in byte offsets of the block text (or of the source, for
/// `Anchor::Source` reports).
#[derive(Debug)]
pub struct Report {
    pub start: usize,
    pub end: usize,
    pub message: String,
    pub fix: Option<TextFix>,
}

#[derive(Debug)]
pub struct TextFix {
    pub start: usize,
    pub end: usize,
    pub text: String,
}

impl Report {
    pub fn at(start: usize, end: usize, message: String) -> (r: Report)
        ensures
            r.start == start,
            r.end == end,
            r.message@ == message@,
            r.fix is None,
    {
        Report { start, end, message, fix: None }
    }

    pub fn token(tok: &Token, message: String) -> (r: Report)
        ensures
            r.start == tok.byte_start,
            r.end == tok.byte_end,
            r.message@ == message@,
            r.fix is None,
    {
        Report::at(tok.byte_start, tok.byte_end, message)
    }

    pub fn with_fix(self, start: usize, end: usize, text: String) -> (r: Report)
        ensures
            r.start == self.start,
            r.end == self.end,
            r.message == self.message,
            r.fix matches Some(f) && f.start == start && f.end == end && f.text@ == text@,
    {
        let mut r = self;
        r.fix = Some(TextFix { start, end, text });
        r
    }

    /// A fix that replaces exactly the reported range.
    pub fn replace(self, text: String) -> (r: Report)
        ensures
            r.start == self.start,
            r.end == self.end,
            r.message == self.message,
            r.fix matches Some(f) && f.start == self.start && f.end == self.end && f.text@ == text@,
    {
        let s = self.start;
        let e = self.end;
        self.with_fix(s, e, text)
    }
}

/// What a report says, in terms of its positions and texts.
pub ghost struct ReportModel {
    pub start: int,
    pub end: int,
    pub message: Seq<char>,
    pub fix: Option<(int, int, Seq<char>)>,
}

impl Report {
    pub open spec fn model(&self) -> ReportModel {
        ReportModel {
            start: self.start as int,
            end: self.end as int,
            message: self.message@,
            fix: match self.fix {
                Some(f) => Some((f.start as int, f.end as int, f.text@)),
                None => None,
            },
        }
    }
}

pub open spec fn models(rs: Seq<Report>) -> Seq<ReportModel> {
    Seq::new(rs.len(), |i: int| rs[i].model())
}

/// A report of `[start, end)` with no fix.
pub open spec fn found(start: int, end: int, message: Seq<char>) -> ReportModel {
    ReportModel { start, end, message, fix: None }
}

/// A report of `[start, end)` whose fix rewrites the same range.
pub open spec fn found_fix(start: int, end: int, message: Seq<char>, text: Seq<char>) -> ReportModel {
    ReportModel { start, end, message, fix: Some((start, end, text)) }
}

/// The reports `f` gives for positions `0..n`, in order.
pub open spec fn concat_upto(f: spec_fn(int) -> Seq<ReportModel>, n: int) -> Seq<ReportModel>
    decreases n,
{
    if n <= 0 {
        Seq::empty()
    } else {
        concat_upto(f, n - 1) + f(n - 1)
    }
}

/// Where entry `x` of `concat_upto(f, n)` comes from: a position `k < n` and
/// an entry `y` of `f(k)`.
pub proof fn concat_upto_source(f: spec_fn(int) -> Seq<ReportModel>, n: int, x: int) -> (ky: (int, int))
    requires
        0 <= x < concat_upto(f, n).len(),
    ensures
        0 <= ky.0 < n,
        0 <= ky.1 < f(ky.0).len(),
        concat_upto(f, n)[x] == f(ky.0)[ky.1],
    decreases n,
{
    if n <= 0 {
        (0, 0)
    } else {
        let pre = concat_upto(f, n - 1);
        if x < pre.len() {
            let ky = concat_upto_source(f, n - 1, x);
            assert(concat_upto(f, n)[x] == pre[x]);
            ky
        } else {
            assert(concat_upto(f, n)[x] == f(n - 1)[x - pre.len()]);
            (n - 1, x - pre.len())
        }
    }
}

/// Where entry `y` of `f(k)` lands in `concat_upto(f, n)`.
pub proof fn concat_upto_index(f: spec_fn(int) -> Seq<ReportModel>, n: int, k: int, y: int) -> (x: int)
    requires
        0 <= k < n,
        0 <= y < f(k).len(),
    ensures
        0 <= x < concat_upto(f, n).len(),
        concat_upto(f, n)[x] == f(k)[y],
    decreases n,
{
    let pre = concat_upto(f, n - 1);
    if k == n - 1 {
        assert(concat_upto(f, n)[pre.len() + y] == f(k)[y]);
        pre.len() + y
    } else {
        let x = concat_upto_index(f, n - 1, k, y);
        assert(concat_upto(f, n)[x] == pre[x]);
        x
    }
}

proof fn lemma_insert_pos_range(s: Seq<ReportModel>, x: ReportModel)
    ensures
        0 <= start_insert_pos(s, x) <= s.len(),
    decreases s.len(),
{
    if s.len() > 0 && s.last().start > x.start {
        lemma_insert_pos_range(s.drop_last(), x);
    }
}

/// Where entry `i` of `s` lands once sorted by start: the sort keeps every report.
pub proof fn sort_by_start_index(s: Seq<ReportModel>, i: int) -> (x: int)
    requires
        0 <= i < s.len(),
    ensures
        0 <= x < sort_by_start(s).len(),
        sort_by_start(s)[x] == s[i],
        sort_by_start(s).len() == s.len(),
    decreases s.len(),
{
    let t = sort_by_start(s.drop_last());
    let p = start_insert_pos(t, s.last());
    if s.len() == 1 {
        lemma_insert_pos_range(t, s.last());
        assert(t.len() == 0);
        assert(sort_by_start(s)[0] == s.last());
        0
    } else {
        let _ = sort_by_start_index(s.drop_last(), 0);
        lemma_insert_pos_range(t, s.last());
        if i == s.len() - 1 {
            assert(sort_by_start(s)[p] == s.last());
            p
        } else {
            let y = sort_by_start_index(s.drop_last(), i);
            assert(s.drop_last()[i] == s[i]);
            if y < p {
                assert(sort_by_start(s)[y] == t[y]);
                y
            } else {
                assert(sort_by_start(s)[y + 1] == t[y]);
                y + 1
            }
        }
    }
}

/// Nothing reported at any position: nothing reported at all.
pub proof fn lemma_concat_upto_empty(f: spec_fn(int) -> Seq<ReportModel>, n: int)
    requires
        forall|k: int| 0 <= k < n ==> (#[trigger] f(k)).len() == 0,
    ensures
        concat_upto(f, n).len() == 0,
    decreases n,
{
    if n > 0 {
        lemma_concat_upto_empty(f, n - 1);
        assert(f(n - 1).len() == 0);
    }
}

/// Concatenation keeps a pointwise sub-multiset relation.
pub proof fn lemma_concat_upto_sub(f: spec_fn(int) -> Seq<ReportModel>, g: spec_fn(int) -> Seq<ReportModel>, n: int)
    requires
        forall|k: int| 0 <= k < n ==> (#[trigger] f(k)).to_multiset().subset_of(g(k).to_multiset()),
    ensures
        concat_upto(f, n).to_multiset().subset_of(concat_upto(g, n).to_multiset()),
    decreases n,
{
    broadcast use vstd::multiset::group_multiset_axioms;
    if n <= 0 {
        assert(concat_upto(f, n) =~= Seq::<ReportModel>::empty());
        assert(concat_upto(g, n) =~= Seq::<ReportModel>::empty());
    } else {
        lemma_concat_upto_sub(f, g, n - 1);
        vstd::seq_lib::lemma_multiset_commutative(concat_upto(f, n - 1), f(n - 1));
        vstd::seq_lib::lemma_multiset_commutative(concat_upto(g, n - 1), g(n - 1));
        assert(f(n - 1).to_multiset().subset_of(g(n - 1).to_multiset()));
    }
}

pub proof fn lemma_models_push(rs: Seq<Report>, r: Report)
    ensures
        models(rs.push(r)) == models(rs) + seq![r.model()],
{
    assert(models(rs.push(r)) =~= models(rs) + seq![r.model()]);
}

pub proof fn lemma_models_empty()
    ensures
        models(Seq::<Report>::empty()) == Seq::<ReportModel>::empty(),
{
    assert(models(Seq::<Report>::empty()) =~= Seq::<ReportModel>::empty());
}

/// Move the reports of `more` to the end of `out`, in order.
pub fn append_reports(out: &mut Vec<Report>, more: Vec<Report>)
    ensures
        models(final(out)@) == models(old(out)@) + models(more@),
{
    let mut rest = more;
    let ghost all = models(rest@);
    let ghost start = models(out@);
    let ghost mut k: int = 0;
    while rest.len() > 0
        invariant
            0 <= k <= all.len(),
            models(rest@) == all.skip(k),
            models(out@) == start + all.take(k),
        decreases rest@.len(),
    {
        let ghost before = rest@;
        let r = rest.remove(0);
        proof {
            assert(r == before[0]);
            assert(models(before) == all.skip(k));
            assert(models(before).len() == before.len());
            assert(all.skip(k).len() == all.len() - k);
            assert(k < all.len());
            assert(all.skip(k)[0] == all[k]);
            assert(models(before)[0] == all[k]);
            assert(rest@ =~= before.drop_first());
            assert forall|i: int| 0 <= i < rest@.len() implies #[trigger] models(rest@)[i] == all.skip(k + 1)[i] by {
                assert(rest@[i] == before[i + 1]);
                assert(models(before)[i + 1] == all.skip(k)[i + 1]);
            }
            assert(models(rest@) =~= all.skip(k + 1));
            lemma_models_push(out@, r);
            assert(all.take(k + 1) =~= all.take(k).push(all[k]));
            k = k + 1;
        }
        out.push(r);
    }
    proof {
        assert(all.take(k) =~= all);
    }
}

/// Where a stable insertion by start puts `x` into `s`.
pub open spec fn start_insert_pos(s: Seq<ReportModel>, x: ReportModel) -> int
    decreases s.len(),
{
    if s.len() == 0 {
        0
    } else if s.last().start <= x.start {
        s.len() as int
    } else {
        start_insert_pos(s.drop_last(), x)
    }
}

/// The reports in stable order of their start.
pub open spec fn sort_by_start(s: Seq<ReportModel>) -> Seq<ReportModel>
    decreases s.len(),
{
    if s.len() == 0 {
        Seq::empty()
    } else {
        let t = sort_by_start(s.drop_last());
        t.insert(start_insert_pos(t, s.last()), s.last())
    }
}

/// Stable insertion sort of reports by start offset.
pub fn sort_reports(v: Vec<Report>) -> (r: Vec<Report>)
    ensures
        models(r@) == sort_by_start(models(v@)),
{
    let ghost all = models(v@);
    let mut out: Vec<Report> = Vec::new();
    let mut rest = v;
    let ghost mut k: int = 0;
    proof {
        lemma_models_empty();
        assert(all.take(0) =~= Seq::<ReportModel>::empty());
        assert(all.skip(0) =~= all);
    }
    while rest.len() > 0
        invariant
            0 <= k <= all.len(),
            models(rest@) == all.skip(k),
            models(out@) == sort_by_start(all.take(k)),
        decreases rest@.len(),
    {
        let ghost before = rest@;
        let x = rest.remove(0);
        proof {
            assert(x == before[0]);
            assert(models(before).len() == before.len());
            assert(all.skip(k).len() == all.len() - k);
            assert(all.skip(k)[0] == all[k]);
            assert(models(before)[0] == all[k]);
            assert(rest@ =~= before.drop_first());
            assert forall|i: int| 0 <= i < rest@.len() implies #[trigger] models(rest@)[i] == all.skip(k + 1)[i] by {
                assert(rest@[i] == before[i + 1]);
                assert(models(before)[i + 1] == all.skip(k)[i + 1]);
            }
            assert(models(rest@) =~= all.skip(k + 1));
            assert(all.take(k + 1).drop_last() =~= all.take(k));
            assert(all.take(k + 1).last() == all[k]);
        }
        let mut j = out.len();
        assert(models(out@).take(j as int) =~= models(out@));
        while j > 0 && !(out[j - 1].start <= x.start)
            invariant
                j <= out@.len(),
                start_insert_pos(models(out@), x.model()) == start_insert_pos(models(out@).take(j as int), x.model()),
            decreases j,
        {
            proof {
                let s = models(out@).take(j as int);
                assert(s.drop_last() =~= models(out@).take(j - 1));
            }
            j = j - 1;
        }
        proof {
            let s = models(out@).take(j as int);
            if j > 0 {
                assert(s.last() == models(out@)[j - 1]);
            }
        }
        let ghost before_out = models(out@);
        out.insert(j, x);
        proof {
            assert(models(out@) =~= before_out.insert(j as int, x.model()));
            k = k + 1;
        }
    }
    proof {
        assert(all.take(k) =~= all);
    }
    out
}

/// Which offset space a `finish` report uses.
#[derive(Debug, Clone, Copy, PartialEq, Eq, Structural)]
pub enum Anchor {
    /// Offsets are within the text of this block.
    Block(usize),
    /// Offsets are source bytes already (a document-level finding).
    Source,
}

/// The blocks a rule wants to see.
#[derive(Debug, Clone, Copy, PartialEq, Eq, Structural)]
pub struct Scope {
    pub paragraph: bool,
    pub heading: bool,
    pub list_item: bool,
    pub table_cell: bool,
    /// textlint's ja rules mostly skip quoted text; the character-level ones do not.
    pub blockquote: bool,
}

impl Scope {
    /// Whether blocks of this kind are in scope.
    pub open spec fn has_kind(&self, k: BlockKind) -> bool {
        match k {
            BlockKind::Paragraph => self.paragraph,
            BlockKind::Heading => self.heading,
            BlockKind::ListItem => self.list_item,
            BlockKind::TableCell => self.table_cell,
        }
    }

    pub open spec fn admits_spec(&self, block: Block) -> bool {
        self.has_kind(block.kind) && (self.blockquote || !block.in_blockquote)
    }

    /// Blocks textlint represents with a `Paragraph` node, where its
    /// sentence-scoped rules run.
    pub fn prose() -> (r: Scope)
        ensures
            r == (Scope { paragraph: true, heading: false, list_item: true, table_cell: false, blockquote: false }),
    {
        Scope { paragraph: true, heading: false, list_item: true, table_cell: false, blockquote: false }
    }

    pub fn paragraph() -> (r: Scope)
        ensures
            r == (Scope { paragraph: true, heading: false, list_item: false, table_cell: false, blockquote: false }),
    {
        Scope { paragraph: true, heading: false, list_item: false, table_cell: false, blockquote: false }
    }

    pub fn text() -> (r: Scope)
        ensures
            r == (Scope { paragraph: true, heading: true, list_item: true, table_cell: true, blockquote: false }),
    {
        Scope { paragraph: true, heading: true, list_item: true, table_cell: true, blockquote: false }
    }

    pub fn everywhere() -> (r: Scope)
        ensures
            r == (Scope { paragraph: true, heading: true, list_item: true, table_cell: true, blockquote: true }),
    {
        Scope { paragraph: true, heading: true, list_item: true, table_cell: true, blockquote: true }
    }

    pub fn admits(&self, block: &Block) -> (b: bool)
        ensures
            b == self.admits_spec(*block),
    {
        let kind_ok = match block.kind {
            BlockKind::Paragraph => self.paragraph,
            BlockKind::Heading => self.heading,
            BlockKind::ListItem => self.list_item,
            BlockKind::TableCell => self.table_cell,
        };
        kind_ok && (self.blockquote || !block.in_blockquote)
    }
}

pub struct BlockData<'a> {
    pub index: usize,
    pub block: &'a Block,
    pub tokens: Vec<Token>,
    pub sentences: Vec<Sentence>,
}

impl<'a> BlockData<'a> {
    /// Tokens lie in order inside the block text, the sentences are the
    /// splitter's, and the block's segments are well formed.
    pub open spec fn wf(&self) -> bool {
        &&& tokenizer::monotone_tokens(self.tokens@, utf::byte_len(self.block.text@) as int)
        &&& self.sentences@ == sentence::split_spec(self.block.text@, self.tokens@)
        &&& self.block.wf()
    }

    pub fn text(&self) -> (r: &str)
        ensures
            r@ == self.block.text@,
    {
        self.block.text.as_str()
    }

    /// The text of a sentence.
    pub fn sentence_text(&self, s: &Sentence) -> (r: String)
        ensures
            r@ == utf::chars_in_bytes(self.block.text@, s.byte_range.start as int, s.byte_range.end as int),
    {
        let cs = utf::chars_of(self.block.text.as_str());
        let total = utf::str_len(self.block.text.as_str());
        let offs = utf::byte_offsets(&cs);
        let piece = crate::document::chars_between(&cs, &offs, s.byte_range.start, s.byte_range.end);
        utf::string_of(piece.as_slice())
    }

    /// The tokens of a sentence.
    pub fn sentence_tokens(&self, s: &Sentence) -> (r: &[Token])
        requires
            s.tokens.start <= s.tokens.end <= self.tokens@.len(),
        ensures
            r@ == self.tokens@.subrange(s.tokens.start as int, s.tokens.end as int),
    {
        let range = s.tokens.start..s.tokens.end;
        &self.tokens.as_slice()[range]
    }

    /// Whether the text at `byte` sits inside a link or emphasis, which most
    /// textlint rules skip.
    pub fn in_link_or_emphasis(&self, byte: usize) -> (b: bool)
        ensures
            b == in_link_or_emphasis_spec(self.block.segments@, byte as int),
    {
        match self.block.segment_at(byte) {
            Some(s) => s.in_link || s.in_emphasis,
            None => false,
        }
    }
}

/// The tokens of sentence `i` of a block.
pub open spec fn sent_toks(blk: BlockData, i: int) -> Seq<Token> {
    let s = blk.sentences@[i];
    blk.tokens@.subrange(s.tokens.start as int, s.tokens.end as int)
}

/// Every sentence of a well-formed block lies in its text and token list.
pub proof fn lemma_sentences_ok(blk: BlockData)
    requires
        blk.wf(),
        utf::byte_len(blk.block.text@) <= usize::MAX,
        blk.tokens@.len() <= usize::MAX,
    ensures
        forall|k: int| 0 <= k < blk.sentences@.len() ==> sentence::sentence_ok(
            #[trigger] blk.sentences@[k],
            utf::byte_len(blk.block.text@) as int,
            blk.tokens@.len() as int,
        ),
{
    sentence::lemma_split_from_ok(blk.block.text@, blk.tokens@, 0, 0, Seq::empty());
}

/// Whether `s` is one of `list`.
pub fn str_in(s: &str, list: &Vec<String>) -> (b: bool)
    ensures
        b == crate::config::views(list@).contains(s@),
{
    let mut i: usize = 0;
    while i < list.len()
        invariant
            i <= list@.len(),
            forall|k: int| 0 <= k < i ==> list@[k]@ != s@,
        decreases list@.len() - i,
    {
        if utf::str_eq(list[i].as_str(), s) {
            assert(crate::config::views(list@)[i as int] == s@);
            return true;
        }
        i = i + 1;
    }
    assert forall|k: int| 0 <= k < list@.len() implies crate::config::views(list@)[k] != s@ by {}
    false
}

pub open spec fn in_link_or_emphasis_spec(segs: Seq<crate::document::Segment>, byte: int) -> bool {
    match crate::document::last_start_le(segs, byte) {
        Some(i) => segs[i].in_link || segs[i].in_emphasis,
        None => false,
    }
}

pub struct Ctx<'a> {
    pub doc: &'a Document,
    pub options: &'a OptValue,
}

impl<'a> Ctx<'a> {
    /// 1-based source line of a block-text byte offset.
    pub fn line_of(&self, blk: &BlockData, text_byte: usize) -> (r: usize)
        requires
            self.doc.wf(),
            blk.block.segs_wf(),
        ensures
            r == crate::document::position_spec(
                self.doc.source@,
                crate::document::to_source_spec(blk.block.segments@, text_byte as int),
            ).0,
    {
        self.doc.position(blk.block.to_source(text_byte)).0
    }
}

/// Prefix textlint uses for this preset's rule IDs.
pub const TEXTLINT_RULE_PREFIX: &'static str = "ja-technical-writing/";

/// Every rule, in the order the linter runs them.
pub enum AnyRule {
    SentenceLength(text::SentenceLength),
    MaxComma(text::MaxComma),
    MaxKanjiContinuousLen(text::MaxKanjiContinuousLen),
    NoExclamationQuestionMark(text::NoExclamationQuestionMark),
    NoZeroWidthSpaces(text::NoZeroWidthSpaces),
    NoInvalidControlCharacter(text::NoInvalidControlCharacter),
    NoNfd(text::NoNfd),
    NoHankakuKana(text::NoHankakuKana),
    JaNoMixedPeriod(text::JaNoMixedPeriod),
    MaxTen(joshi::MaxTen),
    NoDoubledJoshi(joshi::NoDoubledJoshi),
    NoDoubledConjunctiveParticleGa(joshi::NoDoubledConjunctiveParticleGa),
    NoDoubledConjunction(joshi::NoDoubledConjunction),
    NoDroppingTheRa(verb::NoDroppingTheRa),
    NoDoubleNegativeJa(verb::NoDoubleNegativeJa),
    JaNoWeakPhrase(verb::JaNoWeakPhrase),
    NoMixDearuDesumasu(style::NoMixDearuDesumasu),
    RequiredHeadings(document::RequiredHeadings),
    Forbidden(document::Forbidden),
    Terminology(document::Terminology),
}

/// The ids of all rules, in registry order.
pub open spec fn rule_ids() -> Seq<Seq<char>> {
    seq![
        "sentence-length"@,
        "max-comma"@,
        "max-kanji-continuous-len"@,
        "no-exclamation-question-mark"@,
        "no-zero-width-spaces"@,
        "no-invalid-control-character"@,
        "no-nfd"@,
        "no-hankaku-kana"@,
        "ja-no-mixed-period"@,
        "max-ten"@,
        "no-doubled-joshi"@,
        "no-doubled-conjunctive-particle-ga"@,
        "no-doubled-conjunction"@,
        "no-dropping-the-ra"@,
        "no-double-negative-ja"@,
        "ja-no-weak-phrase"@,
        "no-mix-dearu-desumasu"@,
        "required-headings"@,
        "forbidden"@,
        "terminology"@,
    ]
}

/// What a rule carries from one block to the next: which rule it is, and
/// the state of the rules that keep any.
pub ghost struct RuleState {
    pub which: int,
    pub patterns: Option<Seq<config::MatcherSpec>>,
    pub hits: Seq<style::HitModel>,
    pub seen: Seq<Seq<char>>,
    pub terms: Option<Seq<(Seq<char>, Seq<config::MatcherSpec>)>>,
}

pub open spec fn plain(which: int) -> RuleState {
    RuleState { which, patterns: None, hits: Seq::empty(), seen: Seq::empty(), terms: None }
}

/// The blocks each rule sees, by registry position.
pub open spec fn scope_of(which: int) -> Scope {
    if which == 0 || which == 1 || (9 <= which && which <= 12) {
        Scope { paragraph: true, heading: false, list_item: true, table_cell: false, blockquote: false }
    } else if which == 4 || which == 5 || which == 14 || which == 15 {
        Scope { paragraph: true, heading: true, list_item: true, table_cell: true, blockquote: true }
    } else if which == 8 {
        Scope { paragraph: true, heading: false, list_item: false, table_cell: false, blockquote: false }
    } else if which == 16 {
        Scope { paragraph: true, heading: true, list_item: true, table_cell: false, blockquote: false }
    } else {
        Scope { paragraph: true, heading: true, list_item: true, table_cell: true, blockquote: false }
    }
}

/// What rule `st.which` reports for one block.
pub open spec fn check_spec(st: RuleState, blk: BlockData, src: Seq<char>, opts: OptValue) -> Seq<ReportModel> {
    let cs = blk.block.text@;
    let segs = blk.block.segments@;
    let n = blk.sentences@.len() as int;
    if st.which == 0 {
        text::length_reports(blk, src, opts, text::skip_patterns_for(st.patterns, opts))
    } else if st.which == 1 {
        concat_upto(|i: int| text::comma_at(cs, blk.sentences@, opts, i), n)
    } else if st.which == 2 {
        concat_upto(|k: int| text::kanji_at(cs, segs, opts, k), cs.len() as int)
    } else if st.which == 3 {
        concat_upto(|k: int| text::exclam_at(cs, segs, opts, k), cs.len() as int)
    } else if st.which == 4 {
        concat_upto(|k: int| text::zws_at(cs, k), cs.len() as int)
    } else if st.which == 5 {
        concat_upto(|k: int| text::control_at(cs, k), cs.len() as int)
    } else if st.which == 6 {
        concat_upto(|k: int| text::nfd_at(cs, k), cs.len() as int)
    } else if st.which == 7 {
        concat_upto(|k: int| text::hankaku_at(cs, segs, k), cs.len() as int)
    } else if st.which == 8 {
        text::period_reports(cs, segs, opts)
    } else if st.which == 9 {
        concat_upto(|i: int| joshi::ten_scan(sent_toks(blk, i), 0, 0, None, opts), n)
    } else if st.which == 10 {
        concat_upto(|i: int| joshi::doubled_reports(sent_toks(blk, i), opts), n)
    } else if st.which == 11 {
        concat_upto(|i: int| joshi::ga_reports(sent_toks(blk, i), opts), n)
    } else if st.which == 12 {
        joshi::conj_from(blk, 1)
    } else if st.which == 13 {
        verb::scan_spec(verb::ScanKind::DroppingTheRa, blk.tokens@, verb::ra_table())
    } else if st.which == 14 {
        verb::scan_spec(verb::ScanKind::DoubleNegative, blk.tokens@, verb::double_negative_table())
    } else if st.which == 15 {
        verb::scan_spec(verb::ScanKind::WeakPhrase, blk.tokens@, verb::weak_phrase_table())
    } else if st.which == 18 {
        document::forbidden_reports(cs, document::cached_or(st.patterns, opts, "patterns"@))
    } else if st.which == 19 {
        document::term_reports(
            cs,
            match st.terms {
                Some(t) => t,
                None => document::terms_spec(document::term_items(opts)),
            },
        )
    } else {
        Seq::empty()
    }
}

/// A rule's state after it has seen one block.
pub open spec fn next_state(st: RuleState, blk: BlockData, opts: OptValue) -> RuleState {
    if st.which == 0 {
        RuleState { patterns: Some(text::skip_patterns_for(st.patterns, opts)), ..st }
    } else if st.which == 16 {
        RuleState { hits: st.hits + style::block_hits(blk, opts), ..st }
    } else if st.which == 17 {
        RuleState {
            seen: if blk.block.kind == BlockKind::Heading {
                st.seen.push(utf::trimmed(blk.block.text@))
            } else {
                st.seen
            },
            ..st
        }
    } else if st.which == 18 {
        RuleState { patterns: Some(document::cached_or(st.patterns, opts, "patterns"@)), ..st }
    } else if st.which == 19 {
        RuleState {
            terms: Some(
                match st.terms {
                    Some(t) => t,
                    None => document::terms_spec(document::term_items(opts)),
                },
            ),
            ..st
        }
    } else {
        st
    }
}

/// What rule `st.which` reports once every block has been seen.
pub open spec fn finish_spec(st: RuleState, opts: OptValue) -> Seq<(Anchor, ReportModel)> {
    if st.which == 16 {
        style::mix_reports(st.hits, opts)
    } else if st.which == 17 {
        document::missing_headings(st.seen, config::opt_strs_spec(opts, "headings"@, Seq::empty()))
    } else {
        Seq::empty()
    }
}

impl AnyRule {
    pub open spec fn which(&self) -> int {
        match self {
            AnyRule::SentenceLength(_) => 0,
            AnyRule::MaxComma(_) => 1,
            AnyRule::MaxKanjiContinuousLen(_) => 2,
            AnyRule::NoExclamationQuestionMark(_) => 3,
            AnyRule::NoZeroWidthSpaces(_) => 4,
            AnyRule::NoInvalidControlCharacter(_) => 5,
            AnyRule::NoNfd(_) => 6,
            AnyRule::NoHankakuKana(_) => 7,
            AnyRule::JaNoMixedPeriod(_) => 8,
            AnyRule::MaxTen(_) => 9,
            AnyRule::NoDoubledJoshi(_) => 10,
            AnyRule::NoDoubledConjunctiveParticleGa(_) => 11,
            AnyRule::NoDoubledConjunction(_) => 12,
            AnyRule::NoDroppingTheRa(_) => 13,
            AnyRule::NoDoubleNegativeJa(_) => 14,
            AnyRule::JaNoWeakPhrase(_) => 15,
            AnyRule::NoMixDearuDesumasu(_) => 16,
            AnyRule::RequiredHeadings(_) => 17,
            AnyRule::Forbidden(_) => 18,
            AnyRule::Terminology(_) => 19,
        }
    }

    pub open spec fn state(&self) -> RuleState {
        match self {
            AnyRule::SentenceLength(r) => RuleState { patterns: r.cached(), ..plain(0) },
            AnyRule::NoMixDearuDesumasu(r) => RuleState { hits: r.hits_spec(), ..plain(16) },
            AnyRule::RequiredHeadings(r) => RuleState { seen: r.seen_spec(), ..plain(17) },
            AnyRule::Forbidden(r) => RuleState { patterns: r.cached(), ..plain(18) },
            AnyRule::Terminology(r) => RuleState { terms: r.cached(), ..plain(19) },
            _ => plain(self.which()),
        }
    }

    pub open spec fn inv(&self) -> bool {
        match self {
            AnyRule::SentenceLength(r) => r.inv(),
            AnyRule::Forbidden(r) => r.inv(),
            AnyRule::Terminology(r) => r.inv(),
            _ => true,
        }
    }

    /// The rule at registry position `which`, fresh.
    pub fn fresh(which: usize) -> (r: AnyRule)
        requires
            which < 20,
        ensures
            r.which() == which,
            r.state() == plain(which as int),
            r.inv(),
    {
        match which {
            0 => AnyRule::SentenceLength(text::SentenceLength::new()),
            1 => AnyRule::MaxComma(text::MaxComma),
            2 => AnyRule::MaxKanjiContinuousLen(text::MaxKanjiContinuousLen),
            3 => AnyRule::NoExclamationQuestionMark(text::NoExclamationQuestionMark),
            4 => AnyRule::NoZeroWidthSpaces(text::NoZeroWidthSpaces),
            5 => AnyRule::NoInvalidControlCharacter(text::NoInvalidControlCharacter),
            6 => AnyRule::NoNfd(text::NoNfd),
            7 => AnyRule::NoHankakuKana(text::NoHankakuKana),
            8 => AnyRule::JaNoMixedPeriod(text::JaNoMixedPeriod),
            9 => AnyRule::MaxTen(joshi::MaxTen),
            10 => AnyRule::NoDoubledJoshi(joshi::NoDoubledJoshi),
            11 => AnyRule::NoDoubledConjunctiveParticleGa(joshi::NoDoubledConjunctiveParticleGa),
            12 => AnyRule::NoDoubledConjunction(joshi::NoDoubledConjunction),
            13 => AnyRule::NoDroppingTheRa(verb::NoDroppingTheRa),
            14 => AnyRule::NoDoubleNegativeJa(verb::NoDoubleNegativeJa),
            15 => AnyRule::JaNoWeakPhrase(verb::JaNoWeakPhrase),
            16 => AnyRule::NoMixDearuDesumasu(style::NoMixDearuDesumasu::new()),
            17 => AnyRule::RequiredHeadings(document::RequiredHeadings::new()),
            18 => AnyRule::Forbidden(document::Forbidden::new()),
            _ => AnyRule::Terminology(document::Terminology::new()),
        }
    }

    pub fn id(&self) -> (r: &'static str)
        ensures
            r@ == rule_ids()[self.which()],
    {
        let r = match self {
            AnyRule::SentenceLength(_) => "sentence-length",
            AnyRule::MaxComma(_) => "max-comma",
            AnyRule::MaxKanjiContinuousLen(_) => "max-kanji-continuous-len",
            AnyRule::NoExclamationQuestionMark(_) => "no-exclamation-question-mark",
            AnyRule::NoZeroWidthSpaces(_) => "no-zero-width-spaces",
            AnyRule::NoInvalidControlCharacter(_) => "no-invalid-control-character",
            AnyRule::NoNfd(_) => "no-nfd",
            AnyRule::NoHankakuKana(_) => "no-hankaku-kana",
            AnyRule::JaNoMixedPeriod(_) => "ja-no-mixed-period",
            AnyRule::MaxTen(_) => "max-ten",
            AnyRule::NoDoubledJoshi(_) => "no-doubled-joshi",
            AnyRule::NoDoubledConjunctiveParticleGa(_) => "no-doubled-conjunctive-particle-ga",
            AnyRule::NoDoubledConjunction(_) => "no-doubled-conjunction",
            AnyRule::NoDroppingTheRa(_) => "no-dropping-the-ra",
            AnyRule::NoDoubleNegativeJa(_) => "no-double-negative-ja",
            AnyRule::JaNoWeakPhrase(_) => "ja-no-weak-phrase",
            AnyRule::NoMixDearuDesumasu(_) => "no-mix-dearu-desumasu",
            AnyRule::RequiredHeadings(_) => "required-headings",
            AnyRule::Forbidden(_) => "forbidden",
            AnyRule::Terminology(_) => "terminology",
        };
        r
    }

    pub fn scope(&self) -> (r: Scope)
        ensures
            r == scope_of(self.which()),
    {
        match self {
            AnyRule::SentenceLength(_) | AnyRule::MaxComma(_) | AnyRule::MaxTen(_) | AnyRule::NoDoubledJoshi(_)
            | AnyRule::NoDoubledConjunctiveParticleGa(_) | AnyRule::NoDoubledConjunction(_) => Scope::prose(),
            AnyRule::NoZeroWidthSpaces(_) | AnyRule::NoInvalidControlCharacter(_) | AnyRule::NoDoubleNegativeJa(_) | AnyRule::JaNoWeakPhrase(_) => Scope::everywhere(),
            AnyRule::JaNoMixedPeriod(_) => Scope::paragraph(),
            AnyRule::NoMixDearuDesumasu(_) => Scope {
                paragraph: true,
                heading: true,
                list_item: true,
                table_cell: false,
                blockquote: false,
            },
            _ => Scope::text(),
        }
    }

    /// Whether the rule runs when the config does not mention it.
    pub fn default_enabled(&self) -> (b: bool)
        ensures
            b == (self.which() < 17),
    {
        match self {
            AnyRule::RequiredHeadings(_) | AnyRule::Forbidden(_) | AnyRule::Terminology(_) => false,
            _ => true,
        }
    }

    #[verifier::rlimit(100)]
    #[verifier::spinoff_prover]
    pub fn check(&mut self, blk: &BlockData, ctx: &Ctx) -> (r: Vec<Report>)
        requires
            old(self).inv(),
            blk.wf(),
            ctx.doc.wf(),
        ensures
            final(self).inv(),
            final(self).which() == old(self).which(),
            final(self).state() == next_state(old(self).state(), *blk, *ctx.options),
            models(r@) == check_spec(old(self).state(), *blk, ctx.doc.source@, *ctx.options),
    {
        match self {
            AnyRule::SentenceLength(r) => r.check(blk, ctx),
            AnyRule::MaxComma(r) => r.check(blk, ctx),
            AnyRule::MaxKanjiContinuousLen(r) => r.check(blk, ctx),
            AnyRule::NoExclamationQuestionMark(r) => r.check(blk, ctx),
            AnyRule::NoZeroWidthSpaces(r) => r.check(blk, ctx),
            AnyRule::NoInvalidControlCharacter(r) => r.check(blk, ctx),
            AnyRule::NoNfd(r) => r.check(blk, ctx),
            AnyRule::NoHankakuKana(r) => r.check(blk, ctx),
            AnyRule::JaNoMixedPeriod(r) => r.check(blk, ctx),
            AnyRule::MaxTen(r) => r.check(blk, ctx),
            AnyRule::NoDoubledJoshi(r) => r.check(blk, ctx),
            AnyRule::NoDoubledConjunctiveParticleGa(r) => r.check(blk, ctx),
            AnyRule::NoDoubledConjunction(r) => r.check(blk, ctx),
            AnyRule::NoDroppingTheRa(r) => r.check(blk, ctx),
            AnyRule::NoDoubleNegativeJa(r) => r.check(blk, ctx),
            AnyRule::JaNoWeakPhrase(r) => r.check(blk, ctx),
            AnyRule::NoMixDearuDesumasu(r) => {
                let v = r.check(blk, ctx);
                proof {
                    lemma_models_empty();
                    assert(v@ =~= Seq::<Report>::empty());
                }
                v
            },
            AnyRule::RequiredHeadings(r) => {
                let v = r.check(blk, ctx);
                proof {
                    lemma_models_empty();
                    assert(v@ =~= Seq::<Report>::empty());
                }
                v
            },
            AnyRule::Forbidden(r) => r.check(blk, ctx),
            AnyRule::Terminology(r) => r.check(blk, ctx),
        }
    }

    pub fn finish(&mut self, ctx: &Ctx) -> (r: Vec<(Anchor, Report)>)
        ensures
            final(self).inv() == old(self).inv(),
            final(self).which() == old(self).which(),
            final(self).state() == old(self).state(),
            style::anchored_models(r@) == finish_spec(old(self).state(), *ctx.options),
    {
        match self {
            AnyRule::NoMixDearuDesumasu(r) => r.finish(ctx),
            AnyRule::RequiredHeadings(r) => r.finish(ctx),
            _ => {
                let v: Vec<(Anchor, Report)> = Vec::new();
                assert(style::anchored_models(v@) =~= Seq::<(Anchor, ReportModel)>::empty());
                v
            },
        }
    }
}

/// The ids of every rule, enabled or not, in registry order.
pub fn all_ids() -> (r: Vec<&'static str>)
    ensures
        crate::config::str_views(r@) == rule_ids(),
{
    let mut v: Vec<&'static str> = Vec::new();
    let mut i: usize = 0;
    while i < 20
        invariant
            i <= 20,
            crate::config::str_views(v@) == rule_ids().take(i as int),
        decreases 20 - i,
    {
        let r = AnyRule::fresh(i);
        let ghost before = v@;
        let id = r.id();
        v.push(id);
        assert(rule_ids().take(i + 1) =~= rule_ids().take(i as int).push(rule_ids()[i as int]));
        assert(crate::config::str_views(v@) =~= crate::config::str_views(before).push(id@));
        i = i + 1;
    }
    assert(rule_ids().take(20) =~= rule_ids());
    v
}

/// Whether a rule at registry position `which` runs under `settings`:
/// `false` turns it off, any other setting on, and no setting leaves it at
/// its default.
pub open spec fn enabled(which: int, setting: Option<OptValue>) -> bool {
    match setting {
        Some(OptValue::Bool(false)) => false,
        Some(_) => true,
        None => which < 17,
    }
}

/// The registry positions of the rules `config` enables, in order.
pub open spec fn enabled_upto(config: crate::config::Config, n: int) -> Seq<int>
    decreases n,
{
    if n <= 0 {
        Seq::empty()
    } else {
        let rest = enabled_upto(config, n - 1);
        if enabled(n - 1, config.rule_spec(rule_ids()[n - 1])) {
            rest.push(n - 1)
        } else {
            rest
        }
    }
}

/// The rules `config` enables, fresh, in registry order.
pub fn build(config: &crate::config::Config) -> (r: Vec<AnyRule>)
    ensures
        r@.len() == enabled_upto(*config, 20).len(),
        forall|i: int| 0 <= i < r@.len() ==> {
            &&& (#[trigger] r@[i]).which() == enabled_upto(*config, 20)[i]
            &&& r@[i].state() == plain(r@[i].which())
            &&& r@[i].inv()
        },
{
    let mut out: Vec<AnyRule> = Vec::new();
    let mut i: usize = 0;
    while i < 20
        invariant
            i <= 20,
            out@.len() == enabled_upto(*config, i as int).len(),
            forall|k: int| 0 <= k < out@.len() ==> {
                &&& (#[trigger] out@[k]).which() == enabled_upto(*config, i as int)[k]
                &&& out@[k].state() == plain(out@[k].which())
                &&& out@[k].inv()
            },
        decreases 20 - i,
    {
        let r = AnyRule::fresh(i);
        let on = match config.rule(r.id()) {
            Some(OptValue::Bool(false)) => false,
            Some(_) => true,
            None => r.default_enabled(),
        };
        if on {
            out.push(r);
        }
        i = i + 1;
    }
    out
}

/// The document validators do nothing until the config names them: a rule
/// that runs is either on by default or set to something other than `false`.
pub proof fn lemma_enabled_named(config: crate::config::Config, n: int)
    requires
        0 <= n <= 20,
    ensures
        forall|k: int| 0 <= k < enabled_upto(config, n).len() ==> {
            let w = #[trigger] enabled_upto(config, n)[k];
            &&& 0 <= w < n
            &&& w >= 17 ==> config.rule_spec(rule_ids()[w]) is Some
            &&& config.rule_spec(rule_ids()[w]) != Some(OptValue::Bool(false))
        },
    decreases n,
{
    if n > 0 {
        lemma_enabled_named(config, n - 1);
        let rest = enabled_upto(config, n - 1);
        let all = enabled_upto(config, n);
        assert forall|k: int| 0 <= k < all.len() implies {
            let w = #[trigger] all[k];
            &&& 0 <= w < n
            &&& w >= 17 ==> config.rule_spec(rule_ids()[w]) is Some
            &&& config.rule_spec(rule_ids()[w]) != Some(OptValue::Bool(false))
        } by {
            if k < rest.len() {
                assert(all[k] == rest[k]);
            }
        }
    }
}

} // verus!
