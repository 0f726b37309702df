//! Particle and conjunction rules (token-based, sentence-scoped).

use super::{
    append_reports, concat_upto, concat_upto_source, found, lemma_concat_upto_empty, lemma_concat_upto_sub, lemma_models_empty, lemma_models_push, lemma_sentences_ok, models, sent_toks,
    str_in, BlockData, Ctx, Report, ReportModel, Scope,
};
use crate::config::{self, OptValue};
use crate::tokenizer::Token;
use crate::utf;
use vstd::prelude::*;

verus! {

/// Sentence terminators as token surfaces (the splitter's, plus ASCII ".").
pub open spec fn separator(s: Seq<char>) -> bool {
    s == "。"@ || s == "！"@ || s == "？"@ || s == "!"@ || s == "?"@ || s == "．"@ || s == "."@
}

pub open spec fn separators_spec() -> Seq<Seq<char>> {
    seq!["。"@, "！"@, "？"@, "!"@, "?"@, "．"@, "."@]
}

pub open spec fn commas_spec() -> Seq<Seq<char>> {
    seq!["、"@, "，"@]
}

fn is_separator(s: &str) -> (b: bool)
    ensures
        b == separator(s@),
{
    utf::str_eq(s, "。") || utf::str_eq(s, "！") || utf::str_eq(s, "？") || utf::str_eq(s, "!") || utf::str_eq(s, "?")
        || utf::str_eq(s, "．") || utf::str_eq(s, ".")
}

fn separators() -> (r: Vec<String>)
    ensures
        config::views(r@) == separators_spec(),
{
    let mut v: Vec<String> = Vec::new();
    v.push("。".to_string());
    v.push("！".to_string());
    v.push("？".to_string());
    v.push("!".to_string());
    v.push("?".to_string());
    v.push("．".to_string());
    v.push(".".to_string());
    assert(config::views(v@) =~= separators_spec());
    v
}

fn commas() -> (r: Vec<String>)
    ensures
        config::views(r@) == commas_spec(),
{
    let mut v: Vec<String> = Vec::new();
    v.push("、".to_string());
    v.push("，".to_string());
    assert(config::views(v@) =~= commas_spec());
    v
}

/// A string-list option, or `default` when it lists nothing.
fn opt_strs_vec(v: &OptValue, key: &str, default: Vec<String>) -> (r: Vec<String>)
    ensures
        config::views(r@) == config::opt_strs_spec(*v, key@, config::views(default@)),
{
    let given = config::opt_strs(v, key);
    if given.len() == 0 {
        default
    } else {
        given
    }
}

/// An opening or closing bracket.
pub open spec fn bracket(pos: Seq<char>, pd1: Seq<char>) -> bool {
    pos == "記号"@ && (pd1 == "括弧開"@ || pd1 == "括弧閉"@)
}

fn is_bracket(pos: &str, pd1: &str) -> (b: bool)
    ensures
        b == bracket(pos@, pd1@),
{
    utf::str_eq(pos, "記号") && (utf::str_eq(pd1, "括弧開") || utf::str_eq(pd1, "括弧閉"))
}

/// Tokens max-ten looks past when it looks for a 読点's neighbours.
pub open spec fn see_through(t: Token) -> bool {
    bracket(t.pos_spec(), t.pd1_spec()) || t.surface@ == "("@ || t.surface@ == ")"@
}

/// The nearest token before `i` that is not a bracket.
pub open spec fn sib_back(ts: Seq<Token>, i: int) -> Option<Token>
    decreases i,
{
    if i <= 0 || i > ts.len() {
        None
    } else if !see_through(ts[i - 1]) {
        Some(ts[i - 1])
    } else {
        sib_back(ts, i - 1)
    }
}

/// The nearest token after `i` that is not a bracket.
pub open spec fn sib_fwd(ts: Seq<Token>, i: int) -> Option<Token>
    decreases ts.len() - i,
{
    if i < -1 || i + 1 >= ts.len() {
        None
    } else if !see_through(ts[i + 1]) {
        Some(ts[i + 1])
    } else {
        sib_fwd(ts, i + 1)
    }
}

fn sees_through(t: &Token) -> (b: bool)
    ensures
        b == see_through(*t),
{
    is_bracket(t.pos(), t.pos_detail_1()) || utf::str_eq(t.surface.as_str(), "(") || utf::str_eq(t.surface.as_str(), ")")
}

fn sibling_back(ts: &[Token], i: usize) -> (r: Option<usize>)
    requires
        i <= ts@.len(),
    ensures
        match r {
            Some(k) => k < i && sib_back(ts@, i as int) == Some(ts@[k as int]),
            None => sib_back(ts@, i as int) is None,
        },
    decreases i,
{
    if i == 0 {
        None
    } else if !sees_through(&ts[i - 1]) {
        Some(i - 1)
    } else {
        sibling_back(ts, i - 1)
    }
}

fn sibling_fwd(ts: &[Token], i: usize) -> (r: Option<usize>)
    requires
        i < ts@.len(),
    ensures
        match r {
            Some(k) => i < k < ts@.len() && sib_fwd(ts@, i as int) == Some(ts@[k as int]),
            None => sib_fwd(ts@, i as int) is None,
        },
    decreases ts@.len() - i,
{
    if i >= ts.len() - 1 {
        None
    } else if !sees_through(&ts[i + 1]) {
        Some(i + 1)
    } else {
        sibling_fwd(ts, i + 1)
    }
}

/// A 読点 between two nouns: an enumeration, which max-ten does not count
/// unless `strict`.
pub open spec fn sandwiched(ts: Seq<Token>, i: int) -> bool {
    match (sib_back(ts, i), sib_fwd(ts, i)) {
        (Some(b), Some(a)) => b.pos_spec() == "名詞"@ && a.pos_spec() == "名詞"@,
        _ => false,
    }
}

pub open spec fn ten_message(touten: Seq<char>, max: usize) -> Seq<char> {
    "一つの文で\""@ + touten + "\"を"@ + utf::digits((max + 1) as nat, 10) + "つ以上使用しています"@
}

/// max-ten over the tokens of one sentence from token `i`, with `count`
/// 読点 counted since the last reset and `last` the most recent one.
pub open spec fn ten_scan(ts: Seq<Token>, i: int, count: int, last: Option<Token>, opts: OptValue) -> Seq<ReportModel>
    decreases ts.len() - i,
{
    if i < 0 || i >= ts.len() {
        Seq::empty()
    } else {
        let max = config::opt_usize_spec(opts, "max"@, 3);
        let strict = config::opt_bool_spec(opts, "strict"@, false);
        let touten = config::opt_str_spec(opts, "touten"@, "、"@);
        let kuten = config::opt_str_spec(opts, "kuten"@, "。"@);
        let t = ts[i];
        let is_ten = t.surface@ == touten;
        if is_ten && sandwiched(ts, i) && !strict {
            ten_scan(ts, i + 1, count, last, opts)
        } else {
            let c1 = if is_ten { count + 1 } else { count };
            let l1 = if is_ten { Some(t) } else { last };
            let c2 = if separator(t.surface@) || t.surface@ == kuten { 0 } else { c1 };
            if c2 > max {
                let rep = match l1 {
                    Some(l) => seq![found(l.byte_start as int, l.byte_end as int, ten_message(touten, max))],
                    None => Seq::empty(),
                };
                rep + ten_scan(ts, i + 1, 0, l1, opts)
            } else {
                ten_scan(ts, i + 1, c2, l1, opts)
            }
        }
    }
}

pub open spec fn last_tok(ts: Seq<Token>, li: Option<usize>) -> Option<Token> {
    match li {
        Some(k) => Some(ts[k as int]),
        None => None,
    }
}

fn ten_sentence(ts: &[Token], opts: &OptValue) -> (r: Vec<Report>)
    ensures
        models(r@) == ten_scan(ts@, 0, 0, None, *opts),
{
    let max = config::opt_usize(opts, "max", 3);
    let strict = config::opt_bool(opts, "strict", false);
    let touten = config::opt_str(opts, "touten", "、");
    let kuten = config::opt_str(opts, "kuten", "。");
    let mut out: Vec<Report> = Vec::new();
    let mut count: usize = 0;
    let mut last: Option<usize> = None;
    let mut i: usize = 0;
    proof {
        lemma_models_empty();
    }
    while i < ts.len()
        invariant
            i <= ts@.len(),
            count <= i,
            last matches Some(k) ==> k < i,
            max == config::opt_usize_spec(*opts, "max"@, 3),
            strict == config::opt_bool_spec(*opts, "strict"@, false),
            touten@ == config::opt_str_spec(*opts, "touten"@, "、"@),
            kuten@ == config::opt_str_spec(*opts, "kuten"@, "。"@),
            models(out@) + ten_scan(ts@, i as int, count as int, last_tok(ts@, last), *opts) == ten_scan(
                ts@,
                0,
                0,
                None,
                *opts,
            ),
        decreases ts@.len() - i,
    {
        let t = &ts[i];
        let is_ten = utf::str_eq(t.surface.as_str(), touten.as_str());
        let mut skip = false;
        if is_ten && !strict {
            let b = sibling_back(ts, i);
            let a = sibling_fwd(ts, i);
            match (b, a) {
                (Some(bi), Some(ai)) => {
                    if utf::str_eq(ts[bi].pos(), "名詞") && utf::str_eq(ts[ai].pos(), "名詞") {
                        skip = true;
                    }
                },
                _ => {},
            }
        }
        if skip {
            i = i + 1;
        } else {
            let ghost old_out = models(out@);
            if is_ten {
                count = count + 1;
                last = Some(i);
            }
            if is_separator(t.surface.as_str()) || utf::str_eq(t.surface.as_str(), kuten.as_str()) {
                count = 0;
            }
            if count > max {
                match last {
                    Some(k) => {
                        let msg = utf::concat3("一つの文で\"", touten.as_str(), "\"を");
                        let msg = utf::concat3(msg.as_str(), utf::decimal((max + 1) as u64).as_str(), "つ以上使用しています");
                        let r = Report::token(&ts[k], msg);
                        proof {
                            lemma_models_push(out@, r);
                        }
                        out.push(r);
                    },
                    None => {},
                }
                count = 0;
            }
            i = i + 1;
        }
    }
    out
}

/// max-ten: at most `max` 読点 per sentence. A 読点 sandwiched between two
/// nouns (enumeration) is not counted unless `strict`.
pub struct MaxTen;

impl MaxTen {
    /// The name the rule reports under and is configured by.
    pub fn id(&self) -> (r: &'static str)
        ensures
            r@ == super::rule_ids()[9],
    {
        "max-ten"
    }

    /// The kinds of block the rule looks at.
    pub fn scope(&self) -> (r: Scope)
        ensures
            r == super::scope_of(9),
    {
        Scope::prose()
    }

    pub fn check(&mut self, blk: &BlockData, ctx: &Ctx) -> (r: Vec<Report>)
        requires
            blk.wf(),
        ensures
            models(r@) == concat_upto(|i: int| ten_scan(sent_toks(*blk, i), 0, 0, None, *ctx.options), blk.sentences@.len() as int),
    {
        let _ = utf::str_len(blk.text());
        let _ = blk.tokens.len();
        proof {
            lemma_sentences_ok(*blk);
        }
        let mut out: Vec<Report> = Vec::new();
        proof {
            lemma_models_empty();
        }
        let mut i: usize = 0;
        while i < blk.sentences.len()
            invariant
                i <= blk.sentences@.len(),
                forall|k: int| 0 <= k < blk.sentences@.len() ==> crate::sentence::sentence_ok(
                    #[trigger] blk.sentences@[k],
                    utf::byte_len(blk.block.text@) as int,
                    blk.tokens@.len() as int,
                ),
                models(out@) == concat_upto(|j: int| ten_scan(sent_toks(*blk, j), 0, 0, None, *ctx.options), i as int),
            decreases blk.sentences@.len() - i,
        {
            let s = &blk.sentences[i];
            let ts = blk.sentence_tokens(s);
            let more = ten_sentence(ts, ctx.options);
            append_reports(&mut out, more);
            i = i + 1;
        }
        out
    }
}

/// A particle after merging adjacent particles (連語) into one, as textlint
/// does; any other token stands as it is.
pub struct Joshi {
    pub surface: String,
    pub pos: String,
    pub pd1: String,
    pub pd2: String,
    pub pd3: String,
    pub byte_start: usize,
    pub byte_end: usize,
    /// Index of the merged token before this one.
    pub prev: Option<usize>,
}

pub ghost struct JoshiModel {
    pub surface: Seq<char>,
    pub pos: Seq<char>,
    pub pd1: Seq<char>,
    pub pd2: Seq<char>,
    pub pd3: Seq<char>,
    pub byte_start: int,
    pub byte_end: int,
    pub prev: Option<int>,
}

impl Joshi {
    pub open spec fn model(&self) -> JoshiModel {
        JoshiModel {
            surface: self.surface@,
            pos: self.pos@,
            pd1: self.pd1@,
            pd2: self.pd2@,
            pd3: self.pd3@,
            byte_start: self.byte_start as int,
            byte_end: self.byte_end as int,
            prev: match self.prev {
                Some(p) => Some(p as int),
                None => None,
            },
        }
    }
}

pub open spec fn joshi_models(v: Seq<Joshi>) -> Seq<JoshiModel> {
    Seq::new(v.len(), |i: int| v[i].model())
}

/// Merging from token `i` on, with `acc` merged so far. White-space tokens
/// are dropped; a particle right after a particle joins it.
pub open spec fn merge_from(ts: Seq<Token>, i: int, acc: Seq<JoshiModel>) -> Seq<JoshiModel>
    decreases ts.len() - i,
{
    if i < 0 || i >= ts.len() {
        acc
    } else {
        let t = ts[i];
        if utf::all_white(t.surface@) {
            merge_from(ts, i + 1, acc)
        } else if acc.len() > 0 && crate::tokenizer::is_joshi_spec(t.pos_spec()) && crate::tokenizer::is_joshi_spec(
            acc.last().pos,
        ) {
            let p = acc.last();
            let merged = JoshiModel {
                surface: p.surface + t.surface@,
                pos: p.pos + t.pos_spec(),
                pd1: p.pd1 + t.surface@,
                byte_end: t.byte_end as int,
                ..p
            };
            merge_from(ts, i + 1, acc.update(acc.len() - 1, merged))
        } else {
            let j = JoshiModel {
                surface: t.surface@,
                pos: t.pos_spec(),
                pd1: t.pd1_spec(),
                pd2: t.col(2),
                pd3: t.col(3),
                byte_start: t.byte_start as int,
                byte_end: t.byte_end as int,
                prev: if acc.len() == 0 { None } else { Some(acc.len() - 1) },
            };
            merge_from(ts, i + 1, acc.push(j))
        }
    }
}

pub open spec fn merge_spec(ts: Seq<Token>) -> Seq<JoshiModel> {
    merge_from(ts, 0, Seq::empty())
}

fn merge_joshi(ts: &[Token]) -> (r: Vec<Joshi>)
    ensures
        joshi_models(r@) == merge_spec(ts@),
        forall|k: int| 0 <= k < r@.len() ==> ((#[trigger] r@[k]).prev matches Some(p) ==> p < k),
{
    let mut out: Vec<Joshi> = Vec::new();
    let mut i: usize = 0;
    assert(joshi_models(out@) =~= Seq::<JoshiModel>::empty());
    while i < ts.len()
        invariant
            i <= ts@.len(),
            merge_from(ts@, i as int, joshi_models(out@)) == merge_spec(ts@),
            forall|k: int| 0 <= k < out@.len() ==> ((#[trigger] out@[k]).prev matches Some(p) ==> p < k),
        decreases ts@.len() - i,
    {
        let t = &ts[i];
        let ghost before = joshi_models(out@);
        if t.is_whitespace() {
        } else if out.len() > 0 && t.is_joshi() && crate::tokenizer::is_joshi_pos(out[out.len() - 1].pos.as_str()) {
            let n = out.len();
            let last = out.pop().unwrap();
            let merged = Joshi {
                surface: utf::concat_str(last.surface.as_str(), t.surface.as_str()),
                pos: utf::concat_str(last.pos.as_str(), t.pos()),
                pd1: utf::concat_str(last.pd1.as_str(), t.surface.as_str()),
                pd2: last.pd2,
                pd3: last.pd3,
                byte_start: last.byte_start,
                byte_end: t.byte_end,
                prev: last.prev,
            };
            out.push(merged);
            proof {
                assert(joshi_models(out@) =~= before.update(n - 1, merged.model()));
            }
        } else {
            let prev = if out.len() == 0 {
                None
            } else {
                Some(out.len() - 1)
            };
            let j = Joshi {
                surface: t.surface.clone(),
                pos: t.pos().to_string(),
                pd1: t.pos_detail_1().to_string(),
                pd2: t.pos_detail_2().to_string(),
                pd3: t.pos_detail_3().to_string(),
                byte_start: t.byte_start,
                byte_end: t.byte_end,
                prev,
            };
            out.push(j);
            proof {
                assert(joshi_models(out@) =~= before.push(j.model()));
            }
        }
        i = i + 1;
    }
    out
}

/// Whether a merged token takes part in the interval count: particles, and
/// unless `strict` brackets, separators and commas too.
pub open spec fn countable(j: JoshiModel, strict: bool, seps: Seq<Seq<char>>, commas: Seq<Seq<char>>) -> bool {
    let comma = commas.contains(j.surface) && (j.pos == "名詞"@ || j.pos == "記号"@);
    crate::tokenizer::is_joshi_spec(j.pos) || (!strict && (bracket(j.pos, j.pd1) || seps.contains(j.surface) || comma))
}

/// The indices of the countable merged tokens, in order.
pub open spec fn countable_idx(all: Seq<JoshiModel>, strict: bool, seps: Seq<Seq<char>>, commas: Seq<Seq<char>>) -> Seq<
    int,
>
    decreases all.len(),
{
    if all.len() == 0 {
        Seq::empty()
    } else {
        let rest = countable_idx(all.drop_last(), strict, seps, commas);
        if countable(all.last(), strict, seps, commas) {
            rest.push(all.len() - 1)
        } else {
            rest
        }
    }
}

/// Particles are told apart by surface and all four part-of-speech columns.
pub open spec fn same_key(a: JoshiModel, b: JoshiModel) -> bool {
    a.surface == b.surface && a.pos == b.pos && a.pd1 == b.pd1 && a.pd2 == b.pd2 && a.pd3 == b.pd3
}

/// The positions in `cnt` (indices into the countable list) of the
/// particles with the key of `key`, in order, among the first `n`.
pub open spec fn positions(all: Seq<JoshiModel>, cnt: Seq<int>, key: JoshiModel, n: int) -> Seq<int>
    decreases n,
{
    if n <= 0 || n > cnt.len() {
        Seq::empty()
    } else {
        let rest = positions(all, cnt, key, n - 1);
        let j = all[cnt[n - 1]];
        if crate::tokenizer::is_joshi_spec(j.pos) && same_key(j, key) {
            rest.push(n - 1)
        } else {
            rest
        }
    }
}

/// Whether countable position `k` is the first particle with its key.
pub open spec fn first_of_key(all: Seq<JoshiModel>, cnt: Seq<int>, k: int) -> bool {
    let j = all[cnt[k]];
    crate::tokenizer::is_joshi_spec(j.pos) && positions(all, cnt, j, k).len() == 0
}

pub open spec fn prev_surface(all: Seq<JoshiModel>, j: JoshiModel) -> Option<Seq<char>> {
    match j.prev {
        Some(i) => Some(all[i].surface),
        None => None,
    }
}

pub open spec fn joshi_word(all: Seq<JoshiModel>, j: JoshiModel) -> Seq<char> {
    match prev_surface(all, j) {
        Some(p) => p + "\""@ + j.surface + "\""@,
        None => "\""@ + j.surface + "\""@,
    }
}

pub open spec fn doubled_message(name: Seq<char>, a: Seq<char>, b: Seq<char>) -> Seq<char> {
    "一文に二回以上利用されている助詞 \""@ + name + "\" がみつかりました。\n\n次の助詞が連続しているため、文を読みにくくしています。\n\n- "@
        + a + "\n- "@ + b
        + "\n\n同じ助詞を連続して利用しない、文の中で順番を入れ替える、文を分割するなどを検討してください。"@
}

/// The idiomatic repeats textlint lets through unless `strict`.
pub open spec fn doubled_exception(all: Seq<JoshiModel>, first: JoshiModel, second: JoshiModel, pair: bool) -> bool {
    first.pd1 == "連体化"@ || (first.pd1 == "格助詞"@ && first.surface == "を"@) || (first.pd1 == "接続助詞"@
        && first.surface == "て"@) || (pair && first.pd1 == "並立助詞"@ && second.pd1 == "並立助詞"@) || (pair
        && first.surface == "か"@ && second.surface == "か"@ && prev_surface(all, second) == Some("どう"@))
}

/// The report for the pair of positions `w`, `w + 1` of a key's positions.
pub open spec fn window_at(all: Seq<JoshiModel>, cnt: Seq<int>, ps: Seq<int>, min_interval: int, w: int) -> Seq<ReportModel> {
    let a = all[cnt[ps[w]]];
    let b = all[cnt[ps[w + 1]]];
    if ps[w + 1] - ps[w] <= min_interval {
        seq![found(b.byte_start, b.byte_end, doubled_message(a.surface, joshi_word(all, a), joshi_word(all, b)))]
    } else {
        Seq::empty()
    }
}

/// The reports for the particle key first used at countable position `k`.
pub open spec fn key_reports(all: Seq<JoshiModel>, cnt: Seq<int>, k: int, opts: OptValue) -> Seq<ReportModel> {
    let strict = config::opt_bool_spec(opts, "strict"@, false);
    let allow = config::opt_strs_spec(opts, "allow"@, Seq::empty());
    let mi = config::opt_usize_spec(opts, "min_interval"@, 1);
    let min_interval = if mi < 1 { 1 } else { mi as int };
    let key = all[cnt[k]];
    let ps = positions(all, cnt, key, cnt.len() as int);
    if !first_of_key(all, cnt, k) || ps.len() <= 1 || allow.contains(key.surface) {
        Seq::empty()
    } else if !strict && doubled_exception(all, all[cnt[ps[0]]], all[cnt[ps[1]]], ps.len() == 2) {
        Seq::empty()
    } else {
        concat_upto(|w: int| window_at(all, cnt, ps, min_interval, w), ps.len() - 1)
    }
}

/// no-doubled-joshi on the tokens of one sentence.
pub open spec fn doubled_reports(ts: Seq<Token>, opts: OptValue) -> Seq<ReportModel> {
    let all = merge_spec(ts);
    let strict = config::opt_bool_spec(opts, "strict"@, false);
    let seps = config::opt_strs_spec(opts, "separatorCharacters"@, separators_spec());
    let commas = config::opt_strs_spec(opts, "commaCharacters"@, commas_spec());
    let cnt = countable_idx(all, strict, seps, commas);
    concat_upto(|k: int| key_reports(all, cnt, k, opts), cnt.len() as int)
}

pub open spec fn ints(v: Seq<usize>) -> Seq<int> {
    Seq::new(v.len(), |i: int| v[i] as int)
}

fn is_countable(j: &Joshi, strict: bool, seps: &Vec<String>, commas: &Vec<String>) -> (b: bool)
    ensures
        b == countable(j.model(), strict, config::views(seps@), config::views(commas@)),
{
    let comma = str_in(j.surface.as_str(), commas) && (utf::str_eq(j.pos.as_str(), "名詞") || utf::str_eq(
        j.pos.as_str(),
        "記号",
    ));
    crate::tokenizer::is_joshi_pos(j.pos.as_str()) || (!strict && (is_bracket(j.pos.as_str(), j.pd1.as_str()) || str_in(
        j.surface.as_str(),
        seps,
    ) || comma))
}

fn countable_indices(all: &Vec<Joshi>, strict: bool, seps: &Vec<String>, commas: &Vec<String>) -> (r: Vec<usize>)
    ensures
        ints(r@) == countable_idx(joshi_models(all@), strict, config::views(seps@), config::views(commas@)),
        forall|k: int| 0 <= k < r@.len() ==> #[trigger] r@[k] < all@.len(),
{
    let ghost ms = joshi_models(all@);
    let mut out: Vec<usize> = Vec::new();
    let mut i: usize = 0;
    assert(ms.take(0) =~= Seq::<JoshiModel>::empty());
    assert(ints(out@) =~= Seq::<int>::empty());
    while i < all.len()
        invariant
            i <= all@.len(),
            ms == joshi_models(all@),
            ints(out@) == countable_idx(ms.take(i as int), strict, config::views(seps@), config::views(commas@)),
            forall|k: int| 0 <= k < out@.len() ==> #[trigger] out@[k] < all@.len(),
        decreases all@.len() - i,
    {
        assert(ms.take(i + 1).drop_last() =~= ms.take(i as int));
        assert(ms.take(i + 1).last() == all@[i as int].model());
        let ghost before = out@;
        if is_countable(&all[i], strict, seps, commas) {
            out.push(i);
            assert(ints(out@) =~= ints(before).push(i as int));
        }
        i = i + 1;
    }
    assert(ms.take(i as int) =~= ms);
    out
}

fn same_key_exec(a: &Joshi, b: &Joshi) -> (r: bool)
    ensures
        r == same_key(a.model(), b.model()),
{
    utf::str_eq(a.surface.as_str(), b.surface.as_str()) && utf::str_eq(a.pos.as_str(), b.pos.as_str()) && utf::str_eq(
        a.pd1.as_str(),
        b.pd1.as_str(),
    ) && utf::str_eq(a.pd2.as_str(), b.pd2.as_str()) && utf::str_eq(a.pd3.as_str(), b.pd3.as_str())
}

fn positions_vec(all: &Vec<Joshi>, cnt: &Vec<usize>, key: usize, n: usize) -> (r: Vec<usize>)
    requires
        key < all@.len(),
        n <= cnt@.len(),
        forall|k: int| 0 <= k < cnt@.len() ==> #[trigger] cnt@[k] < all@.len(),
    ensures
        ints(r@) == positions(joshi_models(all@), ints(cnt@), all@[key as int].model(), n as int),
        forall|k: int| 0 <= k < r@.len() ==> #[trigger] r@[k] < n,
        forall|a: int, b: int| 0 <= a < b < r@.len() ==> r@[a] < r@[b],
{
    let ghost ms = joshi_models(all@);
    let mut out: Vec<usize> = Vec::new();
    let mut i: usize = 0;
    assert(ints(out@) =~= Seq::<int>::empty());
    while i < n
        invariant
            i <= n <= cnt@.len(),
            key < all@.len(),
            ms == joshi_models(all@),
            forall|k: int| 0 <= k < cnt@.len() ==> #[trigger] cnt@[k] < all@.len(),
            ints(out@) == positions(ms, ints(cnt@), all@[key as int].model(), i as int),
            forall|k: int| 0 <= k < out@.len() ==> #[trigger] out@[k] < i,
            forall|a: int, b: int| 0 <= a < b < out@.len() ==> out@[a] < out@[b],
        decreases n - i,
    {
        let j = &all[cnt[i]];
        let ghost before = out@;
        assert(ms[cnt@[i as int] as int] == j.model());
        if crate::tokenizer::is_joshi_pos(j.pos.as_str()) && same_key_exec(j, &all[key]) {
            out.push(i);
            assert(ints(out@) =~= ints(before).push(i as int));
        }
        i = i + 1;
    }
    out
}

fn word_of(all: &Vec<Joshi>, j: &Joshi) -> (r: String)
    requires
        j.prev matches Some(p) ==> p < all@.len(),
    ensures
        r@ == joshi_word(joshi_models(all@), j.model()),
{
    match j.prev {
        Some(p) => {
            let a = utf::concat3(all[p].surface.as_str(), "\"", j.surface.as_str());
            utf::concat_str(a.as_str(), "\"")
        },
        None => utf::concat3("\"", j.surface.as_str(), "\""),
    }
}

#[verifier::spinoff_prover]
#[verifier::rlimit(40)]
fn doubled_sentence(ts: &[Token], opts: &OptValue) -> (r: Vec<Report>)
    ensures
        models(r@) == doubled_reports(ts@, *opts),
{
    let mi = config::opt_usize(opts, "min_interval", 1);
    let min_interval = if mi < 1 {
        1
    } else {
        mi
    };
    let strict = config::opt_bool(opts, "strict", false);
    let allow = config::opt_strs(opts, "allow");
    let seps = opt_strs_vec(opts, "separatorCharacters", separators());
    let commas = opt_strs_vec(opts, "commaCharacters", commas());
    let all = merge_joshi(ts);
    let ghost ms = joshi_models(all@);
    let cnt = countable_indices(&all, strict, &seps, &commas);
    let ghost ci = ints(cnt@);
    let mut out: Vec<Report> = Vec::new();
    proof {
        lemma_models_empty();
    }
    let mut k: usize = 0;
    while k < cnt.len()
        invariant
            k <= cnt@.len(),
            ms == joshi_models(all@),
            ci == ints(cnt@),
            ci == countable_idx(ms, strict, config::views(seps@), config::views(commas@)),
            forall|x: int| 0 <= x < cnt@.len() ==> #[trigger] cnt@[x] < all@.len(),
            forall|x: int| 0 <= x < all@.len() ==> ((#[trigger] all@[x]).prev matches Some(p) ==> p < x),
            strict == config::opt_bool_spec(*opts, "strict"@, false),
            config::views(allow@) == config::opt_strs_spec(*opts, "allow"@, Seq::empty()),
            mi == config::opt_usize_spec(*opts, "min_interval"@, 1),
            min_interval == if mi < 1 { 1 } else { mi },
            config::views(seps@) == config::opt_strs_spec(*opts, "separatorCharacters"@, separators_spec()),
            config::views(commas@) == config::opt_strs_spec(*opts, "commaCharacters"@, commas_spec()),
            ms == merge_spec(ts@),
            models(out@) == concat_upto(|x: int| key_reports(ms, ci, x, *opts), k as int),
        decreases cnt@.len() - k,
    {
        let key = cnt[k];
        let j = &all[key];
        assert(ms[ci[k as int]] == j.model());
        let ghost before = models(out@);
        let earlier = positions_vec(&all, &cnt, key, k);
        let first = crate::tokenizer::is_joshi_pos(j.pos.as_str()) && earlier.len() == 0;
        if first {
            let ps = positions_vec(&all, &cnt, key, cnt.len());
            let ghost pi = ints(ps@);
            if ps.len() > 1 && !str_in(j.surface.as_str(), &allow) {
                let a0 = &all[cnt[ps[0]]];
                let a1 = &all[cnt[ps[1]]];
                let pair = ps.len() == 2;
                let prev_dou = match a1.prev {
                    Some(p) => utf::str_eq(all[p].surface.as_str(), "どう"),
                    None => false,
                };
                let exception = utf::str_eq(a0.pd1.as_str(), "連体化") || (utf::str_eq(a0.pd1.as_str(), "格助詞")
                    && utf::str_eq(a0.surface.as_str(), "を")) || (utf::str_eq(a0.pd1.as_str(), "接続助詞")
                    && utf::str_eq(a0.surface.as_str(), "て")) || (pair && utf::str_eq(a0.pd1.as_str(), "並立助詞")
                    && utf::str_eq(a1.pd1.as_str(), "並立助詞")) || (pair && utf::str_eq(a0.surface.as_str(), "か")
                    && utf::str_eq(a1.surface.as_str(), "か") && prev_dou);
                proof {
                    assert(ms[ci[pi[0]]] == a0.model());
                    assert(ms[ci[pi[1]]] == a1.model());
                    if a1.prev is Some {
                        assert(prev_surface(ms, a1.model()) == Some(all@[a1.prev->0 as int].surface@));
                    }
                }
                if !(!strict && exception) {
                    let mut w: usize = 0;
                    let ghost base = models(out@);
                    while w < ps.len() - 1
                        invariant
                            w < ps@.len(),
                            ps@.len() > 1,
                            pi == ints(ps@),
                            ms == joshi_models(all@),
                            ci == ints(cnt@),
                            forall|x: int| 0 <= x < cnt@.len() ==> #[trigger] cnt@[x] < all@.len(),
                            forall|x: int| 0 <= x < ps@.len() ==> #[trigger] ps@[x] < cnt@.len(),
                            forall|a: int, b: int| 0 <= a < b < ps@.len() ==> ps@[a] < ps@[b],
                            forall|x: int| 0 <= x < all@.len() ==> ((#[trigger] all@[x]).prev matches Some(p) ==> p < x),
                            models(out@) == base + concat_upto(
                                |x: int| window_at(ms, ci, pi, min_interval as int, x),
                                w as int,
                            ),
                        decreases ps@.len() - w,
                    {
                        let a = &all[cnt[ps[w]]];
                        let b = &all[cnt[ps[w + 1]]];
                        assert(ms[ci[pi[w as int]]] == a.model());
                        assert(ms[ci[pi[w + 1]]] == b.model());
                        if ps[w + 1] - ps[w] <= min_interval {
                            let wa = word_of(&all, a);
                            let wb = word_of(&all, b);
                            let m = utf::concat3("一文に二回以上利用されている助詞 \"", a.surface.as_str(), "\" がみつかりました。\n\n次の助詞が連続しているため、文を読みにくくしています。\n\n- ");
                            let m = utf::concat3(m.as_str(), wa.as_str(), "\n- ");
                            let m = utf::concat3(m.as_str(), wb.as_str(), "\n\n同じ助詞を連続して利用しない、文の中で順番を入れ替える、文を分割するなどを検討してください。");
                            let r = Report::at(b.byte_start, b.byte_end, m);
                            proof {
                                lemma_models_push(out@, r);
                            }
                            out.push(r);
                        } else {
                            assert(models(out@) + Seq::<ReportModel>::empty() =~= models(out@));
                        }
                        w = w + 1;
                    }
                    proof {
                        assert(ms[ci[k as int]].surface == j.surface@);
                        assert(positions(ms, ci, j.model(), k as int).len() == 0);
                    }
                } else {
                    assert(before + Seq::<ReportModel>::empty() =~= before);
                }
            } else {
                assert(before + Seq::<ReportModel>::empty() =~= before);
            }
        } else {
            assert(before + Seq::<ReportModel>::empty() =~= before);
        }
        k = k + 1;
    }
    out
}

/// no-doubled-joshi: the same particle used twice within `min_interval`
/// countable tokens of one sentence.
pub struct NoDoubledJoshi;

impl NoDoubledJoshi {
    /// The name the rule reports under and is configured by.
    pub fn id(&self) -> (r: &'static str)
        ensures
            r@ == super::rule_ids()[10],
    {
        "no-doubled-joshi"
    }

    /// The kinds of block the rule looks at.
    pub fn scope(&self) -> (r: Scope)
        ensures
            r == super::scope_of(10),
    {
        Scope::prose()
    }

    pub fn check(&mut self, blk: &BlockData, ctx: &Ctx) -> (r: Vec<Report>)
        requires
            blk.wf(),
        ensures
            models(r@) == doubled_block(*blk, *ctx.options),
    {
        let _ = utf::str_len(blk.text());
        let _ = blk.tokens.len();
        proof {
            lemma_sentences_ok(*blk);
        }
        let mut out: Vec<Report> = Vec::new();
        proof {
            lemma_models_empty();
        }
        let mut i: usize = 0;
        while i < blk.sentences.len()
            invariant
                i <= blk.sentences@.len(),
                forall|k: int| 0 <= k < blk.sentences@.len() ==> crate::sentence::sentence_ok(
                    #[trigger] blk.sentences@[k],
                    utf::byte_len(blk.block.text@) as int,
                    blk.tokens@.len() as int,
                ),
                models(out@) == concat_upto(|j: int| doubled_reports(sent_toks(*blk, j), *ctx.options), i as int),
            decreases blk.sentences@.len() - i,
        {
            let s = &blk.sentences[i];
            let ts = blk.sentence_tokens(s);
            let more = doubled_sentence(ts, ctx.options);
            append_reports(&mut out, more);
            i = i + 1;
        }
        out
    }
}

pub open spec fn ga_message() -> Seq<char> {
    "文中に逆接の接続助詞 \"が\" が二回以上使われています。"@
}

/// The conjunctive particle が.
pub open spec fn is_ga(t: Token) -> bool {
    t.pd1_spec() == "接続助詞"@ && t.surface@ == "が"@
}

/// The report for a run between separators that held `n` が, the first `first`.
pub open spec fn ga_flush(first: Option<Token>, n: nat) -> Seq<ReportModel> {
    match first {
        Some(t) if n > 1 => seq![found(t.byte_start as int, t.byte_end as int, ga_message())],
        _ => Seq::empty(),
    }
}

/// no-doubled-conjunctive-particle-ga over a sentence's tokens from `i` on;
/// `first` and `n` describe the が seen since the last separator.
pub open spec fn ga_scan(ts: Seq<Token>, i: int, first: Option<Token>, n: nat, seps: Seq<Seq<char>>) -> Seq<ReportModel>
    decreases ts.len() - i,
{
    if i < 0 || i >= ts.len() {
        ga_flush(first, n)
    } else {
        let t = ts[i];
        if seps.contains(t.surface@) {
            ga_flush(first, n) + ga_scan(ts, i + 1, None, 0, seps)
        } else if is_ga(t) {
            ga_scan(ts, i + 1, if n == 0 { Some(t) } else { first }, n + 1, seps)
        } else {
            ga_scan(ts, i + 1, first, n, seps)
        }
    }
}

pub open spec fn ga_reports(ts: Seq<Token>, opts: OptValue) -> Seq<ReportModel> {
    ga_scan(ts, 0, None, 0, config::opt_strs_spec(opts, "separatorChars"@, separators_spec()))
}

fn ga_sentence(ts: &[Token], seps: &Vec<String>) -> (r: Vec<Report>)
    ensures
        models(r@) == ga_scan(ts@, 0, None, 0, config::views(seps@)),
{
    let ghost sv = config::views(seps@);
    let mut out: Vec<Report> = Vec::new();
    let mut first: Option<usize> = None;
    let mut n: usize = 0;
    let mut i: usize = 0;
    proof {
        lemma_models_empty();
    }
    while i < ts.len()
        invariant
            i <= ts@.len(),
            n <= i,
            first matches Some(k) ==> k < i,
            n > 0 ==> first is Some,
            sv == config::views(seps@),
            models(out@) + ga_scan(ts@, i as int, last_tok(ts@, first), n as nat, sv) == ga_scan(ts@, 0, None, 0, sv),
        decreases ts@.len() - i,
    {
        let t = &ts[i];
        if str_in(t.surface.as_str(), seps) {
            if n > 1 {
                match first {
                    Some(k) => {
                        let r = Report::token(&ts[k], "文中に逆接の接続助詞 \"が\" が二回以上使われています。".to_string());
                        proof {
                            lemma_models_push(out@, r);
                        }
                        out.push(r);
                    },
                    None => {},
                }
            } else {
                assert(models(out@) + Seq::<ReportModel>::empty() =~= models(out@));
            }
            first = None;
            n = 0;
        } else if utf::str_eq(t.pos_detail_1(), "接続助詞") && utf::str_eq(t.surface.as_str(), "が") {
            if n == 0 {
                first = Some(i);
            }
            n = n + 1;
        }
        i = i + 1;
    }
    if n > 1 {
        match first {
            Some(k) => {
                let r = Report::token(&ts[k], "文中に逆接の接続助詞 \"が\" が二回以上使われています。".to_string());
                proof {
                    lemma_models_push(out@, r);
                }
                out.push(r);
            },
            None => {},
        }
    } else {
        assert(models(out@) + Seq::<ReportModel>::empty() =~= models(out@));
    }
    out
}

/// no-doubled-conjunctive-particle-ga: 逆接の「が」 twice in one sentence.
pub struct NoDoubledConjunctiveParticleGa;

impl NoDoubledConjunctiveParticleGa {
    /// The name the rule reports under and is configured by.
    pub fn id(&self) -> (r: &'static str)
        ensures
            r@ == super::rule_ids()[11],
    {
        "no-doubled-conjunctive-particle-ga"
    }

    /// The kinds of block the rule looks at.
    pub fn scope(&self) -> (r: Scope)
        ensures
            r == super::scope_of(11),
    {
        Scope::prose()
    }

    pub fn check(&mut self, blk: &BlockData, ctx: &Ctx) -> (r: Vec<Report>)
        requires
            blk.wf(),
        ensures
            models(r@) == concat_upto(|i: int| ga_reports(sent_toks(*blk, i), *ctx.options), blk.sentences@.len() as int),
    {
        let seps = opt_strs_vec(ctx.options, "separatorChars", separators());
        let _ = utf::str_len(blk.text());
        let _ = blk.tokens.len();
        proof {
            lemma_sentences_ok(*blk);
        }
        let mut out: Vec<Report> = Vec::new();
        proof {
            lemma_models_empty();
        }
        let mut i: usize = 0;
        while i < blk.sentences.len()
            invariant
                i <= blk.sentences@.len(),
                config::views(seps@) == config::opt_strs_spec(*ctx.options, "separatorChars"@, separators_spec()),
                forall|k: int| 0 <= k < blk.sentences@.len() ==> crate::sentence::sentence_ok(
                    #[trigger] blk.sentences@[k],
                    utf::byte_len(blk.block.text@) as int,
                    blk.tokens@.len() as int,
                ),
                models(out@) == concat_upto(|j: int| ga_reports(sent_toks(*blk, j), *ctx.options), i as int),
            decreases blk.sentences@.len() - i,
        {
            let s = &blk.sentences[i];
            let ts = blk.sentence_tokens(s);
            let more = ga_sentence(ts, &seps);
            append_reports(&mut out, more);
            i = i + 1;
        }
        out
    }
}

/// A conjunction right after white space within its sentence, which textlint
/// skips.
pub open spec fn after_space(text: Seq<char>, start: int, t: Token) -> bool {
    let before = utf::chars_in_bytes(text, start, t.byte_start as int);
    t.byte_start > start && before.len() > 0 && utf::is_white(before.last())
}

/// The first conjunction of a sentence's tokens from `k` on.
pub open spec fn first_conj(ts: Seq<Token>, k: int, text: Seq<char>, start: int) -> Option<Token>
    decreases ts.len() - k,
{
    if k < 0 || k >= ts.len() {
        None
    } else if ts[k].pos_spec() == "接続詞"@ && !after_space(text, start, ts[k]) {
        Some(ts[k])
    } else {
        first_conj(ts, k + 1, text, start)
    }
}

pub open spec fn sentence_conj(blk: BlockData, i: int) -> Option<Token> {
    first_conj(sent_toks(blk, i), 0, blk.block.text@, blk.sentences@[i].byte_range.start as int)
}

/// no-doubled-conjunction from sentence `i` (which has a predecessor) on: a
/// sentence is reported when it opens with the same conjunction as the
/// sentence right before it. A sentence without a conjunction breaks the run.
pub open spec fn conj_from(blk: BlockData, i: int) -> Seq<ReportModel>
    decreases blk.sentences@.len() - i,
{
    if i < 1 || i >= blk.sentences@.len() {
        Seq::empty()
    } else {
        let rep = match (sentence_conj(blk, i - 1), sentence_conj(blk, i)) {
            (Some(t), Some(c)) if c.surface@ == t.surface@ => seq![
                found(
                    c.byte_start as int,
                    c.byte_end as int,
                    "同じ接続詞（"@ + c.surface@ + "）が連続して使われています。"@,
                ),
            ],
            _ => Seq::empty(),
        };
        rep + conj_from(blk, i + 1)
    }
}

/// no-doubled-conjunction: the same sentence-initial conjunction in two
/// consecutive sentences of a paragraph.
pub struct NoDoubledConjunction;

impl NoDoubledConjunction {
    /// The name the rule reports under and is configured by.
    pub fn id(&self) -> (r: &'static str)
        ensures
            r@ == super::rule_ids()[12],
    {
        "no-doubled-conjunction"
    }

    /// The kinds of block the rule looks at.
    pub fn scope(&self) -> (r: Scope)
        ensures
            r == super::scope_of(12),
    {
        Scope::prose()
    }

    /// The first conjunction of sentence `i` as a token index.
    fn sentence_first(blk: &BlockData, i: usize, cs: &Vec<char>, offs: &Vec<usize>) -> (r: Option<usize>)
        requires
            i < blk.sentences@.len(),
            crate::sentence::sentence_ok(blk.sentences@[i as int], utf::byte_len(blk.block.text@) as int, blk.tokens@.len() as int),
            cs@ == blk.block.text@,
            offs@.len() == cs@.len() + 1,
            forall|k: int| 0 <= k <= cs@.len() ==> #[trigger] offs@[k] == utf::boff(cs@, k),
        ensures
            match r {
                Some(k) => k < blk.tokens@.len() && sentence_conj(*blk, i as int) == Some(blk.tokens@[k as int]),
                None => sentence_conj(*blk, i as int) is None,
            },
    {
        let s = &blk.sentences[i];
        let start = s.byte_range.start;
        let ghost ts = sent_toks(*blk, i as int);
        let mut k = s.tokens.start;
        while k < s.tokens.end
            invariant
                i < blk.sentences@.len(),
                s == blk.sentences@[i as int],
                start == s.byte_range.start,
                s.tokens.start <= k <= s.tokens.end <= blk.tokens@.len(),
                ts == blk.tokens@.subrange(s.tokens.start as int, s.tokens.end as int),
                cs@ == blk.block.text@,
                offs@.len() == cs@.len() + 1,
                forall|x: int| 0 <= x <= cs@.len() ==> #[trigger] offs@[x] == utf::boff(cs@, x),
                first_conj(ts, 0, blk.block.text@, start as int) == first_conj(
                    ts,
                    k - s.tokens.start,
                    blk.block.text@,
                    start as int,
                ),
            decreases s.tokens.end - k,
        {
            let t = &blk.tokens[k];
            assert(ts[k - s.tokens.start] == *t);
            if utf::str_eq(t.pos(), "接続詞") {
                let spaced = if t.byte_start > start {
                    let before = crate::document::chars_between(cs, offs, start, t.byte_start);
                    before.len() > 0 && utf::is_white_char(before[before.len() - 1])
                } else {
                    false
                };
                if !spaced {
                    proof {
                        let j = k - s.tokens.start;
                        assert(!after_space(blk.block.text@, start as int, ts[j]));
                        assert(first_conj(ts, j, blk.block.text@, start as int) == Some(ts[j]));
                        assert(sentence_conj(*blk, i as int) == first_conj(ts, 0, blk.block.text@, start as int));
                    }
                    return Some(k);
                }
            }
            k = k + 1;
        }
        None
    }

    pub fn check(&mut self, blk: &BlockData, _ctx: &Ctx) -> (r: Vec<Report>)
        requires
            blk.wf(),
        ensures
            models(r@) == conj_from(*blk, 1),
    {
        let cs = utf::chars_of(blk.text());
        let _ = utf::str_len(blk.text());
        let offs = utf::byte_offsets(&cs);
        let _ = blk.tokens.len();
        proof {
            lemma_sentences_ok(*blk);
        }
        let mut out: Vec<Report> = Vec::new();
        proof {
            lemma_models_empty();
        }
        if blk.sentences.len() < 2 {
            return out;
        }
        let mut prev = Self::sentence_first(blk, 0, &cs, &offs);
        let mut i: usize = 1;
        while i < blk.sentences.len()
            invariant
                1 <= i <= blk.sentences@.len(),
                cs@ == blk.block.text@,
                offs@.len() == cs@.len() + 1,
                forall|x: int| 0 <= x <= cs@.len() ==> #[trigger] offs@[x] == utf::boff(cs@, x),
                forall|k: int| 0 <= k < blk.sentences@.len() ==> crate::sentence::sentence_ok(
                    #[trigger] blk.sentences@[k],
                    utf::byte_len(blk.block.text@) as int,
                    blk.tokens@.len() as int,
                ),
                match prev {
                    Some(k) => k < blk.tokens@.len() && sentence_conj(*blk, i - 1) == Some(blk.tokens@[k as int]),
                    None => sentence_conj(*blk, i - 1) is None,
                },
                models(out@) + conj_from(*blk, i as int) == conj_from(*blk, 1),
            decreases blk.sentences@.len() - i,
        {
            let cur = Self::sentence_first(blk, i, &cs, &offs);
            let ghost before = models(out@);
            match (prev, cur) {
                (Some(t), Some(c)) => {
                    if utf::str_eq(blk.tokens[c].surface.as_str(), blk.tokens[t].surface.as_str()) {
                        let m = utf::concat3("同じ接続詞（", blk.tokens[c].surface.as_str(), "）が連続して使われています。");
                        let r = Report::token(&blk.tokens[c], m);
                        proof {
                            lemma_models_push(out@, r);
                        }
                        out.push(r);
                    } else {
                        assert(before + Seq::<ReportModel>::empty() =~= before);
                    }
                },
                _ => {
                    assert(before + Seq::<ReportModel>::empty() =~= before);
                },
            }
            prev = cur;
            i = i + 1;
        }
        out
    }
}

proof fn lemma_countable_idx(all: Seq<JoshiModel>, strict: bool, seps: Seq<Seq<char>>, commas: Seq<Seq<char>>)
    ensures
        forall|i: int| 0 <= i < countable_idx(all, strict, seps, commas).len() ==>
            0 <= #[trigger] countable_idx(all, strict, seps, commas)[i] < all.len(),
        forall|i: int, j: int| 0 <= i < j < countable_idx(all, strict, seps, commas).len() ==>
            #[trigger] countable_idx(all, strict, seps, commas)[i] < #[trigger] countable_idx(all, strict, seps, commas)[j],
    decreases all.len(),
{
    if all.len() > 0 {
        lemma_countable_idx(all.drop_last(), strict, seps, commas);
        let rest = countable_idx(all.drop_last(), strict, seps, commas);
        let c = countable_idx(all, strict, seps, commas);
        if countable(all.last(), strict, seps, commas) {
            assert(c == rest.push(all.len() - 1));
            assert forall|i: int| 0 <= i < c.len() implies 0 <= #[trigger] c[i] < all.len() by {
                if i < rest.len() {
                    assert(c[i] == rest[i]);
                }
            }
            assert forall|i: int, j: int| 0 <= i < j < c.len() implies #[trigger] c[i] < #[trigger] c[j] by {
                assert(c[i] == rest[i]);
                if j < rest.len() {
                    assert(c[j] == rest[j]);
                }
            }
        } else {
            assert(c == rest);
        }
    }
}

proof fn lemma_positions(all: Seq<JoshiModel>, cnt: Seq<int>, key: JoshiModel, n: int)
    ensures
        forall|i: int| 0 <= i < positions(all, cnt, key, n).len() ==> {
            let p = #[trigger] positions(all, cnt, key, n)[i];
            &&& 0 <= p < n
            &&& p < cnt.len()
            &&& crate::tokenizer::is_joshi_spec(all[cnt[p]].pos)
            &&& same_key(all[cnt[p]], key)
        },
        forall|i: int, j: int| 0 <= i < j < positions(all, cnt, key, n).len() ==>
            #[trigger] positions(all, cnt, key, n)[i] < #[trigger] positions(all, cnt, key, n)[j],
    decreases n,
{
    if 0 < n <= cnt.len() {
        lemma_positions(all, cnt, key, n - 1);
    }
}

/// A report that no-doubled-joshi makes on a sentence's tokens `ts`: it spans
/// the merged particle `all[j]`, which repeats the key of the earlier merged
/// token `all[i]`, and whose surface the `allow` option does not list.
pub open spec fn doubled_at(ts: Seq<Token>, opts: OptValue, r: ReportModel, i: int, j: int) -> bool {
    let all = merge_spec(ts);
    &&& 0 <= i < j < all.len()
    &&& crate::tokenizer::is_joshi_spec(all[j].pos)
    &&& same_key(all[i], all[j])
    &&& r.start == all[j].byte_start
    &&& r.end == all[j].byte_end
    &&& !config::opt_strs_spec(opts, "allow"@, Seq::empty()).contains(all[j].surface)
}

proof fn lemma_doubled_source(ts: Seq<Token>, opts: OptValue, x: int) -> (ij: (int, int))
    requires
        0 <= x < doubled_reports(ts, opts).len(),
    ensures
        doubled_at(ts, opts, doubled_reports(ts, opts)[x], ij.0, ij.1),
{
    let all = merge_spec(ts);
    let strict = config::opt_bool_spec(opts, "strict"@, false);
    let seps = config::opt_strs_spec(opts, "separatorCharacters"@, separators_spec());
    let commas = config::opt_strs_spec(opts, "commaCharacters"@, commas_spec());
    let cnt = countable_idx(all, strict, seps, commas);
    let mi = config::opt_usize_spec(opts, "min_interval"@, 1);
    let min_interval = if mi < 1 { 1 } else { mi as int };
    let f = |k: int| key_reports(all, cnt, k, opts);
    let (k, y) = concat_upto_source(f, cnt.len() as int, x);
    lemma_countable_idx(all, strict, seps, commas);
    let key = all[cnt[k]];
    let ps = positions(all, cnt, key, cnt.len() as int);
    lemma_positions(all, cnt, key, cnt.len() as int);
    let g = |w: int| window_at(all, cnt, ps, min_interval, w);
    assert(f(k) == concat_upto(g, ps.len() - 1));
    let (w, z) = concat_upto_source(g, ps.len() - 1, y);
    let i = cnt[ps[w]];
    let j = cnt[ps[w + 1]];
    assert(ps[w] < ps[w + 1]);
    assert(i < j);
    (i, j)
}

/// no-doubled-joshi on a block: the reports of each sentence, in order.
pub open spec fn doubled_block(blk: BlockData, opts: OptValue) -> Seq<ReportModel> {
    concat_upto(|i: int| doubled_reports(sent_toks(blk, i), opts), blk.sentences@.len() as int)
}

/// Every no-doubled-joshi report on a block spans a merged particle of one of
/// its sentences that repeats the key (surface and part of speech) of an
/// earlier merged token of that sentence, and whose surface `allow` does not
/// list.
pub proof fn lemma_doubled_joshi_reports(blk: BlockData, opts: OptValue, x: int)
    requires
        0 <= x < doubled_block(blk, opts).len(),
    ensures
        exists|s: int, i: int, j: int|
            0 <= s < blk.sentences@.len() && #[trigger] doubled_at(
                sent_toks(blk, s),
                opts,
                doubled_block(blk, opts)[x],
                i,
                j,
            ),
{
    let f = |i: int| doubled_reports(sent_toks(blk, i), opts);
    let (s, y) = concat_upto_source(f, blk.sentences@.len() as int, x);
    let (i, j) = lemma_doubled_source(sent_toks(blk, s), opts, y);
    assert(doubled_block(blk, opts) == concat_upto(f, blk.sentences@.len() as int));
    assert(doubled_at(sent_toks(blk, s), opts, doubled_block(blk, opts)[x], i, j));
}

/// The options of no-doubled-joshi other than `min_interval` agree.
pub open spec fn same_joshi_options(a: OptValue, b: OptValue) -> bool {
    &&& config::opt_bool_spec(a, "strict"@, false) == config::opt_bool_spec(b, "strict"@, false)
    &&& config::opt_strs_spec(a, "allow"@, Seq::empty()) == config::opt_strs_spec(b, "allow"@, Seq::empty())
    &&& config::opt_strs_spec(a, "separatorCharacters"@, separators_spec()) == config::opt_strs_spec(
        b,
        "separatorCharacters"@,
        separators_spec(),
    )
    &&& config::opt_strs_spec(a, "commaCharacters"@, commas_spec()) == config::opt_strs_spec(
        b,
        "commaCharacters"@,
        commas_spec(),
    )
}

/// The `min_interval` no-doubled-joshi works with: the option, at least 1.
pub open spec fn min_interval_of(opts: OptValue) -> int {
    let mi = config::opt_usize_spec(opts, "min_interval"@, 1);
    if mi < 1 {
        1
    } else {
        mi as int
    }
}

proof fn lemma_empty_sub(a: Seq<ReportModel>, b: Seq<ReportModel>)
    requires
        a.len() == 0,
    ensures
        a.to_multiset().subset_of(b.to_multiset()),
{
    broadcast use vstd::seq_lib::group_to_multiset_ensures;
    assert forall|v: ReportModel| a.to_multiset().count(v) <= b.to_multiset().count(v) by {
        assert(!a.contains(v));
    }
}

proof fn lemma_same_sub(a: Seq<ReportModel>)
    ensures
        a.to_multiset().subset_of(a.to_multiset()),
{
}

/// A larger `min_interval` only adds no-doubled-joshi reports: with the other
/// options the same, the reports under the smaller interval are a
/// sub-multiset of those under the larger.
pub proof fn lemma_doubled_joshi_monotone(blk: BlockData, a: OptValue, b: OptValue)
    requires
        same_joshi_options(a, b),
        min_interval_of(a) <= min_interval_of(b),
    ensures
        doubled_block(blk, a).to_multiset().subset_of(doubled_block(blk, b).to_multiset()),
{
    let f = |i: int| doubled_reports(sent_toks(blk, i), a);
    let g = |i: int| doubled_reports(sent_toks(blk, i), b);
    assert forall|i: int| 0 <= i < blk.sentences@.len() implies (#[trigger] f(i)).to_multiset().subset_of(
        g(i).to_multiset(),
    ) by {
        lemma_doubled_monotone_sentence(sent_toks(blk, i), a, b);
    }
    lemma_concat_upto_sub(f, g, blk.sentences@.len() as int);
    assert(doubled_block(blk, a) == concat_upto(f, blk.sentences@.len() as int));
    assert(doubled_block(blk, b) == concat_upto(g, blk.sentences@.len() as int));
}

proof fn lemma_doubled_monotone_sentence(ts: Seq<Token>, a: OptValue, b: OptValue)
    requires
        same_joshi_options(a, b),
        min_interval_of(a) <= min_interval_of(b),
    ensures
        doubled_reports(ts, a).to_multiset().subset_of(doubled_reports(ts, b).to_multiset()),
{
    let all = merge_spec(ts);
    let strict = config::opt_bool_spec(a, "strict"@, false);
    let seps = config::opt_strs_spec(a, "separatorCharacters"@, separators_spec());
    let commas = config::opt_strs_spec(a, "commaCharacters"@, commas_spec());
    let cnt = countable_idx(all, strict, seps, commas);
    let f = |k: int| key_reports(all, cnt, k, a);
    let g = |k: int| key_reports(all, cnt, k, b);
    assert forall|k: int| 0 <= k < cnt.len() implies (#[trigger] f(k)).to_multiset().subset_of(g(k).to_multiset()) by {
        let key = all[cnt[k]];
        let ps = positions(all, cnt, key, cnt.len() as int);
        let fa = |w: int| window_at(all, cnt, ps, min_interval_of(a), w);
        let fb = |w: int| window_at(all, cnt, ps, min_interval_of(b), w);
        if f(k).len() == 0 {
            lemma_empty_sub(f(k), g(k));
        } else {
            assert(f(k) == concat_upto(fa, ps.len() - 1));
            assert(g(k) == concat_upto(fb, ps.len() - 1));
            assert forall|w: int| 0 <= w < ps.len() - 1 implies (#[trigger] fa(w)).to_multiset().subset_of(
                fb(w).to_multiset(),
            ) by {
                if fa(w).len() == 0 {
                    lemma_empty_sub(fa(w), fb(w));
                } else {
                    assert(fa(w) == fb(w));
                    lemma_same_sub(fa(w));
                }
            }
            lemma_concat_upto_sub(fa, fb, ps.len() - 1);
        }
    }
    assert(doubled_reports(ts, a) == concat_upto(f, cnt.len() as int));
    assert(doubled_reports(ts, b) == concat_upto(g, cnt.len() as int));
    lemma_concat_upto_sub(f, g, cnt.len() as int);
}

/// How many tokens of `ts` from `i` on are the 読点 `touten`.
pub open spec fn touten_count(ts: Seq<Token>, i: int, touten: Seq<char>) -> nat
    decreases ts.len() - i,
{
    if i < 0 || i >= ts.len() {
        0
    } else {
        (if ts[i].surface@ == touten { 1nat } else { 0nat }) + touten_count(ts, i + 1, touten)
    }
}

proof fn lemma_ten_scan_quiet(ts: Seq<Token>, i: int, count: int, last: Option<Token>, opts: OptValue)
    requires
        0 <= i,
        0 <= count,
        count + touten_count(ts, i, config::opt_str_spec(opts, "touten"@, "、"@)) <= config::opt_usize_spec(
            opts,
            "max"@,
            3,
        ),
    ensures
        ten_scan(ts, i, count, last, opts) == Seq::<ReportModel>::empty(),
    decreases ts.len() - i,
{
    if i < ts.len() {
        let touten = config::opt_str_spec(opts, "touten"@, "、"@);
        let t = ts[i];
        let is_ten = t.surface@ == touten;
        let c1 = if is_ten { count + 1 } else { count };
        let l1 = if is_ten { Some(t) } else { last };
        let strict = config::opt_bool_spec(opts, "strict"@, false);
        if is_ten && sandwiched(ts, i) && !strict {
            lemma_ten_scan_quiet(ts, i + 1, count, last, opts);
        } else {
            lemma_ten_scan_quiet(ts, i + 1, 0, l1, opts);
            lemma_ten_scan_quiet(ts, i + 1, c1, l1, opts);
        }
    }
}

/// max-ten stays silent on a block where no sentence holds more 読点
/// (the `touten` option) than the `max` option allows.
pub proof fn lemma_max_ten_quiet(blk: BlockData, opts: OptValue)
    requires
        forall|i: int|
            0 <= i < blk.sentences@.len() ==> touten_count(#[trigger] sent_toks(blk, i), 0, config::opt_str_spec(opts, "touten"@, "、"@))
                <= config::opt_usize_spec(opts, "max"@, 3),
    ensures
        concat_upto(|i: int| ten_scan(sent_toks(blk, i), 0, 0, None, opts), blk.sentences@.len() as int).len() == 0,
{
    let f = |i: int| ten_scan(sent_toks(blk, i), 0, 0, None, opts);
    assert forall|k: int| 0 <= k < blk.sentences@.len() implies (#[trigger] f(k)).len() == 0 by {
        lemma_ten_scan_quiet(sent_toks(blk, k), 0, 0, None, opts);
    }
    lemma_concat_upto_empty(f, blk.sentences@.len() as int);
}

} // verus!
