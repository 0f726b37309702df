//! Rules that work on characters alone (no morphology needed).

use super::{
    concat_upto, concat_upto_index, concat_upto_source, found, found_fix, in_link_or_emphasis_spec, lemma_models_empty, lemma_models_push, models,
    BlockData, Ctx, Report, ReportModel, Scope,
};
use crate::config::{self, OptValue};
use crate::document::{self, SegmentKind};
use crate::sentence::Sentence;
use crate::utf;
use unicode_normalization::UnicodeNormalization;
use vstd::prelude::*;

verus! {

/// Han characters as textlint's kanji rules define them.
pub open spec fn kanji(c: char) -> bool {
    let u = c as u32;
    c == '々' || c == '〇' || c == '〻' || (0x3400 <= u && u <= 0x9FFF) || (0xF900 <= u && u <= 0xFAFF)
        || (0x20000 <= u && u <= 0x2FFFF)
}

pub fn is_kanji(c: char) -> (b: bool)
    ensures
        b == kanji(c),
{
    let u = c as u32;
    c == '々' || c == '〇' || c == '〻' || (0x3400 <= u && u <= 0x9FFF) || (0xF900 <= u && u <= 0xFAFF)
        || (0x20000 <= u && u <= 0x2FFFF)
}

/// Kanji, hiragana or katakana.
pub open spec fn japanese_char(c: char) -> bool {
    kanji(c) || ('ぁ' <= c && c <= 'ん') || ('ァ' <= c && c <= 'ヶ')
}

pub open spec fn japanese(cs: Seq<char>) -> bool {
    exists|i: int| 0 <= i < cs.len() && japanese_char(#[trigger] cs[i])
}

fn is_japanese(text: &str) -> (b: bool)
    ensures
        b == japanese(text@),
{
    let cs = utf::chars_of(text);
    let mut i: usize = 0;
    while i < cs.len()
        invariant
            cs@ == text@,
            i <= cs.len(),
            forall|k: int| 0 <= k < i ==> !japanese_char(#[trigger] cs@[k]),
        decreases cs.len() - i,
    {
        let c = cs[i];
        if is_kanji(c) || ('ぁ' <= c && c <= 'ん') || ('ァ' <= c && c <= 'ヶ') {
            return true;
        }
        i = i + 1;
    }
    false
}

/// The characters of a block text with the byte offset of each.
struct Chars {
    cs: Vec<char>,
    offs: Vec<usize>,
}

impl Chars {
    spec fn ok(&self, text: Seq<char>) -> bool {
        &&& self.cs@ == text
        &&& utf::byte_len(text) <= usize::MAX
        &&& self.offs@.len() == text.len() + 1
        &&& forall|k: int| 0 <= k <= text.len() ==> #[trigger] self.offs@[k] == utf::boff(text, k)
    }

    fn of(text: &str) -> (r: Chars)
        ensures
            r.ok(text@),
    {
        let cs = utf::chars_of(text);
        let total = utf::str_len(text);
        let offs = utf::byte_offsets(&cs);
        Chars { cs, offs }
    }
}

proof fn lemma_next_off(cs: Seq<char>, k: int)
    requires
        0 <= k < cs.len(),
    ensures
        utf::boff(cs, k + 1) == utf::boff(cs, k) + utf::utf8_width(cs[k]),
{
    utf::lemma_take_step(cs, k);
}

/// no-zero-width-spaces at character `k`. Only U+200B, as textlint has it.
pub open spec fn zws_at(cs: Seq<char>, k: int) -> Seq<ReportModel> {
    if cs[k] == '\u{200B}' {
        let b = utf::boff(cs, k) as int;
        seq![
            found_fix(b, b + utf::utf8_width(cs[k]), "Zero width space is disallowed."@, Seq::empty()),
        ]
    } else {
        Seq::empty()
    }
}

/// no-zero-width-spaces. Only U+200B, as textlint has it. The neighbouring
/// invisibles are load-bearing: U+200D joins the parts of an emoji, and
/// deleting it rewrites 👨‍👩‍👧‍👦 into four separate people.
pub struct NoZeroWidthSpaces;

impl NoZeroWidthSpaces {
    /// The name the rule reports under and is configured by.
    pub fn id(&self) -> (r: &'static str)
        ensures
            r@ == super::rule_ids()[4],
    {
        "no-zero-width-spaces"
    }

    /// The kinds of block the rule looks at.
    pub fn scope(&self) -> (r: Scope)
        ensures
            r == super::scope_of(4),
    {
        Scope::everywhere()
    }

    pub fn check(&mut self, blk: &BlockData, _ctx: &Ctx) -> (r: Vec<Report>)
        ensures
            models(r@) == concat_upto(|k: int| zws_at(blk.block.text@, k), blk.block.text@.len() as int),
            models(r@) == zws_reports(blk.block.text@),
    {
        let ch = Chars::of(blk.text());
        let ghost cs = blk.block.text@;
        let mut out: Vec<Report> = Vec::new();
        proof {
            lemma_models_empty();
        }
        let mut k: usize = 0;
        while k < ch.cs.len()
            invariant
                ch.ok(cs),
                k <= cs.len(),
                cs == blk.block.text@,
                models(out@) == concat_upto(|j: int| zws_at(cs, j), k as int),
            decreases cs.len() - k,
        {
            let c = ch.cs[k];
            if c == '\u{200B}' {
                proof {
                    lemma_next_off(cs, k as int);
                    utf::lemma_prefix_le(cs, k + 1, k + 1);
                }
                let b = ch.offs[k];
                let r = Report::at(b, b + utf::char_len_utf8(c), "Zero width space is disallowed.".to_string());
                let r = r.replace(String::new());
                proof {
                    lemma_models_push(out@, r);
                }
                out.push(r);
            } else {
                                assert(models(out@) + Seq::<ReportModel>::empty() =~= models(out@));
            }
            k = k + 1;
        }
        out
    }
}

/// Names for the control characters, so the message reads like textlint's.
pub open spec fn control_name_spec(u: u32) -> Seq<char> {
    if u == 0x00 {
        "NULL"@
    } else if u == 0x01 {
        "START OF HEADING"@
    } else if u == 0x02 {
        "START OF TEXT"@
    } else if u == 0x03 {
        "END OF TEXT"@
    } else if u == 0x04 {
        "END OF TRANSMISSION"@
    } else if u == 0x05 {
        "ENQUIRY"@
    } else if u == 0x06 {
        "ACKNOWLEDGE"@
    } else if u == 0x07 {
        "BELL"@
    } else if u == 0x08 {
        "BACKSPACE"@
    } else if u == 0x09 {
        "CHARACTER TABULATION"@
    } else if u == 0x0A {
        "LINE FEED (LF)"@
    } else if u == 0x0B {
        "LINE TABULATION"@
    } else if u == 0x0C {
        "FORM FEED (FF)"@
    } else if u == 0x0D {
        "CARRIAGE RETURN (CR)"@
    } else if u == 0x0E {
        "SHIFT OUT"@
    } else if u == 0x0F {
        "SHIFT IN"@
    } else if u == 0x10 {
        "DATA LINK ESCAPE"@
    } else if u == 0x11 {
        "DEVICE CONTROL ONE"@
    } else if u == 0x12 {
        "DEVICE CONTROL TWO"@
    } else if u == 0x13 {
        "DEVICE CONTROL THREE"@
    } else if u == 0x14 {
        "DEVICE CONTROL FOUR"@
    } else if u == 0x15 {
        "NEGATIVE ACKNOWLEDGE"@
    } else if u == 0x16 {
        "SYNCHRONOUS IDLE"@
    } else if u == 0x17 {
        "END OF TRANSMISSION BLOCK"@
    } else if u == 0x18 {
        "CANCEL"@
    } else if u == 0x19 {
        "END OF MEDIUM"@
    } else if u == 0x1A {
        "SUBSTITUTE"@
    } else if u == 0x1B {
        "ESCAPE"@
    } else if u == 0x1C {
        "INFORMATION SEPARATOR FOUR"@
    } else if u == 0x1D {
        "INFORMATION SEPARATOR THREE"@
    } else if u == 0x1E {
        "INFORMATION SEPARATOR TWO"@
    } else if u == 0x1F {
        "INFORMATION SEPARATOR ONE"@
    } else if u == 0x7F {
        "DELETE"@
    } else {
        "CONTROL"@
    }
}

fn control_name(c: char) -> (r: &'static str)
    ensures
        r@ == control_name_spec(c as u32),
{
    let u = c as u32;
    if u == 0x00 {
        "NULL"
    } else if u == 0x01 {
        "START OF HEADING"
    } else if u == 0x02 {
        "START OF TEXT"
    } else if u == 0x03 {
        "END OF TEXT"
    } else if u == 0x04 {
        "END OF TRANSMISSION"
    } else if u == 0x05 {
        "ENQUIRY"
    } else if u == 0x06 {
        "ACKNOWLEDGE"
    } else if u == 0x07 {
        "BELL"
    } else if u == 0x08 {
        "BACKSPACE"
    } else if u == 0x09 {
        "CHARACTER TABULATION"
    } else if u == 0x0A {
        "LINE FEED (LF)"
    } else if u == 0x0B {
        "LINE TABULATION"
    } else if u == 0x0C {
        "FORM FEED (FF)"
    } else if u == 0x0D {
        "CARRIAGE RETURN (CR)"
    } else if u == 0x0E {
        "SHIFT OUT"
    } else if u == 0x0F {
        "SHIFT IN"
    } else if u == 0x10 {
        "DATA LINK ESCAPE"
    } else if u == 0x11 {
        "DEVICE CONTROL ONE"
    } else if u == 0x12 {
        "DEVICE CONTROL TWO"
    } else if u == 0x13 {
        "DEVICE CONTROL THREE"
    } else if u == 0x14 {
        "DEVICE CONTROL FOUR"
    } else if u == 0x15 {
        "NEGATIVE ACKNOWLEDGE"
    } else if u == 0x16 {
        "SYNCHRONOUS IDLE"
    } else if u == 0x17 {
        "END OF TRANSMISSION BLOCK"
    } else if u == 0x18 {
        "CANCEL"
    } else if u == 0x19 {
        "END OF MEDIUM"
    } else if u == 0x1A {
        "SUBSTITUTE"
    } else if u == 0x1B {
        "ESCAPE"
    } else if u == 0x1C {
        "INFORMATION SEPARATOR FOUR"
    } else if u == 0x1D {
        "INFORMATION SEPARATOR THREE"
    } else if u == 0x1E {
        "INFORMATION SEPARATOR TWO"
    } else if u == 0x1F {
        "INFORMATION SEPARATOR ONE"
    } else if u == 0x7F {
        "DELETE"
    } else {
        "CONTROL"
    }
}

/// A control character (general category Cc) other than tab, line feed and
/// carriage return.
pub open spec fn invalid_control(c: char) -> bool {
    let u = c as u32;
    ((u <= 0x1F || (0x7F <= u && u <= 0x9F)) && !(c == '\t' || c == '\n' || c == '\r')) || u == 0x7F
}

pub open spec fn control_at(cs: Seq<char>, k: int) -> Seq<ReportModel> {
    if invalid_control(cs[k]) {
        let b = utf::boff(cs, k) as int;
        let msg = "Found invalid control character("@ + control_name_spec(cs[k] as u32) + " \\u"@ + utf::zero_pad(
            utf::digits(cs[k] as u32 as nat, 16),
            4,
        ) + ")"@;
        seq![found_fix(b, b + utf::utf8_width(cs[k]), msg, Seq::empty())]
    } else {
        Seq::empty()
    }
}

pub struct NoInvalidControlCharacter;

impl NoInvalidControlCharacter {
    /// The name the rule reports under and is configured by.
    pub fn id(&self) -> (r: &'static str)
        ensures
            r@ == super::rule_ids()[5],
    {
        "no-invalid-control-character"
    }

    /// The kinds of block the rule looks at.
    pub fn scope(&self) -> (r: Scope)
        ensures
            r == super::scope_of(5),
    {
        Scope::everywhere()
    }

    pub fn check(&mut self, blk: &BlockData, _ctx: &Ctx) -> (r: Vec<Report>)
        ensures
            models(r@) == concat_upto(|k: int| control_at(blk.block.text@, k), blk.block.text@.len() as int),
    {
        let ch = Chars::of(blk.text());
        let ghost cs = blk.block.text@;
        let mut out: Vec<Report> = Vec::new();
        proof {
            lemma_models_empty();
        }
        let mut k: usize = 0;
        while k < ch.cs.len()
            invariant
                ch.ok(cs),
                k <= cs.len(),
                cs == blk.block.text@,
                models(out@) == concat_upto(|j: int| control_at(cs, j), k as int),
            decreases cs.len() - k,
        {
            let c = ch.cs[k];
            let u = c as u32;
            if ((u <= 0x1F || (0x7F <= u && u <= 0x9F)) && !(c == '\t' || c == '\n' || c == '\r')) || u == 0x7F {
                proof {
                    lemma_next_off(cs, k as int);
                    utf::lemma_prefix_le(cs, k + 1, k + 1);
                }
                let b = ch.offs[k];
                let a = utf::concat3("Found invalid control character(", control_name(c), " \\u");
                let h = utf::hex4(u as u64);
                let msg = utf::concat3(a.as_str(), h.as_str(), ")");
                let r = Report::at(b, b + utf::char_len_utf8(c), msg).replace(String::new());
                proof {
                    lemma_models_push(out@, r);
                }
                out.push(r);
            } else {
                assert(models(out@) + Seq::<ReportModel>::empty() =~= models(out@));
            }
            k = k + 1;
        }
        out
    }
}

/// `cs` ends with `p`.
pub open spec fn ends_with_seq(cs: Seq<char>, p: Seq<char>) -> bool {
    p.len() <= cs.len() && cs.skip(cs.len() - p.len()) == p
}

fn ends_with_at(cs: &Vec<char>, n: usize, p: &Vec<char>) -> (b: bool)
    requires
        n <= cs@.len(),
    ensures
        b == ends_with_seq(cs@.take(n as int), p@),
{
    if p.len() > n {
        return false;
    }
    let base = n - p.len();
    let mut i: usize = 0;
    while i < p.len()
        invariant
            n <= cs@.len(),
            base + p@.len() == n,
            i <= p.len(),
            forall|k: int| 0 <= k < i ==> cs@[base + k] == p@[k],
        decreases p.len() - i,
    {
        if cs[base + i] != p[i] {
            assert(cs@.take(n as int).skip(base as int)[i as int] == cs@[base + i]);
            return false;
        }
        i = i + 1;
    }
    assert(cs@.take(n as int).skip(base as int) =~= p@);
    true
}

/// Whether an exclamation or question mark is allowed by the width options;
/// every other character is.
pub open spec fn mark_allowed(c: char, opts: OptValue) -> bool {
    if c == '!' {
        config::opt_bool_spec(opts, "allowHalfWidthExclamation"@, false)
    } else if c == '！' {
        config::opt_bool_spec(opts, "allowFullWidthExclamation"@, false)
    } else if c == '?' {
        config::opt_bool_spec(opts, "allowHalfWidthQuestion"@, false)
    } else if c == '？' {
        config::opt_bool_spec(opts, "allowFullWidthQuestion"@, false)
    } else {
        true
    }
}

/// The phrases that cover a mark they end with: the `allow` option plus "Yahoo!".
pub open spec fn allowed_phrases(opts: OptValue) -> Seq<Seq<char>> {
    config::opt_strs_spec(opts, "allow"@, Seq::empty()).push("Yahoo!"@)
}

pub open spec fn exclam_at(cs: Seq<char>, segs: Seq<document::Segment>, opts: OptValue, k: int) -> Seq<ReportModel> {
    let b = utf::boff(cs, k) as int;
    let phrases = allowed_phrases(opts);
    if !mark_allowed(cs[k], opts) && !in_link_or_emphasis_spec(segs, b) && !(exists|j: int|
        0 <= j < phrases.len() && ends_with_seq(cs.take(k + 1), #[trigger] phrases[j])) {
        seq![found(b, b + utf::utf8_width(cs[k]), "Disallow to use \""@ + seq![cs[k]] + "\"."@)]
    } else {
        Seq::empty()
    }
}

/// no-exclamation-question-mark, with textlint's options: `allow` phrases
/// (plus the built-in "Yahoo!") and per-width allow flags; link text is skipped.
pub struct NoExclamationQuestionMark;

impl NoExclamationQuestionMark {
    /// The name the rule reports under and is configured by.
    pub fn id(&self) -> (r: &'static str)
        ensures
            r@ == super::rule_ids()[3],
    {
        "no-exclamation-question-mark"
    }

    /// The kinds of block the rule looks at.
    pub fn scope(&self) -> (r: Scope)
        ensures
            r == super::scope_of(3),
    {
        Scope::text()
    }

    pub fn check(&mut self, blk: &BlockData, ctx: &Ctx) -> (r: Vec<Report>)
        ensures
            models(r@) == concat_upto(
                |k: int| exclam_at(blk.block.text@, blk.block.segments@, *ctx.options, k),
                blk.block.text@.len() as int,
            ),
    {
        let opts = ctx.options;
        let half_ex = config::opt_bool(opts, "allowHalfWidthExclamation", false);
        let full_ex = config::opt_bool(opts, "allowFullWidthExclamation", false);
        let half_q = config::opt_bool(opts, "allowHalfWidthQuestion", false);
        let full_q = config::opt_bool(opts, "allowFullWidthQuestion", false);
        let allow_strs = config::opt_strs(opts, "allow");
        let mut allow: Vec<Vec<char>> = Vec::new();
        let mut a: usize = 0;
        while a < allow_strs.len()
            invariant
                a <= allow_strs@.len(),
                allow@.len() == a,
                forall|j: int| 0 <= j < a ==> #[trigger] allow@[j]@ == allow_strs@[j]@,
            decreases allow_strs@.len() - a,
        {
            allow.push(utf::chars_of(allow_strs[a].as_str()));
            a = a + 1;
        }
        allow.push(utf::chars_of("Yahoo!"));
        let ghost phrases = allowed_phrases(*opts);
        assert(allow@.len() == phrases.len());
        assert forall|j: int| 0 <= j < phrases.len() implies #[trigger] allow@[j]@ == phrases[j] by {
            if j < allow_strs@.len() {
                assert(config::views(allow_strs@)[j] == allow_strs@[j]@);
            }
        }
        let ch = Chars::of(blk.text());
        let ghost cs = blk.block.text@;
        let mut out: Vec<Report> = Vec::new();
        proof {
            lemma_models_empty();
        }
        let mut k: usize = 0;
        while k < ch.cs.len()
            invariant
                ch.ok(cs),
                cs == blk.block.text@,
                k <= cs.len(),
                allow@.len() == phrases.len(),
                phrases == allowed_phrases(*opts),
                forall|j: int| 0 <= j < phrases.len() ==> #[trigger] allow@[j]@ == phrases[j],
                half_ex == config::opt_bool_spec(*opts, "allowHalfWidthExclamation"@, false),
                full_ex == config::opt_bool_spec(*opts, "allowFullWidthExclamation"@, false),
                half_q == config::opt_bool_spec(*opts, "allowHalfWidthQuestion"@, false),
                full_q == config::opt_bool_spec(*opts, "allowFullWidthQuestion"@, false),
                opts == ctx.options,
                models(out@) == concat_upto(|j: int| exclam_at(cs, blk.block.segments@, *opts, j), k as int),
            decreases cs.len() - k,
        {
            let c = ch.cs[k];
            let allowed = if c == '!' {
                half_ex
            } else if c == '！' {
                full_ex
            } else if c == '?' {
                half_q
            } else if c == '？' {
                full_q
            } else {
                true
            };
            let b = ch.offs[k];
            let mut covered = false;
            if !allowed && !blk.in_link_or_emphasis(b) {
                let mut j: usize = 0;
                while j < allow.len()
                    invariant
                        j <= allow@.len(),
                        k < cs.len(),
                        k < ch.cs.len(),
                        ch.ok(cs),
                        allow@.len() == phrases.len(),
                        forall|i: int| 0 <= i < phrases.len() ==> #[trigger] allow@[i]@ == phrases[i],
                        covered == (exists|i: int| 0 <= i < j && ends_with_seq(cs.take(k + 1), #[trigger] phrases[i])),
                    decreases allow@.len() - j,
                {
                    if ends_with_at(&ch.cs, k + 1, &allow[j]) {
                        covered = true;
                    }
                    j = j + 1;
                }
                if !covered {
                    proof {
                        lemma_next_off(cs, k as int);
                        utf::lemma_prefix_le(cs, k + 1, k + 1);
                    }
                    let msg = utf::concat3("Disallow to use \"", utf::char_string(c).as_str(), "\".");
                    let r = Report::at(b, b + utf::char_len_utf8(c), msg);
                    proof {
                        lemma_models_push(out@, r);
                    }
                    out.push(r);
                }
            }
            if allowed || blk.in_link_or_emphasis(b) || covered {
                assert(models(out@) + Seq::<ReportModel>::empty() =~= models(out@));
            }
            k = k + 1;
        }
        out
    }
}

/// The normalization form C of a text (unicode-normalization's `nfc`).
pub uninterp spec fn nfc_of(s: Seq<char>) -> Seq<char>;

/// The normalization form KC of a text (unicode-normalization's `nfkc`).
pub uninterp spec fn nfkc_of(s: Seq<char>) -> Seq<char>;

/// Composes `s` with unicode-normalization's `UnicodeNormalization::nfc`;
/// claims only that the result is that crate's NFC of `s`.
#[verifier::external_body]
fn nfc(s: &str) -> (r: String)
    ensures
        r@ == nfc_of(s@),
{
    s.nfc().collect()
}

/// Composes `s` with unicode-normalization's `UnicodeNormalization::nfkc`;
/// claims only that the result is that crate's NFKC of `s`.
#[verifier::external_body]
fn nfkc(s: &str) -> (r: String)
    ensures
        r@ == nfkc_of(s@),
{
    s.nfkc().collect()
}

/// A combining or spacing (han)dakuten.
pub open spec fn nfd_mark(c: char) -> bool {
    c == '\u{3099}' || c == '\u{309A}' || c == '\u{309B}' || c == '\u{309C}'
}

/// The combining form of a dakuten mark.
pub open spec fn combining(c: char) -> char {
    if c == '\u{309B}' {
        '\u{3099}'
    } else if c == '\u{309C}' {
        '\u{309A}'
    } else {
        c
    }
}

pub open spec fn nfd_at(cs: Seq<char>, k: int) -> Seq<ReportModel> {
    if k > 0 && nfd_mark(cs[k]) {
        let b = utf::boff(cs, k) as int;
        let pair = seq![cs[k - 1], cs[k]];
        let expected = nfc_of(seq![cs[k - 1], combining(cs[k])]);
        seq![
            ReportModel {
                start: b,
                end: b + utf::utf8_width(cs[k]),
                message: "Disallow to use NFD(well-known as UTF8-MAC 濁点): \""@ + pair + "\" => \""@ + expected + "\""@,
                fix: Some((utf::boff(cs, k - 1) as int, b + utf::utf8_width(cs[k]), expected)),
            },
        ]
    } else {
        Seq::empty()
    }
}

pub struct NoNfd;

impl NoNfd {
    /// The name the rule reports under and is configured by.
    pub fn id(&self) -> (r: &'static str)
        ensures
            r@ == super::rule_ids()[6],
    {
        "no-nfd"
    }

    /// The kinds of block the rule looks at.
    pub fn scope(&self) -> (r: Scope)
        ensures
            r == super::scope_of(6),
    {
        Scope::text()
    }

    pub fn check(&mut self, blk: &BlockData, _ctx: &Ctx) -> (r: Vec<Report>)
        ensures
            models(r@) == concat_upto(|k: int| nfd_at(blk.block.text@, k), blk.block.text@.len() as int),
    {
        let ch = Chars::of(blk.text());
        let ghost cs = blk.block.text@;
        let mut out: Vec<Report> = Vec::new();
        proof {
            lemma_models_empty();
        }
        let mut k: usize = 0;
        while k < ch.cs.len()
            invariant
                ch.ok(cs),
                cs == blk.block.text@,
                k <= cs.len(),
                models(out@) == concat_upto(|j: int| nfd_at(cs, j), k as int),
            decreases cs.len() - k,
        {
            let c = ch.cs[k];
            if k > 0 && (c == '\u{3099}' || c == '\u{309A}' || c == '\u{309B}' || c == '\u{309C}') {
                let pc = ch.cs[k - 1];
                let comb = if c == '\u{309B}' {
                    '\u{3099}'
                } else if c == '\u{309C}' {
                    '\u{309A}'
                } else {
                    c
                };
                let mut pv: Vec<char> = Vec::new();
                pv.push(pc);
                pv.push(c);
                let pair = utf::string_of(pv.as_slice());
                let mut ev: Vec<char> = Vec::new();
                ev.push(pc);
                ev.push(comb);
                let decomposed = utf::string_of(ev.as_slice());
                let expected = nfc(decomposed.as_str());
                proof {
                    assert(pv@ =~= seq![pc, c]);
                    assert(ev@ =~= seq![pc, comb]);
                    lemma_next_off(cs, k as int);
                    utf::lemma_prefix_le(cs, k + 1, k + 1);
                    utf::lemma_prefix_le(cs, k - 1, k as int);
                }
                let a = utf::concat3("Disallow to use NFD(well-known as UTF8-MAC 濁点): \"", pair.as_str(), "\" => \"");
                let msg = utf::concat3(a.as_str(), expected.as_str(), "\"");
                let b = ch.offs[k];
                let e = b + utf::char_len_utf8(c);
                let r = Report::at(b, e, msg).with_fix(ch.offs[k - 1], e, expected);
                proof {
                    lemma_models_push(out@, r);
                }
                out.push(r);
            } else {
                assert(models(out@) + Seq::<ReportModel>::empty() =~= models(out@));
            }
            k = k + 1;
        }
        out
    }
}

/// Half-width katakana.
pub open spec fn hankaku(c: char) -> bool {
    0xFF61 <= (c as u32) && (c as u32) <= 0xFF9F
}

/// Start of the run of half-width katakana that ends at character `k`.
pub open spec fn kana_start(cs: Seq<char>, k: int) -> int
    decreases k,
{
    if k > 0 && hankaku(cs[k - 1]) {
        kana_start(cs, k - 1)
    } else {
        k
    }
}

/// Start of the run of kanji that ends at character `k`.
pub open spec fn kanji_start(cs: Seq<char>, k: int) -> int
    decreases k,
{
    if k > 0 && kanji(cs[k - 1]) {
        kanji_start(cs, k - 1)
    } else {
        k
    }
}

/// A maximal run of half-width katakana ending at character `k`, reported
/// with its NFKC form as the fix unless it sits in a link or emphasis.
pub open spec fn hankaku_at(cs: Seq<char>, segs: Seq<document::Segment>, k: int) -> Seq<ReportModel> {
    if hankaku(cs[k]) && (k + 1 == cs.len() || !hankaku(cs[k + 1])) {
        let s = kana_start(cs, k);
        let run = cs.subrange(s, k + 1);
        let b = utf::boff(cs, s) as int;
        if !in_link_or_emphasis_spec(segs, b) {
            seq![found_fix(b, utf::boff(cs, k + 1) as int, "Disallow to use 半角カタカナ: \""@ + run + "\""@, nfkc_of(run))]
        } else {
            Seq::empty()
        }
    } else {
        Seq::empty()
    }
}

fn is_hankaku(c: char) -> (b: bool)
    ensures
        b == hankaku(c),
{
    0xFF61 <= (c as u32) && (c as u32) <= 0xFF9F
}

proof fn lemma_run_start_le(cs: Seq<char>, k: int)
    requires
        0 <= k,
    ensures
        0 <= kana_start(cs, k) <= k,
        0 <= kanji_start(cs, k) <= k,
    decreases k,
{
    if k > 0 {
        lemma_run_start_le(cs, k - 1);
    }
}

/// The characters `cs[s..e]` as a string.
fn substring(cs: &Vec<char>, s: usize, e: usize) -> (r: String)
    requires
        s <= e <= cs@.len(),
    ensures
        r@ == cs@.subrange(s as int, e as int),
{
    let mut v: Vec<char> = Vec::new();
    let mut i = s;
    while i < e
        invariant
            s <= i <= e <= cs@.len(),
            v@ == cs@.subrange(s as int, i as int),
        decreases e - i,
    {
        v.push(cs[i]);
        i = i + 1;
        assert(v@ =~= cs@.subrange(s as int, i as int));
    }
    utf::string_of(v.as_slice())
}

pub struct NoHankakuKana;

impl NoHankakuKana {
    /// The name the rule reports under and is configured by.
    pub fn id(&self) -> (r: &'static str)
        ensures
            r@ == super::rule_ids()[7],
    {
        "no-hankaku-kana"
    }

    /// The kinds of block the rule looks at.
    pub fn scope(&self) -> (r: Scope)
        ensures
            r == super::scope_of(7),
    {
        Scope::text()
    }

    pub fn check(&mut self, blk: &BlockData, _ctx: &Ctx) -> (r: Vec<Report>)
        ensures
            models(r@) == concat_upto(
                |k: int| hankaku_at(blk.block.text@, blk.block.segments@, k),
                blk.block.text@.len() as int,
            ),
    {
        let ch = Chars::of(blk.text());
        let ghost cs = blk.block.text@;
        let mut out: Vec<Report> = Vec::new();
        proof {
            lemma_models_empty();
        }
        let mut k: usize = 0;
        let mut rs: usize = 0;
        while k < ch.cs.len()
            invariant
                ch.ok(cs),
                cs == blk.block.text@,
                k <= cs.len(),
                rs <= k,
                k < cs.len() ==> rs == kana_start(cs, k as int) || (k > 0 && !hankaku(cs[k - 1])),
                models(out@) == concat_upto(|j: int| hankaku_at(cs, blk.block.segments@, j), k as int),
            decreases cs.len() - k,
        {
            let c = ch.cs[k];
            if !(k > 0 && is_hankaku(ch.cs[k - 1])) {
                rs = k;
            }
            assert(rs == kana_start(cs, k as int));
            if is_hankaku(c) && (k + 1 == ch.cs.len() || !is_hankaku(ch.cs[k + 1])) {
                let b = ch.offs[rs];
                if !blk.in_link_or_emphasis(b) {
                    let run = substring(&ch.cs, rs, k + 1);
                    let fixed = nfkc(run.as_str());
                    let msg = utf::concat3("Disallow to use 半角カタカナ: \"", run.as_str(), "\"");
                    let r = Report::at(b, ch.offs[k + 1], msg).replace(fixed);
                    proof {
                        lemma_models_push(out@, r);
                    }
                    out.push(r);
                } else {
                    assert(models(out@) + Seq::<ReportModel>::empty() =~= models(out@));
                }
            } else {
                assert(models(out@) + Seq::<ReportModel>::empty() =~= models(out@));
            }
            k = k + 1;
        }
        out
    }
}

/// A maximal kanji run ending at character `k` that is longer than `max` in
/// UTF-16, not allowed, and not in a link or emphasis.
pub open spec fn kanji_at(cs: Seq<char>, segs: Seq<document::Segment>, opts: OptValue, k: int) -> Seq<ReportModel> {
    if kanji(cs[k]) && (k + 1 == cs.len() || !kanji(cs[k + 1])) {
        let s = kanji_start(cs, k);
        let run = cs.subrange(s, k + 1);
        let max = config::opt_usize_spec(opts, "max"@, 5);
        let allow = config::opt_strs_spec(opts, "allow"@, Seq::empty());
        let b = utf::boff(cs, s) as int;
        if utf::utf16_count(run) > max && !allow.contains(run) && !in_link_or_emphasis_spec(segs, b) {
            seq![found(b, utf::boff(cs, k + 1) as int, "漢字が"@ + utf::digits((max + 1) as nat, 10) + "つ以上連続しています: "@ + run)]
        } else {
            Seq::empty()
        }
    } else {
        Seq::empty()
    }
}

pub struct MaxKanjiContinuousLen;

impl MaxKanjiContinuousLen {
    /// The name the rule reports under and is configured by.
    pub fn id(&self) -> (r: &'static str)
        ensures
            r@ == super::rule_ids()[2],
    {
        "max-kanji-continuous-len"
    }

    /// The kinds of block the rule looks at.
    pub fn scope(&self) -> (r: Scope)
        ensures
            r == super::scope_of(2),
    {
        Scope::text()
    }

    pub fn check(&mut self, blk: &BlockData, ctx: &Ctx) -> (r: Vec<Report>)
        ensures
            models(r@) == concat_upto(
                |k: int| kanji_at(blk.block.text@, blk.block.segments@, *ctx.options, k),
                blk.block.text@.len() as int,
            ),
    {
        let opts = ctx.options;
        let max = config::opt_usize(opts, "max", 5);
        let allow = config::opt_strs(opts, "allow");
        let ch = Chars::of(blk.text());
        let ghost cs = blk.block.text@;
        let mut out: Vec<Report> = Vec::new();
        proof {
            lemma_models_empty();
        }
        let mut k: usize = 0;
        let mut rs: usize = 0;
        while k < ch.cs.len()
            invariant
                ch.ok(cs),
                cs == blk.block.text@,
                k <= cs.len(),
                rs <= k,
                opts == ctx.options,
                max == config::opt_usize_spec(*opts, "max"@, 5),
                config::views(allow@) == config::opt_strs_spec(*opts, "allow"@, Seq::empty()),
                k < cs.len() ==> rs == kanji_start(cs, k as int) || (k > 0 && !kanji(cs[k - 1])),
                models(out@) == concat_upto(|j: int| kanji_at(cs, blk.block.segments@, *opts, j), k as int),
            decreases cs.len() - k,
        {
            let c = ch.cs[k];
            if !(k > 0 && is_kanji(ch.cs[k - 1])) {
                rs = k;
            }
            assert(rs == kanji_start(cs, k as int));
            let mut pushed = false;
            if is_kanji(c) && (k + 1 == ch.cs.len() || !is_kanji(ch.cs[k + 1])) {
                let run = substring(&ch.cs, rs, k + 1);
                let n = utf::utf16_len(run.as_str());
                if n > max {
                    let mut allowed = false;
                    let mut j: usize = 0;
                    while j < allow.len()
                        invariant
                            j <= allow@.len(),
                            allowed == (exists|i: int| 0 <= i < j && #[trigger] allow@[i]@ == run@),
                        decreases allow@.len() - j,
                    {
                        if utf::str_eq(allow[j].as_str(), run.as_str()) {
                            allowed = true;
                        }
                        j = j + 1;
                    }
                    proof {
                        let av = config::views(allow@);
                        if allowed {
                            let i = choose|i: int| 0 <= i < allow@.len() && #[trigger] allow@[i]@ == run@;
                            assert(av[i] == run@);
                        }
                        if av.contains(run@) {
                            let i = choose|i: int| 0 <= i < av.len() && av[i] == run@;
                            assert(allow@[i]@ == run@);
                        }
                    }
                    let b = ch.offs[rs];
                    if !allowed && !blk.in_link_or_emphasis(b) {
                        let a = utf::concat3("漢字が", utf::decimal((max + 1) as u64).as_str(), "つ以上連続しています: ");
                        let msg = utf::concat_str(a.as_str(), run.as_str());
                        let r = Report::at(b, ch.offs[k + 1], msg);
                        proof {
                            lemma_models_push(out@, r);
                        }
                        out.push(r);
                        pushed = true;
                    }
                }
            }
            if !pushed {
                assert(models(out@) + Seq::<ReportModel>::empty() =~= models(out@));
            }
            k = k + 1;
        }
        out
    }
}

/// How often `c` occurs in `t`.
pub open spec fn count_of(t: Seq<char>, c: char) -> nat
    decreases t.len(),
{
    if t.len() == 0 {
        0
    } else {
        count_of(t.drop_last(), c) + if t.last() == c { 1nat } else { 0nat }
    }
}

/// Index of the last `c` in `t`, or -1.
pub open spec fn last_of(t: Seq<char>, c: char) -> int
    decreases t.len(),
{
    if t.len() == 0 {
        -1
    } else if t.last() == c {
        t.len() - 1
    } else {
        last_of(t.drop_last(), c)
    }
}

proof fn lemma_last_of(t: Seq<char>, c: char)
    ensures
        count_of(t, c) > 0 ==> 0 <= last_of(t, c) < t.len() && t[last_of(t, c)] == c,
    decreases t.len(),
{
    if t.len() > 0 {
        lemma_last_of(t.drop_last(), c);
    }
}

/// max-comma on sentence `i`: more than `max` commas report the last one.
pub open spec fn comma_at(cs: Seq<char>, sents: Seq<Sentence>, opts: OptValue, i: int) -> Seq<ReportModel> {
    let s = sents[i];
    let t = utf::chars_in_bytes(cs, s.byte_range.start as int, s.byte_range.end as int);
    let max = config::opt_usize_spec(opts, "max"@, 4);
    if count_of(t, ',') > max {
        let at = s.byte_range.start + utf::byte_len(t.take(last_of(t, ',')));
        seq![found(at, at + 1, "This sentence exceeds the maximum count of comma. Maximum is "@ + utf::digits(max as nat, 10) + "."@)]
    } else {
        Seq::empty()
    }
}

pub struct MaxComma;

impl MaxComma {
    /// The name the rule reports under and is configured by.
    pub fn id(&self) -> (r: &'static str)
        ensures
            r@ == super::rule_ids()[1],
    {
        "max-comma"
    }

    /// The kinds of block the rule looks at.
    pub fn scope(&self) -> (r: Scope)
        ensures
            r == super::scope_of(1),
    {
        Scope::prose()
    }

    pub fn check(&mut self, blk: &BlockData, ctx: &Ctx) -> (r: Vec<Report>)
        ensures
            models(r@) == concat_upto(
                |i: int| comma_at(blk.block.text@, blk.sentences@, *ctx.options, i),
                blk.sentences@.len() as int,
            ),
            models(r@) == comma_reports(blk.block.text@, blk.sentences@, *ctx.options),
    {
        let opts = ctx.options;
        let max = config::opt_usize(opts, "max", 4);
        let ch = Chars::of(blk.text());
        let ghost cs = blk.block.text@;
        let mut out: Vec<Report> = Vec::new();
        proof {
            lemma_models_empty();
        }
        let mut i: usize = 0;
        while i < blk.sentences.len()
            invariant
                ch.ok(cs),
                cs == blk.block.text@,
                i <= blk.sentences@.len(),
                opts == ctx.options,
                max == config::opt_usize_spec(*opts, "max"@, 4),
                models(out@) == concat_upto(|j: int| comma_at(cs, blk.sentences@, *opts, j), i as int),
            decreases blk.sentences@.len() - i,
        {
            let s = &blk.sentences[i];
            let t = document::chars_between(&ch.cs, &ch.offs, s.byte_range.start, s.byte_range.end);
            let mut count: usize = 0;
            let mut last: usize = 0;
            let mut j: usize = 0;
            while j < t.len()
                invariant
                    j <= t@.len(),
                    count == count_of(t@.take(j as int), ','),
                    count <= j,
                    count > 0 ==> last == last_of(t@.take(j as int), ','),
                decreases t@.len() - j,
            {
                assert(t@.take(j + 1).drop_last() =~= t@.take(j as int));
                if t[j] == ',' {
                    count = count + 1;
                    last = j;
                }
                j = j + 1;
            }
            assert(t@.take(j as int) =~= t@);
            if count > max {
                proof {
                    lemma_last_of(t@, ',');
                    utf::lemma_chars_in_bytes_bound(cs, s.byte_range.start as int, s.byte_range.end as int);
                    utf::lemma_take_bytes(t@, last as int);
                    utf::lemma_byte_len_ge_len(t@);
                }
                let toffs = utf::byte_offsets(&t);
                let at = s.byte_range.start + toffs[last];
                let a = utf::concat3("This sentence exceeds the maximum count of comma. Maximum is ", utf::decimal(max as u64).as_str(), ".");
                let r = Report::at(at, at + 1, a);
                proof {
                    lemma_models_push(out@, r);
                }
                out.push(r);
            } else {
                assert(models(out@) + Seq::<ReportModel>::empty() =~= models(out@));
            }
            i = i + 1;
        }
        out
    }
}

/// check-ends-with-period's own exception set, as textlint has it.
pub open spec fn period_exception(c: char) -> bool {
    c == '!' || c == '?' || c == '！' || c == '？' || c == ')' || c == '）' || c == '」' || c == '』'
}

/// `t` without its trailing white space.
pub open spec fn trim_end(t: Seq<char>) -> Seq<char> {
    t.take(t.len() - utf::trail_white(t))
}

/// ja-no-mixed-period on a paragraph: its last text must end with the period
/// mark. Only a paragraph whose last content is plain text is checked.
pub open spec fn period_reports(text: Seq<char>, segs: Seq<document::Segment>, opts: OptValue) -> Seq<ReportModel> {
    match document::last_content(text, segs) {
        None => Seq::empty(),
        Some(li) => {
            let last = segs[li];
            if last.kind != SegmentKind::Text || last.in_link || last.in_emphasis || last.in_strong {
                Seq::empty()
            } else {
                let prefer = config::opt_str_spec(opts, "periodMark"@, "。"@);
                let allowed = config::opt_strs_spec(opts, "allowPeriodMarks"@, Seq::empty()).push(prefer);
                let t = trim_end(utf::chars_in_bytes(text, last.text_start as int, last.text_end as int));
                let node = utf::chars_in_bytes(
                    text,
                    segs[document::node_start(segs, li, li)].text_start as int,
                    last.text_end as int,
                );
                if t.len() == 0 || !japanese(node) {
                    Seq::empty()
                } else {
                    let c = t.last();
                    let idx = last.text_start + utf::byte_len(t.drop_last());
                    if period_exception(c) || allowed.contains(seq![c]) {
                        Seq::empty()
                    } else {
                        let msg = "文末が\""@ + prefer + "\"で終わっていません。"@;
                        if c == '.' || c == '．' {
                            seq![found_fix(idx, idx + utf::utf8_width(c), msg, prefer)]
                        } else {
                            seq![found(idx, idx + utf::utf8_width(c), msg)]
                        }
                    }
                }
            }
        },
    }
}

/// ja-no-mixed-period: a paragraph must end with the configured period mark.
/// Like textlint, only a paragraph whose last node is plain text is checked;
/// one that ends in inline code or a link is left alone.
pub struct JaNoMixedPeriod;

impl JaNoMixedPeriod {
    /// The name the rule reports under and is configured by.
    pub fn id(&self) -> (r: &'static str)
        ensures
            r@ == super::rule_ids()[8],
    {
        "ja-no-mixed-period"
    }

    /// The kinds of block the rule looks at.
    pub fn scope(&self) -> (r: Scope)
        ensures
            r == super::scope_of(8),
    {
        Scope::paragraph()
    }

    pub fn check(&mut self, blk: &BlockData, ctx: &Ctx) -> (r: Vec<Report>)
        ensures
            models(r@) == period_reports(blk.block.text@, blk.block.segments@, *ctx.options),
    {
        proof {
            lemma_models_empty();
        }
        let last = match blk.block.last_content_segment() {
            Some(l) => l,
            None => return Vec::new(),
        };
        // textlint only checks a paragraph whose last child is a plain text node,
        // so inline code, a link and emphasis all end the check.
        if last.kind != SegmentKind::Text || last.in_link || last.in_emphasis || last.in_strong {
            return Vec::new();
        }
        let opts = ctx.options;
        let prefer = config::opt_str(opts, "periodMark", "。");
        let mut allowed = config::opt_strs(opts, "allowPeriodMarks");
        let ghost given = allowed@;
        allowed.push(prefer.clone());
        assert(config::views(allowed@) =~= config::views(given).push(prefer@));
        let ch = Chars::of(blk.text());
        let ghost cs = blk.block.text@;
        let piece = document::chars_between(&ch.cs, &ch.offs, last.text_start, last.text_end);
        let tw = utf::trail_white_in(&piece, 0, piece.len());
        assert(piece@.subrange(0, piece@.len() as int) =~= piece@);
        let tlen = piece.len() - tw;
        let ghost t = trim_end(piece@);
        // The "is this Japanese at all" test runs over the whole text node, which
        // is wider than this segment whenever a soft break splits one.
        let node_ok = match blk.block.last_text_node() {
            Some(node) => is_japanese(node.as_str()),
            None => false,
        };
        if tlen == 0 || !node_ok {
            return Vec::new();
        }
        let c = piece[tlen - 1];
        assert(t.last() == c);
        let cstr = utf::char_string(c);
        let mut hit = false;
        let mut j: usize = 0;
        while j < allowed.len()
            invariant
                j <= allowed@.len(),
                cstr@ == seq![c],
                hit == (exists|i: int| 0 <= i < j && #[trigger] allowed@[i]@ == seq![c]),
            decreases allowed@.len() - j,
        {
            if utf::str_eq(allowed[j].as_str(), cstr.as_str()) {
                hit = true;
            }
            j = j + 1;
        }
        proof {
            let av = config::views(allowed@);
            if hit {
                let i = choose|i: int| 0 <= i < allowed@.len() && #[trigger] allowed@[i]@ == seq![c];
                assert(av[i] == seq![c]);
            }
            if av.contains(seq![c]) {
                let i = choose|i: int| 0 <= i < av.len() && av[i] == seq![c];
                assert(allowed@[i]@ == seq![c]);
            }
        }
        if c == '!' || c == '?' || c == '！' || c == '？' || c == ')' || c == '）' || c == '」' || c == '』' || hit {
            return Vec::new();
        }
        proof {
            utf::lemma_chars_in_bytes_bound(cs, last.text_start as int, last.text_end as int);
            assert(t.drop_last() =~= piece@.take(tlen - 1));
            utf::lemma_take_bytes(piece@, tlen - 1);
            utf::lemma_byte_len_ge_len(piece@);
        }
        let poffs = utf::byte_offsets(&piece);
        let idx = last.text_start + poffs[tlen - 1];
        let msg = utf::concat3("文末が\"", prefer.as_str(), "\"で終わっていません。");
        let report = Report::at(idx, idx + utf::char_len_utf8(c), msg);
        let mut out: Vec<Report> = Vec::new();
        if c == '.' || c == '．' {
            out.push(report.replace(prefer));
        } else {
            out.push(report);
        }
        proof {
            assert(models(out@) =~= seq![out@[0].model()]);
        }
        out
    }
}

/// The segment choice sentence-length counts: with `skip_url`, the text of
/// links whose text is their own URL is left out.
pub open spec fn url_picks(segs: Seq<document::Segment>, skip_url: bool) -> Seq<bool> {
    Seq::new(segs.len(), |i: int| !(skip_url && segs[i].url_link))
}

/// Whether every segment is link text or a line break: a paragraph that is
/// only a link is not measured.
pub open spec fn link_only(segs: Seq<document::Segment>) -> bool {
    forall|i: int| 0 <= i < segs.len() ==> (#[trigger] segs[i]).in_link || segs[i].kind == SegmentKind::Break
}

/// The skip patterns a sentence-length rule uses: those it compiled before,
/// else the configured ones, or none when they do not compile.
pub open spec fn skip_patterns_for(cached: Option<Seq<config::MatcherSpec>>, opts: OptValue) -> Seq<config::MatcherSpec> {
    match cached {
        Some(p) => p,
        None => match config::matchers_spec(config::opt_strs_spec(opts, "skipPatterns"@, Seq::empty())) {
            Ok(ms) => ms,
            Err(_) => Seq::empty(),
        },
    }
}

/// The measured length of a sentence's counted text.
pub open spec fn measured(t: Seq<char>, opts: OptValue) -> nat {
    if config::opt_str_spec(opts, "countBy"@, "codeunits"@) == "codepoints"@ {
        t.len()
    } else {
        utf::utf16_count(t)
    }
}

/// sentence-length on sentence `i` of a block.
pub open spec fn length_at(
    blk: BlockData,
    src: Seq<char>,
    opts: OptValue,
    pats: Seq<config::MatcherSpec>,
    i: int,
) -> Seq<ReportModel> {
    let s = blk.sentences@[i];
    let segs = blk.block.segments@;
    let skip = config::opt_bool_spec(opts, "skipUrlStringLink"@, true);
    let t = config::remove_all(
        pats,
        document::picked_text(blk.block.text@, segs, url_picks(segs, skip), s.byte_range.start as int, s.byte_range.end as int),
    );
    let len = measured(t, opts);
    let max = config::opt_usize_spec(opts, "max"@, 100);
    let line = document::position_spec(src, document::to_source_spec(segs, s.byte_range.start as int)).0;
    if len > max {
        seq![
            found(
                s.byte_range.start as int,
                s.byte_range.end as int,
                "Line "@ + utf::digits(line as nat, 10) + " sentence length("@ + utf::digits(len, 10)
                    + ") exceeds the maximum sentence length of "@ + utf::digits(max as nat, 10) + ".\nOver "@
                    + utf::digits((len - max) as nat, 10) + " characters."@,
            ),
        ]
    } else {
        Seq::empty()
    }
}

/// sentence-length over a whole block.
pub open spec fn length_reports(blk: BlockData, src: Seq<char>, opts: OptValue, pats: Seq<config::MatcherSpec>) -> Seq<
    ReportModel,
> {
    if link_only(blk.block.segments@) {
        Seq::empty()
    } else {
        concat_upto(|i: int| length_at(blk, src, opts, pats, i), blk.sentences@.len() as int)
    }
}

/// sentence-length: at most `max` per sentence, counted in UTF-16 code units
/// (`countBy: codepoints` counts characters instead). Like textlint, a link
/// whose text is its own URL is not counted (`skipUrlStringLink`), a paragraph
/// that is only a link is skipped, and `skipPatterns` are removed before
/// counting.
pub struct SentenceLength {
    skip_patterns: Option<Vec<config::Matcher>>,
}

impl SentenceLength {
    /// The compiled skip patterns, once the first check has compiled them.
    pub closed spec fn cached(&self) -> Option<Seq<config::MatcherSpec>> {
        match self.skip_patterns {
            Some(v) => Some(config::matcher_views(v@)),
            None => None,
        }
    }

    pub closed spec fn inv(&self) -> bool {
        self.skip_patterns matches Some(v) ==> forall|i: int| 0 <= i < v@.len() ==> (#[trigger] v@[i]).wf()
    }

    pub fn new() -> (r: SentenceLength)
        ensures
            r.cached() is None,
            r.inv(),
    {
        SentenceLength { skip_patterns: None }
    }

    /// The name the rule reports under and is configured by.
    pub fn id(&self) -> (r: &'static str)
        ensures
            r@ == super::rule_ids()[0],
    {
        "sentence-length"
    }

    /// The kinds of block the rule looks at.
    pub fn scope(&self) -> (r: Scope)
        ensures
            r == super::scope_of(0),
    {
        Scope::prose()
    }

    /// The option errors this rule would otherwise swallow.
    pub fn validate(&self, options: &OptValue) -> (r: Result<(), String>)
        ensures
            r is Ok <==> (config::matchers_spec(config::opt_strs_spec(*options, "skipPatterns"@, Seq::empty())) is Ok
                && (config::opt_str_spec(*options, "countBy"@, "codeunits"@) == "codeunits"@
                || config::opt_str_spec(*options, "countBy"@, "codeunits"@) == "codepoints"@)),
            r matches Err(e) ==> match config::matchers_spec(config::opt_strs_spec(*options, "skipPatterns"@, Seq::empty())) {
                Err(m) => e@ == m,
                Ok(_) => e@ == "sentence-length.countBy: unknown value \""@ + config::opt_str_spec(
                    *options,
                    "countBy"@,
                    "codeunits"@,
                ) + "\". Use codeunits or codepoints."@,
            },
    {
        match config::matchers(options, "skipPatterns") {
            Err(e) => {
                return Err(e);
            },
            Ok(_) => {},
        }
        let by = config::opt_str(options, "countBy", "codeunits");
        if utf::str_eq(by.as_str(), "codeunits") || utf::str_eq(by.as_str(), "codepoints") {
            Ok(())
        } else {
            let a = utf::concat3("sentence-length.countBy: unknown value \"", by.as_str(), "\". Use codeunits or codepoints.");
            Err(a)
        }
    }

    pub fn check(&mut self, blk: &BlockData, ctx: &Ctx) -> (r: Vec<Report>)
        requires
            old(self).inv(),
            ctx.doc.wf(),
            blk.block.segs_wf(),
        ensures
            final(self).inv(),
            final(self).cached() == Some(skip_patterns_for(old(self).cached(), *ctx.options)),
            models(r@) == length_reports(*blk, ctx.doc.source@, *ctx.options, skip_patterns_for(old(self).cached(), *ctx.options)),
    {
        let opts = ctx.options;
        let max = config::opt_usize(opts, "max", 100);
        let skip_url = config::opt_bool(opts, "skipUrlStringLink", true);
        if self.skip_patterns.is_none() {
            let ms = match config::matchers(opts, "skipPatterns") {
                Ok(ms) => ms,
                Err(_) => {
                    let none: Vec<config::Matcher> = Vec::new();
                    assert(config::matcher_views(none@) =~= Seq::<config::MatcherSpec>::empty());
                    none
                },
            };
            self.skip_patterns = Some(ms);
        }
        let ghost pats = skip_patterns_for(old(self).cached(), *opts);
        assert(self.cached() == Some(pats));
        let by = config::opt_str(opts, "countBy", "codeunits");
        let by_points = utf::str_eq(by.as_str(), "codepoints");
        proof {
            reveal_strlit("codepoints");
        }
        let mut all_links = true;
        let mut k: usize = 0;
        while k < blk.block.segments.len()
            invariant
                k <= blk.block.segments@.len(),
                all_links == forall|j: int| 0 <= j < k ==> (#[trigger] blk.block.segments@[j]).in_link
                    || blk.block.segments@[j].kind == SegmentKind::Break,
            decreases blk.block.segments@.len() - k,
        {
            let sg = &blk.block.segments[k];
            if !(sg.in_link || sg.kind == SegmentKind::Break) {
                all_links = false;
            }
            k = k + 1;
        }
        if all_links {
            proof {
                lemma_models_empty();
            }
            return Vec::new();
        }
        let Some(pv) = &self.skip_patterns else { return Vec::new() };
        let mut out: Vec<Report> = Vec::new();
        proof {
            lemma_models_empty();
        }
        let mut i: usize = 0;
        while i < blk.sentences.len()
            invariant
                i <= blk.sentences@.len(),
                opts == ctx.options,
                ctx.doc.wf(),
                blk.block.segs_wf(),
                config::matcher_views(pv@) == pats,
                forall|j: int| 0 <= j < pv@.len() ==> (#[trigger] pv@[j]).wf(),
                max == config::opt_usize_spec(*opts, "max"@, 100),
                skip_url == config::opt_bool_spec(*opts, "skipUrlStringLink"@, true),
                by_points == (config::opt_str_spec(*opts, "countBy"@, "codeunits"@) == "codepoints"@),
                models(out@) == concat_upto(|j: int| length_at(*blk, ctx.doc.source@, *opts, pats, j), i as int),
            decreases blk.sentences@.len() - i,
        {
            let s = &blk.sentences[i];
            let range = s.byte_range.start..s.byte_range.end;
            let keep = |sg: &document::Segment| -> (b: bool)
                ensures
                    b == !(skip_url && sg.url_link),
                { !(skip_url && sg.url_link) };
            let mut text = blk.block.text_where(range, keep);
            let ghost segs = blk.block.segments@;
            proof {
                let picks = choose|picks: Seq<bool>|
                    {
                        &&& picks.len() == segs.len()
                        &&& forall|x: int| 0 <= x < picks.len() ==> keep.ensures((&segs[x],), #[trigger] picks[x])
                        &&& text@ == document::picked_text(
                            blk.block.text@,
                            segs,
                            picks,
                            s.byte_range.start as int,
                            s.byte_range.end as int,
                        )
                    };
                assert forall|x: int| 0 <= x < picks.len() implies #[trigger] picks[x] == url_picks(segs, skip_url)[x] by {
                    assert(keep.ensures((&segs[x],), picks[x]));
                }
                assert(picks =~= url_picks(segs, skip_url));
            }
            let ghost base = text@;
            let mut m: usize = 0;
            while m < pv.len()
                invariant
                    m <= pv@.len(),
                    forall|j: int| 0 <= j < pv@.len() ==> (#[trigger] pv@[j]).wf(),
                    text@ == config::remove_all(config::matcher_views(pv@).take(m as int), base),
                decreases pv@.len() - m,
            {
                let next = pv[m].remove_from(text.as_str());
                proof {
                    let vs = config::matcher_views(pv@);
                    assert(vs.take(m + 1).drop_last() =~= vs.take(m as int));
                    assert(vs.take(m + 1).last() == pv@[m as int]@);
                }
                text = next;
                m = m + 1;
            }
            assert(config::matcher_views(pv@).take(m as int) =~= pats);
            let len = if by_points {
                utf::chars_of(text.as_str()).len()
            } else {
                utf::utf16_len(text.as_str())
            };
            if len > max {
                let line = ctx.line_of(blk, s.byte_range.start);
                let msg = utf::concat3("Line ", utf::decimal(line as u64).as_str(), " sentence length(");
                let msg = utf::concat3(msg.as_str(), utf::decimal(len as u64).as_str(), ") exceeds the maximum sentence length of ");
                let msg = utf::concat3(msg.as_str(), utf::decimal(max as u64).as_str(), ".\nOver ");
                let msg = utf::concat3(msg.as_str(), utf::decimal((len - max) as u64).as_str(), " characters.");
                let r = Report::at(s.byte_range.start, s.byte_range.end, msg);
                proof {
                    lemma_models_push(out@, r);
                    reveal_strlit("Line ");
                }
                out.push(r);
            } else {
                assert(models(out@) + Seq::<ReportModel>::empty() =~= models(out@));
            }
            i = i + 1;
        }
        out
    }
}

/// A no-zero-width-spaces finding for character `k` of `cs`: its byte range,
/// the fixed message, and a fix that deletes it.
pub open spec fn zws_finding(cs: Seq<char>, k: int, r: ReportModel) -> bool {
    &&& r.start == utf::boff(cs, k)
    &&& r.end == utf::boff(cs, k + 1)
    &&& r.message == "Zero width space is disallowed."@
    &&& r.fix == Some((r.start, r.end, Seq::<char>::empty()))
}

/// What no-zero-width-spaces reports on a block text `cs`.
pub open spec fn zws_reports(cs: Seq<char>) -> Seq<ReportModel> {
    concat_upto(|k: int| zws_at(cs, k), cs.len() as int)
}

/// Report `r` is the finding for some U+200B of `cs`.
pub open spec fn on_zws(cs: Seq<char>, r: ReportModel) -> bool {
    exists|k: int| 0 <= k < cs.len() && cs[k] == '\u{200B}' && #[trigger] zws_finding(cs, k, r)
}

proof fn zws_hit(cs: Seq<char>, k: int) -> (x: int)
    requires
        0 <= k < cs.len(),
        cs[k] == '\u{200B}',
    ensures
        0 <= x < zws_reports(cs).len(),
        zws_finding(cs, k, zws_reports(cs)[x]),
{
    let f = |k: int| zws_at(cs, k);
    utf::lemma_take_step(cs, k);
    assert(f(k).len() == 1);
    concat_upto_index(f, cs.len() as int, k, 0)
}

proof fn zws_source(cs: Seq<char>, x: int) -> (k: int)
    requires
        0 <= x < zws_reports(cs).len(),
    ensures
        0 <= k < cs.len(),
        cs[k] == '\u{200B}',
        zws_finding(cs, k, zws_reports(cs)[x]),
{
    let f = |k: int| zws_at(cs, k);
    let (k, y) = concat_upto_source(f, cs.len() as int, x);
    utf::lemma_take_step(cs, k);
    assert(f(k).len() > 0);
    k
}

/// no-zero-width-spaces reports each U+200B of the text, over its bytes and
/// with a fix that deletes it, and reports nothing anywhere else.
pub proof fn lemma_zws_reports(cs: Seq<char>)
    ensures
        forall|k: int|
            #![trigger cs[k]]
            0 <= k < cs.len() && cs[k] == '\u{200B}' ==> exists|x: int|
                0 <= x < zws_reports(cs).len() && #[trigger] zws_finding(cs, k, zws_reports(cs)[x]),
        forall|x: int| 0 <= x < zws_reports(cs).len() ==> on_zws(cs, #[trigger] zws_reports(cs)[x]),
{
    assert forall|k: int| #![trigger cs[k]] 0 <= k < cs.len() && cs[k] == '\u{200B}' implies exists|x: int|
        0 <= x < zws_reports(cs).len() && #[trigger] zws_finding(cs, k, zws_reports(cs)[x]) by {
        let x = zws_hit(cs, k);
    }
    assert forall|x: int| 0 <= x < zws_reports(cs).len() implies on_zws(cs, #[trigger] zws_reports(cs)[x]) by {
        let k = zws_source(cs, x);
    }
}

/// The characters of sentence `s` of block text `cs`.
pub open spec fn sentence_text(cs: Seq<char>, s: Sentence) -> Seq<char> {
    utf::chars_in_bytes(cs, s.byte_range.start as int, s.byte_range.end as int)
}

/// How many ',' characters `t` holds.
pub open spec fn comma_count(t: Seq<char>) -> nat {
    t.filter(|c: char| c == ',').len()
}

/// The max-comma finding for sentence `i`: the sentence holds more ',' than
/// `max`, and `r` marks its last ',' with the rule's message.
pub open spec fn comma_finding(cs: Seq<char>, sents: Seq<Sentence>, opts: OptValue, i: int, r: ReportModel) -> bool {
    let t = sentence_text(cs, sents[i]);
    let max = config::opt_usize_spec(opts, "max"@, 4);
    &&& comma_count(t) > max
    &&& exists|j: int|
        #![trigger t[j]]
        0 <= j < t.len() && t[j] == ',' && (forall|j2: int| j < j2 < t.len() ==> t[j2] != ',') && r == found(
            sents[i].byte_range.start + utf::byte_len(t.take(j)),
            sents[i].byte_range.start + utf::byte_len(t.take(j)) + 1,
            "This sentence exceeds the maximum count of comma. Maximum is "@ + utf::digits(max as nat, 10) + "."@,
        )
}

/// Report `r` is the max-comma finding of one of the sentences.
pub open spec fn from_comma_sentence(cs: Seq<char>, sents: Seq<Sentence>, opts: OptValue, r: ReportModel) -> bool {
    exists|i: int| 0 <= i < sents.len() && #[trigger] comma_finding(cs, sents, opts, i, r)
}

/// What max-comma reports on a block.
pub open spec fn comma_reports(cs: Seq<char>, sents: Seq<Sentence>, opts: OptValue) -> Seq<ReportModel> {
    concat_upto(|i: int| comma_at(cs, sents, opts, i), sents.len() as int)
}

proof fn lemma_comma_count(t: Seq<char>)
    ensures
        count_of(t, ',') == comma_count(t),
        count_of(t, ',') > 0 ==> forall|j2: int| last_of(t, ',') < j2 < t.len() ==> t[j2] != ',',
    decreases t.len(),
{
    reveal(Seq::filter);
    if t.len() > 0 {
        lemma_comma_count(t.drop_last());
        lemma_last_of(t.drop_last(), ',');
        if t.last() != ',' && count_of(t, ',') > 0 {
            assert forall|j2: int| last_of(t, ',') < j2 < t.len() implies t[j2] != ',' by {
                if j2 < t.len() - 1 {
                    assert(t[j2] == t.drop_last()[j2]);
                }
            }
        }
    }
}

proof fn comma_source(cs: Seq<char>, sents: Seq<Sentence>, opts: OptValue, x: int) -> (i: int)
    requires
        0 <= x < comma_reports(cs, sents, opts).len(),
    ensures
        0 <= i < sents.len(),
        comma_finding(cs, sents, opts, i, comma_reports(cs, sents, opts)[x]),
{
    let f = |i: int| comma_at(cs, sents, opts, i);
    let (i, y) = concat_upto_source(f, sents.len() as int, x);
    let t = sentence_text(cs, sents[i]);
    lemma_comma_count(t);
    lemma_last_of(t, ',');
    assert(f(i).len() > 0);
    let j = last_of(t, ',');
    assert(t[j] == ',');
    i
}

proof fn comma_hit(cs: Seq<char>, sents: Seq<Sentence>, opts: OptValue, i: int) -> (x: int)
    requires
        0 <= i < sents.len(),
        comma_count(sentence_text(cs, sents[i])) > config::opt_usize_spec(opts, "max"@, 4),
    ensures
        0 <= x < comma_reports(cs, sents, opts).len(),
        comma_finding(cs, sents, opts, i, comma_reports(cs, sents, opts)[x]),
{
    let f = |i: int| comma_at(cs, sents, opts, i);
    let t = sentence_text(cs, sents[i]);
    lemma_comma_count(t);
    lemma_last_of(t, ',');
    assert(f(i).len() == 1);
    let x = concat_upto_index(f, sents.len() as int, i, 0);
    let j = last_of(t, ',');
    assert(t[j] == ',');
    x
}

/// max-comma reports exactly the sentences holding more ',' than `max`, one
/// finding each, on the sentence's last ','; a sentence with at most `max`
/// commas is never reported.
pub proof fn lemma_comma_reports(cs: Seq<char>, sents: Seq<Sentence>, opts: OptValue)
    ensures
        forall|x: int|
            0 <= x < comma_reports(cs, sents, opts).len() ==> from_comma_sentence(
                cs,
                sents,
                opts,
                #[trigger] comma_reports(cs, sents, opts)[x],
            ),
        forall|i: int|
            #![trigger sents[i]]
            0 <= i < sents.len() && comma_count(sentence_text(cs, sents[i])) > config::opt_usize_spec(opts, "max"@, 4)
                ==> exists|x: int|
                0 <= x < comma_reports(cs, sents, opts).len() && #[trigger] comma_finding(
                    cs,
                    sents,
                    opts,
                    i,
                    comma_reports(cs, sents, opts)[x],
                ),
{
    assert forall|x: int| 0 <= x < comma_reports(cs, sents, opts).len() implies from_comma_sentence(
        cs,
        sents,
        opts,
        #[trigger] comma_reports(cs, sents, opts)[x],
    ) by {
        let i = comma_source(cs, sents, opts, x);
    }
    assert forall|i: int|
        #![trigger sents[i]]
        0 <= i < sents.len() && comma_count(sentence_text(cs, sents[i])) > config::opt_usize_spec(opts, "max"@, 4) implies exists|x: int|
        0 <= x < comma_reports(cs, sents, opts).len() && #[trigger] comma_finding(
            cs,
            sents,
            opts,
            i,
            comma_reports(cs, sents, opts)[x],
        ) by {
        let x = comma_hit(cs, sents, opts, i);
    }
}

} // verus!
