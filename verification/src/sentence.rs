//! Sentence splitting over block text, following textlint's sentence-splitter:
//! a sentence ends at 。！？ (or their ASCII forms), never inside an open
//! bracket or quote pair, and never at a line break. An ASCII period only
//! counts when followed by whitespace or the end of the block, so
//! `GitHub.com` stays whole.

use crate::tokenizer::Token;
use crate::utf;
use std::ops::Range;
use vstd::prelude::*;

verus! {

pub struct Sentence {
    /// Byte range within the block text, separators included, whitespace trimmed.
    pub byte_range: Range<usize>,
    /// Index range into the block's token list.
    pub tokens: Range<usize>,
}

/// Characters that end a sentence. Rules that count within a sentence share
/// this list so they never disagree with the splitter about boundaries.
pub const TERMINATORS: [char; 6] = ['。', '！', '？', '!', '?', '．'];

pub open spec fn is_term(c: char) -> bool {
    c == '。' || c == '！' || c == '？' || c == '!' || c == '?' || c == '．'
}

/// The closing character of a bracket or quote pair that `c` opens.
pub open spec fn closer_of(c: char) -> Option<char> {
    if c == '「' {
        Some('」')
    } else if c == '『' {
        Some('』')
    } else if c == '（' {
        Some('）')
    } else if c == '(' {
        Some(')')
    } else if c == '[' {
        Some(']')
    } else if c == '{' {
        Some('}')
    } else if c == '【' {
        Some('】')
    } else if c == '《' {
        Some('》')
    } else if c == '〈' {
        Some('〉')
    } else if c == '“' {
        Some('”')
    } else {
        None
    }
}

/// Whether character `i` ends a sentence: a terminator, or an ASCII period
/// followed by white space or the end of the text.
pub open spec fn ends_at(cs: Seq<char>, i: int) -> bool {
    if cs[i] == '.' {
        i + 1 >= cs.len() || utf::is_white(cs[i + 1])
    } else {
        is_term(cs[i])
    }
}

/// The last character of the run of sentence ends starting at `j`
/// ("!?" and "。。" end one sentence).
pub open spec fn run_end(cs: Seq<char>, j: int) -> int
    decreases cs.len() - j,
{
    if 0 <= j && j + 1 < cs.len() && ends_at(cs, j + 1) {
        run_end(cs, j + 1)
    } else {
        j
    }
}

/// Number of leading tokens that start before byte `x` (the partition point).
pub open spec fn lead_count(toks: Seq<Token>, x: int) -> nat
    decreases toks.len(),
{
    if toks.len() == 0 {
        0
    } else if toks[0].byte_start < x {
        1 + lead_count(toks.drop_first(), x)
    } else {
        0
    }
}

/// The sentence made of characters `[a, b)` once white space is trimmed from
/// both ends, or nothing when only white space is left.
pub open spec fn sentence_of(cs: Seq<char>, toks: Seq<Token>, a: int, b: int) -> Seq<Sentence> {
    let sub = cs.subrange(a, b);
    let la = utf::lead_white(sub) as int;
    let rest = sub.skip(la);
    if rest.len() == 0 {
        Seq::empty()
    } else {
        let ts = utf::boff(cs, a + la);
        let te = utf::boff(cs, b - utf::trail_white(rest));
        seq![
            Sentence {
                byte_range: Range { start: ts as usize, end: te as usize },
                tokens: Range {
                    start: lead_count(toks, ts as int) as usize,
                    end: lead_count(toks, te as int) as usize,
                },
            },
        ]
    }
}

/// The sentences from character `i` on, when the current sentence started at
/// character `a` and `open` holds the closers of the pairs still open.
pub open spec fn split_from(cs: Seq<char>, toks: Seq<Token>, i: int, a: int, open: Seq<char>) -> Seq<
    Sentence,
>
    decreases cs.len() - i,
{
    if i < 0 || i >= cs.len() {
        sentence_of(cs, toks, a, cs.len() as int)
    } else {
        let ch = cs[i];
        if closer_of(ch) is Some {
            split_from(cs, toks, i + 1, a, open.push(closer_of(ch)->0))
        } else if open.len() > 0 && open.last() == ch {
            split_from(cs, toks, i + 1, a, open.drop_last())
        } else if ch == '"' {
            if open.len() > 0 && open.last() == '"' {
                split_from(cs, toks, i + 1, a, open.drop_last())
            } else {
                split_from(cs, toks, i + 1, a, open.push('"'))
            }
        } else if open.len() == 0 && ends_at(cs, i) {
            proof {
                lemma_run_end(cs, i);
            }
            let e = run_end(cs, i) + 1;
            sentence_of(cs, toks, a, e) + split_from(cs, toks, e, e, open)
        } else {
            split_from(cs, toks, i + 1, a, open)
        }
    }
}

/// The sentences of a block text whose tokens are `toks`.
pub open spec fn split_spec(cs: Seq<char>, toks: Seq<Token>) -> Seq<Sentence> {
    split_from(cs, toks, 0, 0, Seq::empty())
}

pub proof fn lemma_run_end(cs: Seq<char>, j: int)
    requires
        0 <= j < cs.len(),
    ensures
        j <= run_end(cs, j) < cs.len(),
    decreases cs.len() - j,
{
    if j + 1 < cs.len() && ends_at(cs, j + 1) {
        lemma_run_end(cs, j + 1);
    }
}

/// A sentence's byte range lies in the text and its token range in the token list.
pub open spec fn sentence_ok(s: Sentence, text_len: int, tok_len: int) -> bool {
    &&& s.byte_range.start <= s.byte_range.end <= text_len
    &&& s.tokens.start <= s.tokens.end <= tok_len
}

pub proof fn lemma_lead_count_mono(toks: Seq<Token>, x: int, y: int)
    requires
        x <= y,
    ensures
        lead_count(toks, x) <= lead_count(toks, y) <= toks.len(),
    decreases toks.len(),
{
    if toks.len() > 0 {
        lemma_lead_count_mono(toks.drop_first(), x, y);
    }
}

proof fn lemma_trail_le(cs: Seq<char>)
    ensures
        utf::trail_white(cs) <= cs.len(),
        cs.len() > 0 && !utf::is_white(cs[0]) ==> utf::trail_white(cs) < cs.len(),
    decreases cs.len(),
{
    if cs.len() > 0 {
        lemma_trail_le(cs.drop_last());
        if cs.len() > 1 {
            assert(cs.drop_last()[0] == cs[0]);
        }
    }
}

proof fn lemma_lead_le(cs: Seq<char>)
    ensures
        utf::lead_white(cs) <= cs.len(),
        utf::lead_white(cs) < cs.len() ==> !utf::is_white(cs[utf::lead_white(cs) as int]),
    decreases cs.len(),
{
    if cs.len() > 0 {
        lemma_lead_le(cs.drop_first());
        if utf::is_white(cs[0]) && utf::lead_white(cs) < cs.len() {
            assert(cs.drop_first()[utf::lead_white(cs.drop_first()) as int] == cs[utf::lead_white(cs) as int]);
        }
    }
}

pub proof fn lemma_sentence_of_ok(cs: Seq<char>, toks: Seq<Token>, a: int, b: int)
    requires
        0 <= a <= b <= cs.len(),
        utf::byte_len(cs) <= usize::MAX,
        toks.len() <= usize::MAX,
    ensures
        forall|k: int| 0 <= k < sentence_of(cs, toks, a, b).len() ==> sentence_ok(
            #[trigger] sentence_of(cs, toks, a, b)[k],
            utf::byte_len(cs) as int,
            toks.len() as int,
        ),
{
    let sub = cs.subrange(a, b);
    let la = utf::lead_white(sub) as int;
    let rest = sub.skip(la);
    lemma_lead_le(sub);
    if rest.len() > 0 {
        assert(rest[0] == sub[la]);
        lemma_trail_le(rest);
        let tw = utf::trail_white(rest) as int;
        utf::lemma_prefix_le(cs, a + la, b - tw);
        utf::lemma_prefix_le(cs, b - tw, cs.len() as int);
        assert(cs.take(cs.len() as int) =~= cs);
        let ts = utf::boff(cs, a + la);
        let te = utf::boff(cs, b - tw);
        lemma_lead_count_mono(toks, ts as int, te as int);
        let out = sentence_of(cs, toks, a, b);
        assert(out.len() == 1);
        assert(sentence_ok(out[0], utf::byte_len(cs) as int, toks.len() as int));
    }
}

pub proof fn lemma_split_from_ok(cs: Seq<char>, toks: Seq<Token>, i: int, a: int, open: Seq<char>)
    requires
        0 <= a <= i,
        a <= cs.len(),
        utf::byte_len(cs) <= usize::MAX,
        toks.len() <= usize::MAX,
    ensures
        forall|k: int| 0 <= k < split_from(cs, toks, i, a, open).len() ==> sentence_ok(
            #[trigger] split_from(cs, toks, i, a, open)[k],
            utf::byte_len(cs) as int,
            toks.len() as int,
        ),
    decreases cs.len() - i,
{
    let r = split_from(cs, toks, i, a, open);
    if i >= cs.len() {
        lemma_sentence_of_ok(cs, toks, a, cs.len() as int);
    } else {
        let ch = cs[i];
        if closer_of(ch) is Some {
            assert(r == split_from(cs, toks, i + 1, a, open.push(closer_of(ch)->0)));
            lemma_split_from_ok(cs, toks, i + 1, a, open.push(closer_of(ch)->0));
        } else if open.len() > 0 && open.last() == ch {
            assert(r == split_from(cs, toks, i + 1, a, open.drop_last()));
            lemma_split_from_ok(cs, toks, i + 1, a, open.drop_last());
        } else if ch == '"' {
            if open.len() > 0 && open.last() == '"' {
                assert(r == split_from(cs, toks, i + 1, a, open.drop_last()));
                lemma_split_from_ok(cs, toks, i + 1, a, open.drop_last());
            } else {
                assert(r == split_from(cs, toks, i + 1, a, open.push('"')));
                lemma_split_from_ok(cs, toks, i + 1, a, open.push('"'));
            }
        } else if open.len() == 0 && ends_at(cs, i) {
            lemma_run_end(cs, i);
            let e = run_end(cs, i) + 1;
            lemma_sentence_of_ok(cs, toks, a, e);
            lemma_split_from_ok(cs, toks, e, e, open);
            let s1 = sentence_of(cs, toks, a, e);
            let s2 = split_from(cs, toks, e, e, open);
            assert(r == s1 + s2);
            assert forall|k: int| 0 <= k < r.len() implies sentence_ok(#[trigger] r[k], utf::byte_len(cs) as int, toks.len() as int) by {
                if k < s1.len() {
                    assert(r[k] == s1[k]);
                } else {
                    assert(r[k] == s2[k - s1.len()]);
                }
            }
        } else {
            assert(r == split_from(cs, toks, i + 1, a, open));
            lemma_split_from_ok(cs, toks, i + 1, a, open);
        }
    }
}

/// Sentence `s` is the characters `[p, q)` of `cs`: it starts and ends on a
/// character that is not white space.
pub open spec fn sentence_at(cs: Seq<char>, s: Sentence, p: int, q: int) -> bool {
    &&& 0 <= p < q <= cs.len()
    &&& s.byte_range.start == utf::boff(cs, p)
    &&& s.byte_range.end == utf::boff(cs, q)
    &&& !utf::is_white(cs[p])
    &&& !utf::is_white(cs[q - 1])
}

/// Byte `b` lies inside sentence `s`.
pub open spec fn covers(s: Sentence, b: int) -> bool {
    s.byte_range.start <= b < s.byte_range.end
}

proof fn lemma_lead_all(cs: Seq<char>)
    ensures
        forall|t: int| 0 <= t < utf::lead_white(cs) ==> utf::is_white(#[trigger] cs[t]),
    decreases cs.len(),
{
    lemma_lead_le(cs);
    if cs.len() > 0 && utf::is_white(cs[0]) {
        lemma_lead_all(cs.drop_first());
        assert forall|t: int| 0 <= t < utf::lead_white(cs) implies utf::is_white(#[trigger] cs[t]) by {
            if t > 0 {
                assert(cs[t] == cs.drop_first()[t - 1]);
            }
        }
    }
}

proof fn lemma_trail_all(cs: Seq<char>)
    ensures
        utf::trail_white(cs) <= cs.len(),
        forall|t: int| cs.len() - utf::trail_white(cs) <= t < cs.len() ==> utf::is_white(#[trigger] cs[t]),
        utf::trail_white(cs) < cs.len() ==> !utf::is_white(cs[cs.len() - 1 - utf::trail_white(cs)]),
    decreases cs.len(),
{
    if cs.len() > 0 && utf::is_white(cs.last()) {
        lemma_trail_all(cs.drop_last());
        assert forall|t: int| cs.len() - utf::trail_white(cs) <= t < cs.len() implies utf::is_white(#[trigger] cs[t]) by {
            if t < cs.len() - 1 {
                assert(cs[t] == cs.drop_last()[t]);
            }
        }
        if utf::trail_white(cs) < cs.len() {
            assert(cs[cs.len() - 1 - utf::trail_white(cs)] == cs.drop_last()[cs.drop_last().len() - 1 - utf::trail_white(
                cs.drop_last(),
            )]);
        }
    }
}

proof fn lemma_sentence_of_shape(cs: Seq<char>, toks: Seq<Token>, a: int, b: int) -> (pq: (int, int))
    requires
        0 <= a <= b <= cs.len(),
        utf::byte_len(cs) <= usize::MAX,
    ensures
        sentence_of(cs, toks, a, b).len() <= 1,
        sentence_of(cs, toks, a, b).len() == 1 ==> sentence_at(cs, sentence_of(cs, toks, a, b)[0], pq.0, pq.1)
            && a <= pq.0 && pq.1 <= b,
        forall|j: int| a <= j < b && !utf::is_white(#[trigger] cs[j]) ==> sentence_of(cs, toks, a, b).len() == 1
            && pq.0 <= j < pq.1,
{
    let sub = cs.subrange(a, b);
    let la = utf::lead_white(sub) as int;
    let rest = sub.skip(la);
    lemma_lead_le(sub);
    lemma_lead_all(sub);
    assert forall|j: int| a <= j < a + la implies utf::is_white(#[trigger] cs[j]) by {
        assert(cs[j] == sub[j - a]);
    }
    if rest.len() == 0 {
        (0, 0)
    } else {
        assert(rest[0] == sub[la]);
        lemma_trail_le(rest);
        lemma_trail_all(rest);
        let tw = utf::trail_white(rest) as int;
        let p = a + la;
        let q = b - tw;
        assert(cs[p] == sub[la]);
        assert(cs[q - 1] == rest[rest.len() - 1 - tw]);
        assert forall|j: int| q <= j < b implies utf::is_white(#[trigger] cs[j]) by {
            assert(cs[j] == rest[j - p]);
        }
        utf::lemma_prefix_le(cs, p, q);
        utf::lemma_prefix_le(cs, q, cs.len() as int);
        assert(cs.take(cs.len() as int) =~= cs);
        (p, q)
    }
}

/// Every sentence of `ss` is a trimmed, non-empty stretch of `cs` at or after
/// character `a`.
pub open spec fn sentences_at(cs: Seq<char>, a: int, ss: Seq<Sentence>) -> bool {
    forall|k: int| 0 <= k < ss.len() ==> sentence_in(cs, a, #[trigger] ss[k])
}

/// Sentence `s` is a trimmed, non-empty stretch of `cs` at or after character `a`.
pub open spec fn sentence_in(cs: Seq<char>, a: int, s: Sentence) -> bool {
    exists|p: int, q: int| a <= p && #[trigger] sentence_at(cs, s, p, q)
}

/// Each sentence ends before the next one starts.
pub open spec fn sentences_ordered(ss: Seq<Sentence>) -> bool {
    forall|k: int| 0 <= k < ss.len() - 1 ==> (#[trigger] ss[k]).byte_range.end <= ss[k + 1].byte_range.start
}

/// Every character of `cs` from `a` on that is not white space lies in one of
/// the sentences.
pub open spec fn sentences_cover(cs: Seq<char>, a: int, ss: Seq<Sentence>) -> bool {
    forall|j: int| #![trigger cs[j]] a <= j < cs.len() && !utf::is_white(cs[j]) ==> exists|k: int|
        0 <= k < ss.len() && #[trigger] covers(ss[k], utf::boff(cs, j) as int)
}

/// Sentences `ss` of `cs` from character `a` on: trimmed and non-empty, in
/// order, and covering every character that is not white space.
pub open spec fn split_shape(cs: Seq<char>, a: int, ss: Seq<Sentence>) -> bool {
    &&& sentences_at(cs, a, ss)
    &&& sentences_ordered(ss)
    &&& sentences_cover(cs, a, ss)
}

proof fn lemma_shape_last(cs: Seq<char>, toks: Seq<Token>, a: int)
    requires
        0 <= a <= cs.len(),
        utf::byte_len(cs) <= usize::MAX,
    ensures
        split_shape(cs, a, sentence_of(cs, toks, a, cs.len() as int)),
{
    let r = sentence_of(cs, toks, a, cs.len() as int);
    let pq = lemma_sentence_of_shape(cs, toks, a, cs.len() as int);
    if r.len() == 1 {
        assert(sentence_at(cs, r[0], pq.0, pq.1));
    }
    assert forall|j: int| #![trigger cs[j]] a <= j < cs.len() && !utf::is_white(cs[j]) implies exists|k: int|
        0 <= k < r.len() && #[trigger] covers(r[k], utf::boff(cs, j) as int) by {
        utf::lemma_prefix_le(cs, pq.0, j);
        utf::lemma_boff_strict(cs, j, pq.1);
        assert(covers(r[0], utf::boff(cs, j) as int));
    }
}

proof fn lemma_concat_at(cs: Seq<char>, a: int, e: int, s1: Seq<Sentence>, s2: Seq<Sentence>, p1: int, q1: int)
    requires
        a <= e,
        s1.len() <= 1,
        s1.len() == 1 ==> sentence_at(cs, s1[0], p1, q1) && a <= p1,
        sentences_at(cs, e, s2),
    ensures
        sentences_at(cs, a, s1 + s2),
{
    assert forall|k: int| 0 <= k < (s1 + s2).len() implies sentence_in(cs, a, #[trigger] (s1 + s2)[k]) by {
        if k < s1.len() {
            assert((s1 + s2)[k] == s1[k]);
            assert(sentence_at(cs, (s1 + s2)[k], p1, q1));
        } else {
            assert((s1 + s2)[k] == s2[k - s1.len()]);
            assert(sentence_in(cs, e, s2[k - s1.len()]));
            let (p, q) = choose|p: int, q: int| e <= p && #[trigger] sentence_at(cs, s2[k - s1.len()], p, q);
            assert(sentence_at(cs, (s1 + s2)[k], p, q));
        }
    }
}

proof fn lemma_concat_ordered(cs: Seq<char>, e: int, s1: Seq<Sentence>, s2: Seq<Sentence>, p1: int, q1: int)
    requires
        0 <= e <= cs.len(),
        s1.len() <= 1,
        s1.len() == 1 ==> sentence_at(cs, s1[0], p1, q1) && q1 <= e,
        sentences_at(cs, e, s2),
        sentences_ordered(s2),
    ensures
        sentences_ordered(s1 + s2),
{
    assert forall|k: int| 0 <= k < (s1 + s2).len() - 1 implies (#[trigger] (s1 + s2)[k]).byte_range.end <= (s1 + s2)[k + 1].byte_range.start by {
        if k < s1.len() {
            assert((s1 + s2)[k] == s1[0]);
            assert((s1 + s2)[k + 1] == s2[0]);
            assert(sentence_in(cs, e, s2[0]));
            let (p, q) = choose|p: int, q: int| e <= p && #[trigger] sentence_at(cs, s2[0], p, q);
            utf::lemma_prefix_le(cs, q1, e);
            utf::lemma_prefix_le(cs, e, p);
        } else {
            assert((s1 + s2)[k] == s2[k - s1.len()]);
            assert((s1 + s2)[k + 1] == s2[k + 1 - s1.len()]);
        }
    }
}

proof fn lemma_concat_cover(cs: Seq<char>, a: int, e: int, s1: Seq<Sentence>, s2: Seq<Sentence>, p1: int, q1: int)
    requires
        0 <= a <= e <= cs.len(),
        s1.len() <= 1,
        s1.len() == 1 ==> sentence_at(cs, s1[0], p1, q1),
        forall|j: int| a <= j < e && !utf::is_white(#[trigger] cs[j]) ==> s1.len() == 1 && p1 <= j < q1,
        sentences_cover(cs, e, s2),
    ensures
        sentences_cover(cs, a, s1 + s2),
{
    assert forall|j: int| #![trigger cs[j]] a <= j < cs.len() && !utf::is_white(cs[j]) implies exists|k: int|
        0 <= k < (s1 + s2).len() && #[trigger] covers((s1 + s2)[k], utf::boff(cs, j) as int) by {
        if j < e {
            utf::lemma_prefix_le(cs, p1, j);
            utf::lemma_boff_strict(cs, j, q1);
            assert((s1 + s2)[0] == s1[0]);
            assert(covers((s1 + s2)[0], utf::boff(cs, j) as int));
        } else {
            let k = choose|k: int| 0 <= k < s2.len() && #[trigger] covers(s2[k], utf::boff(cs, j) as int);
            assert((s1 + s2)[k + s1.len()] == s2[k]);
            assert(covers((s1 + s2)[k + s1.len()], utf::boff(cs, j) as int));
        }
    }
}

proof fn lemma_shape_concat(cs: Seq<char>, toks: Seq<Token>, a: int, e: int, s2: Seq<Sentence>)
    requires
        0 <= a <= e <= cs.len(),
        utf::byte_len(cs) <= usize::MAX,
        split_shape(cs, e, s2),
    ensures
        split_shape(cs, a, sentence_of(cs, toks, a, e) + s2),
{
    let pq = lemma_sentence_of_shape(cs, toks, a, e);
    let s1 = sentence_of(cs, toks, a, e);
    lemma_concat_at(cs, a, e, s1, s2, pq.0, pq.1);
    lemma_concat_ordered(cs, e, s1, s2, pq.0, pq.1);
    lemma_concat_cover(cs, a, e, s1, s2, pq.0, pq.1);
}

proof fn lemma_split_from_shape(cs: Seq<char>, toks: Seq<Token>, i: int, a: int, open: Seq<char>)
    requires
        0 <= a <= i,
        a <= cs.len(),
        utf::byte_len(cs) <= usize::MAX,
    ensures
        split_shape(cs, a, split_from(cs, toks, i, a, open)),
    decreases cs.len() - i,
{
    if i >= cs.len() {
        lemma_shape_last(cs, toks, a);
    } else {
        let ch = cs[i];
        if closer_of(ch) is Some {
            lemma_split_from_shape(cs, toks, i + 1, a, open.push(closer_of(ch)->0));
        } else if open.len() > 0 && open.last() == ch {
            lemma_split_from_shape(cs, toks, i + 1, a, open.drop_last());
        } else if ch == '"' {
            if open.len() > 0 && open.last() == '"' {
                lemma_split_from_shape(cs, toks, i + 1, a, open.drop_last());
            } else {
                lemma_split_from_shape(cs, toks, i + 1, a, open.push('"'));
            }
        } else if open.len() == 0 && ends_at(cs, i) {
            lemma_run_end(cs, i);
            let e = run_end(cs, i) + 1;
            lemma_split_from_shape(cs, toks, e, e, open);
            lemma_shape_concat(cs, toks, a, e, split_from(cs, toks, e, e, open));
        } else {
            lemma_split_from_shape(cs, toks, i + 1, a, open);
        }
    }
}

/// The sentences of a block text are trimmed, non-empty stretches of it, in
/// order, and every character that is not white space lies in one of them.
pub proof fn lemma_split_shape(cs: Seq<char>, toks: Seq<Token>)
    requires
        utf::byte_len(cs) <= usize::MAX,
    ensures
        split_shape(cs, 0, split_spec(cs, toks)),
{
    lemma_split_from_shape(cs, toks, 0, 0, Seq::empty());
}

pub fn is_terminator(c: char) -> (b: bool)
    ensures
        b == is_term(c),
{
    c == '。' || c == '！' || c == '？' || c == '!' || c == '?' || c == '．'
}

fn closer(c: char) -> (r: Option<char>)
    ensures
        r == closer_of(c),
{
    if c == '「' {
        Some('」')
    } else if c == '『' {
        Some('』')
    } else if c == '（' {
        Some('）')
    } else if c == '(' {
        Some(')')
    } else if c == '[' {
        Some(']')
    } else if c == '{' {
        Some('}')
    } else if c == '【' {
        Some('】')
    } else if c == '《' {
        Some('》')
    } else if c == '〈' {
        Some('〉')
    } else if c == '“' {
        Some('”')
    } else {
        None
    }
}

fn ends_here(cs: &Vec<char>, i: usize) -> (b: bool)
    requires
        i < cs.len(),
    ensures
        b == ends_at(cs@, i as int),
{
    if cs[i] == '.' {
        i + 1 >= cs.len() || utf::is_white_char(cs[i + 1])
    } else {
        is_terminator(cs[i])
    }
}

/// The partition point of `toks` for "starts before byte `x`".
pub fn leading_before(toks: &[Token], x: usize) -> (k: usize)
    ensures
        k == lead_count(toks@, x as int),
{
    let mut k: usize = 0;
    while k < toks.len() && toks[k].byte_start < x
        invariant
            k <= toks@.len(),
            forall|i: int| 0 <= i < k ==> #[trigger] toks@[i].byte_start < x,
        decreases toks@.len() - k,
    {
        k = k + 1;
    }
    proof {
        lemma_lead_count(toks@, x as int, k as int);
    }
    k
}

pub proof fn lemma_lead_count(toks: Seq<Token>, x: int, k: int)
    requires
        0 <= k <= toks.len(),
        forall|i: int| 0 <= i < k ==> #[trigger] toks[i].byte_start < x,
        k == toks.len() || toks[k].byte_start >= x,
    ensures
        lead_count(toks, x) == k,
    decreases toks.len(),
{
    if toks.len() > 0 && k > 0 {
        assert forall|i: int| 0 <= i < k - 1 implies #[trigger] toks.drop_first()[i].byte_start < x by {
            assert(toks.drop_first()[i] == toks[i + 1]);
        }
        lemma_lead_count(toks.drop_first(), x, k - 1);
    }
}

/// Appends the sentence of characters `[a, b)`, if any text is left once trimmed.
fn push(
    cs: &Vec<char>,
    offs: &Vec<usize>,
    tokens: &[Token],
    out: &mut Vec<Sentence>,
    a: usize,
    b: usize,
)
    requires
        a <= b <= cs.len(),
        offs@.len() == cs@.len() + 1,
        forall|k: int| 0 <= k <= cs@.len() ==> #[trigger] offs@[k] == utf::boff(cs@, k),
    ensures
        final(out)@ == old(out)@ + sentence_of(cs@, tokens@, a as int, b as int),
{
    let ghost sub = cs@.subrange(a as int, b as int);
    let la = utf::lead_white_in(cs, a, b);
    if a + la == b {
        assert(sub.skip(la as int).len() == 0);
        assert(old(out)@ + Seq::<Sentence>::empty() =~= old(out)@);
        return;
    }
    let ghost rest = sub.skip(la as int);
    let tw = utf::trail_white_in(cs, a + la, b);
    assert(cs@.subrange(a + la, b as int) =~= rest);
    let ts = offs[a + la];
    let te = offs[b - tw];
    let first = leading_before(tokens, ts);
    let last = leading_before(tokens, te);
    out.push(Sentence { byte_range: Range { start: ts, end: te }, tokens: Range { start: first, end: last } });
}

/// Splits block text into sentences, each with the range of `tokens` (sorted
/// by start) that it covers.
pub fn split(text: &str, tokens: &[Token]) -> (r: Vec<Sentence>)
    ensures
        r@ == split_spec(text@, tokens@),
{
    let cs = utf::chars_of(text);
    let total = utf::str_len(text);
    let offs = utf::byte_offsets(&cs);
    let ghost toks = tokens@;
    let mut sentences: Vec<Sentence> = Vec::new();
    let mut start: usize = 0;
    let mut open: Vec<char> = Vec::new();
    let mut i: usize = 0;
    while i < cs.len()
        invariant
            cs@ == text@,
            toks == tokens@,
            offs@.len() == cs@.len() + 1,
            forall|k: int| 0 <= k <= cs@.len() ==> #[trigger] offs@[k] == utf::boff(cs@, k),
            start <= i <= cs.len(),
            sentences@ + split_from(cs@, toks, i as int, start as int, open@) == split_spec(cs@, toks),
        decreases cs.len() - i,
    {
        let ch = cs[i];
        let c = closer(ch);
        if let Some(close) = c {
            open.push(close);
            i = i + 1;
        } else if open.len() > 0 && open[open.len() - 1] == ch {
            open.pop();
            i = i + 1;
        } else if ch == '"' {
            if open.len() > 0 && open[open.len() - 1] == '"' {
                open.pop();
            } else {
                open.push('"');
            }
            i = i + 1;
        } else if open.len() == 0 && ends_here(&cs, i) {
            // Absorb a run of terminators such as "!?" or "。。".
            let mut j = i;
            while j + 1 < cs.len() && ends_here(&cs, j + 1)
                invariant
                    i <= j < cs.len(),
                    run_end(cs@, i as int) == run_end(cs@, j as int),
                decreases cs.len() - j,
            {
                j = j + 1;
            }
            let ghost before = sentences@;
            push(&cs, &offs, tokens, &mut sentences, start, j + 1);
            assert(sentences@ + split_from(cs@, toks, (j + 1) as int, (j + 1) as int, open@) =~= before
                + (sentence_of(cs@, toks, start as int, (j + 1) as int) + split_from(
                cs@,
                toks,
                (j + 1) as int,
                (j + 1) as int,
                open@,
            )));
            start = j + 1;
            i = j + 1;
        } else {
            i = i + 1;
        }
    }
    let ghost before = sentences@;
    push(&cs, &offs, tokens, &mut sentences, start, cs.len());
    assert(sentences@ =~= before + split_from(cs@, toks, i as int, start as int, open@));
    sentences
}

} // verus!
