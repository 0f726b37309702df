//! Morphological analysis behind a backend-neutral interface.
//!
//! Rules only ever see [`Token`], whose feature columns follow the IPADIC
//! (MeCab) layout: pos, pos_detail_1..3, conjugated_type, conjugated_form,
//! basic_form, reading, pronunciation. Any analyzer that ships IPADIC can sit
//! behind [`Morphology`] without touching a rule.

use crate::utf;
use vstd::prelude::*;

verus! {

/// Number of IPADIC feature columns a token carries.
pub const COLUMNS: usize = 9;

pub struct Token {
    pub surface: String,
    /// Byte offsets within the analyzed text.
    pub byte_start: usize,
    pub byte_end: usize,
    /// The feature columns, in IPADIC order.
    pub features: [String; 9],
}

/// The text a missing feature column reads as.
pub open spec fn star() -> Seq<char> {
    seq!['*']
}

/// Column `i` of a token built from the given feature list: the list's entry,
/// or `*` past its end.
pub open spec fn feature_col(features: Seq<&str>, i: int) -> Seq<char> {
    if i < features.len() {
        features[i]@
    } else {
        star()
    }
}

/// The pos column reads as a particle (`助詞`), which is also true for merged
/// 連語 whose pos reads "助詞助詞".
pub open spec fn is_joshi_spec(pos: Seq<char>) -> bool {
    pos.len() >= 2 && pos[0] == '助' && pos[1] == '詞'
}

impl Token {
    /// Feature column `i` (0 = pos, 1..3 = pos details, 4 = conjugated type,
    /// 5 = conjugated form, 6 = basic form, 7 = reading, 8 = pronunciation).
    pub open spec fn col(&self, i: int) -> Seq<char> {
        self.features@[i]@
    }

    pub open spec fn pos_spec(&self) -> Seq<char> {
        self.col(0)
    }

    pub open spec fn pd1_spec(&self) -> Seq<char> {
        self.col(1)
    }

    pub open spec fn ctype_spec(&self) -> Seq<char> {
        self.col(4)
    }

    pub open spec fn cform_spec(&self) -> Seq<char> {
        self.col(5)
    }

    pub open spec fn base_spec(&self) -> Seq<char> {
        self.col(6)
    }

    pub open spec fn reading_spec(&self) -> Seq<char> {
        self.col(7)
    }

    /// A token of `surface` spanning `[byte_start, byte_end)`, whose feature
    /// columns are `features` in IPADIC order; missing columns read `*`.
    pub fn new(surface: &str, features: &[&str], byte_start: usize, byte_end: usize) -> (t: Token)
        ensures
            t.surface@ == surface@,
            t.byte_start == byte_start,
            t.byte_end == byte_end,
            forall|i: int| 0 <= i < 9 ==> #[trigger] t.col(i) == feature_col(features@, i),
    {
        let f0 = column(features, 0);
        let f1 = column(features, 1);
        let f2 = column(features, 2);
        let f3 = column(features, 3);
        let f4 = column(features, 4);
        let f5 = column(features, 5);
        let f6 = column(features, 6);
        let f7 = column(features, 7);
        let f8 = column(features, 8);
        let t = Token {
            surface: surface.to_string(),
            byte_start,
            byte_end,
            features: [f0, f1, f2, f3, f4, f5, f6, f7, f8],
        };
        assert forall|i: int| 0 <= i < 9 implies #[trigger] t.col(i) == feature_col(features@, i) by {
            if i == 0 {
            } else if i == 1 {
            } else if i == 2 {
            } else if i == 3 {
            } else if i == 4 {
            } else if i == 5 {
            } else if i == 6 {
            } else if i == 7 {
            } else {
            }
        }
        t
    }

    fn feat(&self, i: usize) -> (r: &str)
        requires
            i < 9,
        ensures
            r@ == self.col(i as int),
    {
        self.features[i].as_str()
    }

    pub fn pos(&self) -> (r: &str)
        ensures
            r@ == self.col(0),
    {
        self.feat(0)
    }

    pub fn pos_detail_1(&self) -> (r: &str)
        ensures
            r@ == self.col(1),
    {
        self.feat(1)
    }

    pub fn pos_detail_2(&self) -> (r: &str)
        ensures
            r@ == self.col(2),
    {
        self.feat(2)
    }

    pub fn pos_detail_3(&self) -> (r: &str)
        ensures
            r@ == self.col(3),
    {
        self.feat(3)
    }

    pub fn conjugated_type(&self) -> (r: &str)
        ensures
            r@ == self.col(4),
    {
        self.feat(4)
    }

    pub fn conjugated_form(&self) -> (r: &str)
        ensures
            r@ == self.col(5),
    {
        self.feat(5)
    }

    pub fn basic_form(&self) -> (r: &str)
        ensures
            r@ == self.col(6),
    {
        self.feat(6)
    }

    pub fn reading(&self) -> (r: &str)
        ensures
            r@ == self.col(7),
    {
        self.feat(7)
    }

    /// Whether this token is a particle.
    pub fn is_joshi(&self) -> (b: bool)
        ensures
            b == is_joshi_spec(self.col(0)),
    {
        is_joshi_pos(self.pos())
    }

    /// Whether the surface is empty once trimmed.
    pub fn is_whitespace(&self) -> (b: bool)
        ensures
            b == utf::all_white(self.surface@),
    {
        let cs = utf::chars_of(self.surface.as_str());
        assert(cs@.subrange(0, cs@.len() as int) =~= cs@);
        utf::all_white_in(&cs, 0, cs.len())
    }
}

fn column(features: &[&str], i: usize) -> (s: String)
    ensures
        s@ == feature_col(features@, i as int),
{
    if i < features.len() {
        features[i].to_string()
    } else {
        let s = "*";
        proof {
            reveal_strlit("*");
        }
        s.to_string()
    }
}

impl Clone for Token {
    fn clone(&self) -> (r: Self)
        ensures
            r == *self,
    {
        let t = Token {
            surface: self.surface.clone(),
            byte_start: self.byte_start,
            byte_end: self.byte_end,
            features: [
                self.features[0].clone(),
                self.features[1].clone(),
                self.features[2].clone(),
                self.features[3].clone(),
                self.features[4].clone(),
                self.features[5].clone(),
                self.features[6].clone(),
                self.features[7].clone(),
                self.features[8].clone(),
            ],
        };
        assert(t.features =~= self.features);
        t
    }
}

/// Whether an IPADIC pos column is a particle (also true for merged 連語
/// whose pos reads "助詞助詞").
pub fn is_joshi_pos(pos: &str) -> (b: bool)
    ensures
        b == is_joshi_spec(pos@),
{
    let cs = utf::chars_of(pos);
    cs.len() >= 2 && cs[0] == '助' && cs[1] == '詞'
}

/// A morphological analyzer producing IPADIC-style tokens, in order, with
/// byte spans inside the given text.
pub trait Morphology: Send + Sync {
    fn segment(&self, text: &str) -> Vec<Token>;
}

pub struct Tokenizer {
    backend: Box<dyn Morphology>,
}

/// The tokens a backend reported that a rule may rely on: each kept token
/// starts at or after the end of the previous kept one, does not end before it
/// starts, and ends inside the text. `end` is where the last kept token ended.
pub open spec fn kept_tokens(toks: Seq<Token>, end: int, len: int) -> Seq<Token>
    decreases toks.len(),
{
    if toks.len() == 0 {
        Seq::empty()
    } else {
        let t = toks[0];
        if t.byte_start >= end && t.byte_end >= t.byte_start && t.byte_end <= len {
            seq![t] + kept_tokens(toks.drop_first(), t.byte_end as int, len)
        } else {
            kept_tokens(toks.drop_first(), end, len)
        }
    }
}

/// Tokens of `len` bytes of text whose spans are in order and inside the text.
pub open spec fn monotone_tokens(toks: Seq<Token>, len: int) -> bool {
    &&& forall|i: int| 0 <= i < toks.len() ==> #[trigger] toks[i].byte_start <= toks[i].byte_end <= len
    &&& forall|i: int, j: int| 0 <= i < j < toks.len() ==> #[trigger] toks[i].byte_end <= #[trigger] toks[j].byte_start
}

impl Tokenizer {
    /// Whether `b` is the backend this tokenizer segments with.
    pub closed spec fn segments_with(&self, b: Box<dyn Morphology>) -> bool {
        self.backend == b
    }

    pub fn with_backend(backend: Box<dyn Morphology>) -> (t: Tokenizer)
        ensures
            t.segments_with(backend),
    {
        Tokenizer { backend }
    }

    /// Tokens of `text`, dropping anything the backend reports out of order or
    /// outside the text so rules can rely on monotonic spans. The backend is
    /// whatever `Morphology` implementation the caller supplied, and the trait
    /// promises nothing of what `segment` returns, so the contract says which
    /// of the backend's tokens are kept (`kept_tokens`, exact over any list)
    /// but not which tokens the backend reports for a given text.
    pub fn tokenize(&self, text: &str) -> (r: Vec<Token>)
        ensures
            exists|raw: Seq<Token>| r@ == kept_tokens(raw, 0, utf::byte_len(text@) as int),
            monotone_tokens(r@, utf::byte_len(text@) as int),
    {
        let raw = self.backend.segment(text);
        let r = keep_in_order(raw, utf::str_len(text));
        proof {
            lemma_kept_monotone(raw@, 0, utf::byte_len(text@) as int);
        }
        r
    }
}

/// Keeps the tokens `kept_tokens` describes, in order.
pub fn keep_in_order(raw: Vec<Token>, len: usize) -> (r: Vec<Token>)
    ensures
        r@ == kept_tokens(raw@, 0, len as int),
{
    let mut out: Vec<Token> = Vec::new();
    let mut end: usize = 0;
    let ghost all = raw@;
    let mut i: usize = 0;
    assert(all.skip(0) =~= all);
    assert(out@ + kept_tokens(all, 0, len as int) =~= kept_tokens(all, 0, len as int));
    while i < raw.len()
        invariant
            all == raw@,
            i <= raw.len(),
            out@ + kept_tokens(all.skip(i as int), end as int, len as int) == kept_tokens(all, 0, len as int),
        decreases raw.len() - i,
    {
        let t = raw[i].clone();
        assert(all.skip(i as int).drop_first() =~= all.skip(i + 1));
        assert(all.skip(i as int)[0] == all[i as int]);
        let ok = t.byte_start >= end && t.byte_end >= t.byte_start && t.byte_end <= len;
        let ghost old_out = out@;
        if ok {
            end = t.byte_end;
            out.push(t);
            assert(out@ =~= old_out + seq![all[i as int]]);
            assert(old_out + (seq![all[i as int]] + kept_tokens(all.skip(i + 1), end as int, len as int))
                =~= out@ + kept_tokens(all.skip(i + 1), end as int, len as int));
        }
        i = i + 1;
    }
    assert(all.skip(i as int) =~= Seq::<Token>::empty());
    assert(out@ + Seq::<Token>::empty() =~= out@);
    out
}

pub proof fn lemma_kept_monotone(toks: Seq<Token>, end: int, len: int)
    requires
        end >= 0,
    ensures
        monotone_tokens(kept_tokens(toks, end, len), len),
        forall|i: int| 0 <= i < kept_tokens(toks, end, len).len() ==> end <= #[trigger] kept_tokens(toks, end, len)[i].byte_start,
    decreases toks.len(),
{
    if toks.len() > 0 {
        let t = toks[0];
        if t.byte_start >= end && t.byte_end >= t.byte_start && t.byte_end <= len {
            lemma_kept_monotone(toks.drop_first(), t.byte_end as int, len);
        } else {
            lemma_kept_monotone(toks.drop_first(), end, len);
        }
    }
}

} // verus!
