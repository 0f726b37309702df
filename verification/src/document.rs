//! Markdown -> linting blocks.
//!
//! A block is one unit of prose (paragraph, heading, list item, table cell)
//! with inline markup stripped. Every byte of block text maps back to a byte
//! in the source through `segments`, so diagnostics point at the original
//! Markdown, not at the stripped text. Segments also remember what inline
//! construct they came from, so rules can honour textlint's node exclusions
//! (a kanji run inside a link, a paragraph that ends in inline code).

use crate::utf;
use pulldown_cmark::Event::{Code, End, HardBreak, SoftBreak, Start, Text};
use pulldown_cmark::{Options, Parser, Tag};
use vstd::prelude::*;
use vstd::string::StringExecFns;

verus! {

/// Length in UTF-16 code units, the unit textlint measures in because its
/// rules run on JavaScript strings.
pub fn utf16_len(s: &str) -> (n: usize)
    ensures
        n == utf::utf16_count(s@),
{
    utf::utf16_len(s)
}

#[derive(Debug, Clone, Copy, PartialEq, Eq, Structural)]
pub enum BlockKind {
    Paragraph,
    Heading,
    ListItem,
    TableCell,
}

/// What a run of block text came from.
#[derive(Debug, Clone, Copy, PartialEq, Eq, Structural)]
pub enum SegmentKind {
    Text,
    /// Inline code, masked in the block text.
    Code,
    /// A soft or hard line break, "\n" in the block text.
    Break,
}

/// A run of block text that came from one run of source text.
#[derive(Debug, Clone, Copy, PartialEq, Eq, Structural)]
pub struct Segment {
    pub text_start: usize,
    pub text_end: usize,
    pub src_start: usize,
    pub src_end: usize,
    pub kind: SegmentKind,
    /// Inside `[...](url)`; `url_link` when the link text is its own URL.
    pub in_link: bool,
    pub url_link: bool,
    /// Inside `*em*`. Kept apart from `in_strong` because textlint's rules
    /// exclude the two node types separately.
    pub in_emphasis: bool,
    /// Inside `**strong**`.
    pub in_strong: bool,
}

impl Segment {
    /// Both ranges run forwards.
    pub open spec fn wf(&self) -> bool {
        self.text_start <= self.text_end && self.src_start <= self.src_end
    }

    /// Text and source have the same byte length, so offsets inside map 1:1.
    pub open spec fn is_verbatim(&self) -> bool {
        self.text_end - self.text_start == self.src_end - self.src_start
    }

    fn verbatim(&self) -> (b: bool)
        requires
            self.wf(),
        ensures
            b == self.is_verbatim(),
    {
        self.text_end - self.text_start == self.src_end - self.src_start
    }
}

#[derive(Debug)]
pub struct Block {
    pub kind: BlockKind,
    pub text: String,
    pub segments: Vec<Segment>,
    pub in_blockquote: bool,
}

/// The source range a fix over block text `[start, end)` may rewrite: only
/// one inside a single verbatim segment, mapped through it.
pub open spec fn fix_range_spec(segs: Seq<Segment>, start: int, end: int) -> Option<(int, int)> {
    match last_start_le(segs, start) {
        Some(i) => if last_start_lt(segs, end) == Some(i) && segs[i].is_verbatim() && segs[i].text_start <= start
            && start <= end && end <= segs[i].text_end {
            Some((segs[i].src_start + (start - segs[i].text_start), segs[i].src_start + (end - segs[i].text_start)))
        } else {
            None
        },
        None => None,
    }
}

/// Index of the last segment starting at or before `b`. For segments in text
/// order this is the partition point of "starts at or before `b`", minus one.
pub open spec fn last_start_le(segs: Seq<Segment>, b: int) -> Option<int>
    decreases segs.len(),
{
    if segs.len() == 0 {
        None
    } else if segs.last().text_start <= b {
        Some(segs.len() - 1)
    } else {
        last_start_le(segs.drop_last(), b)
    }
}

/// Index of the last segment starting strictly before `b`.
pub open spec fn last_start_lt(segs: Seq<Segment>, b: int) -> Option<int>
    decreases segs.len(),
{
    if segs.len() == 0 {
        None
    } else if segs.last().text_start < b {
        Some(segs.len() - 1)
    } else {
        last_start_lt(segs.drop_last(), b)
    }
}

/// Where a span starting at text byte `b` starts in the source.
pub open spec fn to_source_spec(segs: Seq<Segment>, b: int) -> int {
    match last_start_le(segs, b) {
        None => if segs.len() > 0 {
            segs[0].src_start as int
        } else {
            0
        },
        Some(i) => {
            let seg = segs[i];
            if b >= seg.text_end {
                seg.src_end as int
            } else if b == seg.text_start {
                seg.src_start as int
            } else if seg.is_verbatim() {
                seg.src_start + (b - seg.text_start)
            } else {
                seg.src_end as int
            }
        },
    }
}

/// Where a span ending at text byte `b` ends in the source.
pub open spec fn to_source_end_spec(segs: Seq<Segment>, b: int) -> int {
    match last_start_lt(segs, b) {
        None => if segs.len() > 0 {
            segs[0].src_start as int
        } else {
            0
        },
        Some(i) => {
            let seg = segs[i];
            if b >= seg.text_end || !seg.is_verbatim() {
                seg.src_end as int
            } else {
                seg.src_start + (b - seg.text_start)
            }
        },
    }
}

/// The text of a segment holds nothing but white space.
pub open spec fn blank_segment(text: Seq<char>, s: Segment) -> bool {
    utf::all_white(utf::chars_in_bytes(text, s.text_start as int, s.text_end as int))
}

/// Index of the last segment holding non-whitespace text.
pub open spec fn last_content(text: Seq<char>, segs: Seq<Segment>) -> Option<int>
    decreases segs.len(),
{
    if segs.len() == 0 {
        None
    } else if !blank_segment(text, segs.last()) {
        Some(segs.len() - 1)
    } else {
        last_content(text, segs.drop_last())
    }
}

/// Two segments come from the same inline context of a text node.
pub open spec fn same_context(s: Segment, last: Segment) -> bool {
    s.kind != SegmentKind::Code && s.in_link == last.in_link && s.url_link == last.url_link
        && s.in_emphasis == last.in_emphasis && s.in_strong == last.in_strong
}

/// The first segment of the run of segments before `end` that share its context.
pub open spec fn node_start(segs: Seq<Segment>, end: int, start: int) -> int
    decreases start,
{
    if start > 0 && same_context(segs[start - 1], segs[end]) {
        node_start(segs, end, start - 1)
    } else {
        start
    }
}

/// The block text within `[lo, hi)` of the segments `picks` selects.
pub open spec fn picked_text(text: Seq<char>, segs: Seq<Segment>, picks: Seq<bool>, lo: int, hi: int) -> Seq<char>
    decreases segs.len(),
{
    if segs.len() == 0 || picks.len() == 0 {
        Seq::empty()
    } else {
        let s = segs.last();
        let a = if s.text_start > lo { s.text_start as int } else { lo };
        let b = if s.text_end < hi { s.text_end as int } else { hi };
        let piece = if picks.last() && a < b { utf::chars_in_bytes(text, a, b) } else { Seq::empty() };
        picked_text(text, segs.drop_last(), picks.drop_last(), lo, hi) + piece
    }
}

proof fn lemma_last_start_le_range(segs: Seq<Segment>, b: int)
    ensures
        last_start_le(segs, b) matches Some(i) ==> 0 <= i < segs.len() && segs[i].text_start <= b,
    decreases segs.len(),
{
    if segs.len() > 0 {
        lemma_last_start_le_range(segs.drop_last(), b);
    }
}

proof fn lemma_last_start_lt_range(segs: Seq<Segment>, b: int)
    ensures
        last_start_lt(segs, b) matches Some(i) ==> 0 <= i < segs.len() && segs[i].text_start < b,
    decreases segs.len(),
{
    if segs.len() > 0 {
        lemma_last_start_lt_range(segs.drop_last(), b);
    }
}

proof fn lemma_last_content_range(text: Seq<char>, segs: Seq<Segment>)
    ensures
        last_content(text, segs) matches Some(i) ==> 0 <= i < segs.len() && !blank_segment(text, segs[i]),
    decreases segs.len(),
{
    if segs.len() > 0 {
        lemma_last_content_range(text, segs.drop_last());
    }
}

proof fn lemma_node_start_range(segs: Seq<Segment>, end: int, start: int)
    requires
        0 <= start,
    ensures
        0 <= node_start(segs, end, start) <= start,
    decreases start,
{
    if start > 0 && same_context(segs[start - 1], segs[end]) {
        lemma_node_start_range(segs, end, start - 1);
    }
}

proof fn lemma_last_start_le(segs: Seq<Segment>, b: int, i: int)
    requires
        0 <= i <= segs.len(),
        forall|k: int| i <= k < segs.len() ==> #[trigger] segs[k].text_start > b,
        i == 0 || segs[i - 1].text_start <= b,
    ensures
        last_start_le(segs, b) == (if i == 0 { None } else { Some(i - 1) }),
    decreases segs.len(),
{
    if segs.len() > 0 && i < segs.len() {
        assert forall|k: int| i <= k < segs.drop_last().len() implies #[trigger] segs.drop_last()[k].text_start > b by {
            assert(segs.drop_last()[k] == segs[k]);
        }
        if i > 0 {
            assert(segs.drop_last()[i - 1] == segs[i - 1]);
        }
        lemma_last_start_le(segs.drop_last(), b, i);
    }
}

proof fn lemma_last_start_lt(segs: Seq<Segment>, b: int, i: int)
    requires
        0 <= i <= segs.len(),
        forall|k: int| i <= k < segs.len() ==> #[trigger] segs[k].text_start >= b,
        i == 0 || segs[i - 1].text_start < b,
    ensures
        last_start_lt(segs, b) == (if i == 0 { None } else { Some(i - 1) }),
    decreases segs.len(),
{
    if segs.len() > 0 && i < segs.len() {
        assert forall|k: int| i <= k < segs.drop_last().len() implies #[trigger] segs.drop_last()[k].text_start >= b by {
            assert(segs.drop_last()[k] == segs[k]);
        }
        if i > 0 {
            assert(segs.drop_last()[i - 1] == segs[i - 1]);
        }
        lemma_last_start_lt(segs.drop_last(), b, i);
    }
}

proof fn lemma_last_content(text: Seq<char>, segs: Seq<Segment>, i: int)
    requires
        0 <= i <= segs.len(),
        forall|k: int| i <= k < segs.len() ==> #[trigger] blank_segment(text, segs[k]),
        i == 0 || !blank_segment(text, segs[i - 1]),
    ensures
        last_content(text, segs) == (if i == 0 { None } else { Some(i - 1) }),
    decreases segs.len(),
{
    if segs.len() > 0 && i < segs.len() {
        assert forall|k: int| i <= k < segs.drop_last().len() implies #[trigger] blank_segment(
            text,
            segs.drop_last()[k],
        ) by {
            assert(segs.drop_last()[k] == segs[k]);
        }
        if i > 0 {
            assert(segs.drop_last()[i - 1] == segs[i - 1]);
        }
        lemma_last_content(text, segs.drop_last(), i);
    }
}

/// The characters of `cs` whose first byte lies in `[lo, hi)`.
pub fn chars_between(cs: &Vec<char>, offs: &Vec<usize>, lo: usize, hi: usize) -> (r: Vec<char>)
    requires
        offs@.len() == cs@.len() + 1,
        forall|k: int| 0 <= k <= cs@.len() ==> #[trigger] offs@[k] == utf::boff(cs@, k),
    ensures
        r@ == utf::chars_in_bytes(cs@, lo as int, hi as int),
{
    let mut out: Vec<char> = Vec::new();
    let mut k: usize = 0;
    while k < cs.len()
        invariant
            k <= cs.len(),
            offs@.len() == cs@.len() + 1,
            forall|j: int| 0 <= j <= cs@.len() ==> #[trigger] offs@[j] == utf::boff(cs@, j),
            out@ == utf::chars_in_bytes(cs@.take(k as int), lo as int, hi as int),
        decreases cs.len() - k,
    {
        let ghost p = cs@.take(k + 1);
        assert(p.drop_last() =~= cs@.take(k as int));
        assert(p.take(k as int) =~= cs@.take(k as int));
        assert(p.last() == cs@[k as int]);
        if lo <= offs[k] && offs[k] < hi {
            out.push(cs[k]);
        }
        k = k + 1;
    }
    assert(cs@.take(k as int) =~= cs@);
    out
}

impl Block {
    /// Every segment's ranges run forwards.
    pub open spec fn segs_wf(&self) -> bool {
        forall|i: int| 0 <= i < self.segments@.len() ==> (#[trigger] self.segments@[i]).wf()
    }

    /// Segments tile the block text in order, each starting where the previous
    /// one ended, and each range runs forwards.
    pub open spec fn wf(&self) -> bool {
        &&& self.segs_wf()
        &&& forall|i: int| 0 <= i < self.segments@.len() - 1 ==> #[trigger] self.segments@[i].text_end == self.segments@[i + 1].text_start
        &&& self.segments@.len() > 0 ==> self.segments@[0].text_start == 0
        &&& self.segments@.len() > 0 ==> self.segments@.last().text_end == utf::byte_len(self.text@)
    }

    /// The segment a block-text byte offset falls in. An offset on the
    /// boundary between two segments belongs to the later one.
    pub fn segment_at(&self, text_byte: usize) -> (r: Option<&Segment>)
        ensures
            r is None <==> last_start_le(self.segments@, text_byte as int) is None,
            r matches Some(s) ==> *s == self.segments@[last_start_le(self.segments@, text_byte as int)->0],
    {
        proof {
            lemma_last_start_le_range(self.segments@, text_byte as int);
        }
        match self.start_index(text_byte) {
            None => None,
            Some(i) => Some(&self.segments[i]),
        }
    }

    /// Index of the segment an offset that *starts* a span falls in. On a
    /// boundary the span starts in the later segment.
    fn start_index(&self, text_byte: usize) -> (r: Option<usize>)
        ensures
            r is None <==> last_start_le(self.segments@, text_byte as int) is None,
            r matches Some(i) ==> last_start_le(self.segments@, text_byte as int) == Some(i as int),
            r matches Some(i) ==> i < self.segments@.len() && self.segments@[i as int].text_start <= text_byte,
    {
        let mut i = self.segments.len();
        while i > 0 && self.segments[i - 1].text_start > text_byte
            invariant
                i <= self.segments@.len(),
                forall|k: int| i <= k < self.segments@.len() ==> #[trigger] self.segments@[k].text_start > text_byte,
            decreases i,
        {
            i = i - 1;
        }
        proof {
            lemma_last_start_le(self.segments@, text_byte as int, i as int);
            lemma_last_start_le_range(self.segments@, text_byte as int);
        }
        if i == 0 {
            None
        } else {
            Some(i - 1)
        }
    }

    /// Index of the segment an offset that *ends* a span falls in. On a
    /// boundary the span ends in the earlier segment.
    fn end_index(&self, text_byte: usize) -> (r: Option<usize>)
        ensures
            r is None <==> last_start_lt(self.segments@, text_byte as int) is None,
            r matches Some(i) ==> last_start_lt(self.segments@, text_byte as int) == Some(i as int),
            r matches Some(i) ==> i < self.segments@.len() && self.segments@[i as int].text_start < text_byte,
    {
        let mut i = self.segments.len();
        while i > 0 && self.segments[i - 1].text_start >= text_byte
            invariant
                i <= self.segments@.len(),
                forall|k: int| i <= k < self.segments@.len() ==> #[trigger] self.segments@[k].text_start >= text_byte,
            decreases i,
        {
            i = i - 1;
        }
        proof {
            lemma_last_start_lt(self.segments@, text_byte as int, i as int);
            lemma_last_start_lt_range(self.segments@, text_byte as int);
        }
        if i == 0 {
            None
        } else {
            Some(i - 1)
        }
    }

    /// Map a byte offset in `text` that starts a span to a byte offset in the source.
    ///
    /// Inside a verbatim segment the mapping is 1:1. Inside a segment whose
    /// source differs in length (masked code, an entity, a CRLF break) any
    /// interior offset resolves to the segment's source end, so a report can
    /// only ever cover the whole construct -- never land mid-character.
    pub fn to_source(&self, text_byte: usize) -> (r: usize)
        requires
            self.segs_wf(),
        ensures
            r == to_source_spec(self.segments@, text_byte as int),
            last_start_le(self.segments@, text_byte as int) matches Some(i) ==> self.segments@[i].src_start
                <= r <= self.segments@[i].src_end,
    {
        proof {
            lemma_last_start_le_range(self.segments@, text_byte as int);
        }
        let idx = self.start_index(text_byte);
        match idx {
            None => {
                if self.segments.len() > 0 {
                    self.segments[0].src_start
                } else {
                    0
                }
            },
            Some(i) => {
                let seg = &self.segments[i];
                assert(seg.wf());
                if text_byte >= seg.text_end {
                    return seg.src_end;
                }
                let delta = text_byte - seg.text_start;
                if delta == 0 {
                    seg.src_start
                } else if seg.verbatim() {
                    seg.src_start + delta
                } else {
                    seg.src_end
                }
            },
        }
    }

    /// Map a byte offset in `text` that ends a span to a byte offset in the
    /// source.
    ///
    /// A span ending exactly on a segment boundary ends at the previous
    /// segment's source end, not at the next segment's source start. Those two
    /// differ by whatever markup sits between them, so taking the latter would
    /// stretch the span over a closing `**` or `` ` ``.
    pub fn to_source_end(&self, text_byte: usize) -> (r: usize)
        requires
            self.segs_wf(),
        ensures
            r == to_source_end_spec(self.segments@, text_byte as int),
            last_start_lt(self.segments@, text_byte as int) matches Some(i) ==> self.segments@[i].src_start
                <= r <= self.segments@[i].src_end,
    {
        proof {
            lemma_last_start_lt_range(self.segments@, text_byte as int);
        }
        match self.end_index(text_byte) {
            None => {
                if self.segments.len() > 0 {
                    self.segments[0].src_start
                } else {
                    0
                }
            },
            Some(i) => {
                let seg = &self.segments[i];
                assert(seg.wf());
                if text_byte >= seg.text_end || !seg.verbatim() {
                    seg.src_end
                } else {
                    seg.src_start + (text_byte - seg.text_start)
                }
            },
        }
    }

    /// The source range a fix may rewrite, or `None` when it must not.
    ///
    /// A fix is only safe while it runs forwards inside one verbatim segment. A span
    /// reaching across two of them covers source the block text never held --
    /// the `*` around an emphasis, the backticks around code -- and rewriting
    /// it would delete that markup.
    pub fn fix_range(&self, start: usize, end: usize) -> (r: Option<(usize, usize)>)
        requires
            self.segs_wf(),
        ensures
            match r {
                Some(p) => fix_range_spec(self.segments@, start as int, end as int) == Some((p.0 as int, p.1 as int)),
                None => fix_range_spec(self.segments@, start as int, end as int) is None,
            },
            r matches Some(p) ==> ({
                let seg = self.segments@[last_start_le(self.segments@, start as int)->0];
                seg.src_start <= p.0 <= p.1 <= seg.src_end
            }),
    {
        proof {
            lemma_last_start_le_range(self.segments@, start as int);
            lemma_last_start_lt_range(self.segments@, end as int);
        }
        let i = match self.start_index(start) {
            Some(i) => i,
            None => return None,
        };
        let j = match self.end_index(end) {
            Some(j) => j,
            None => return None,
        };
        let seg = &self.segments[i];
        assert(seg.wf());
        if i != j || !seg.verbatim() || start < seg.text_start || start > end || end > seg.text_end {
            return None;
        }
        Some((seg.src_start + (start - seg.text_start), seg.src_start + (end - seg.text_start)))
    }

    /// The block text within `range`, keeping only segments `keep` accepts.
    pub fn text_where(&self, range: std::ops::Range<usize>, keep: impl Fn(&Segment) -> bool) -> (r: String)
        requires
            forall|s: &Segment| #[trigger] keep.requires((s,)),
        ensures
            exists|picks: Seq<bool>|
                {
                    &&& picks.len() == self.segments@.len()
                    &&& forall|i: int| 0 <= i < picks.len() ==> keep.ensures((&self.segments@[i],), #[trigger] picks[i])
                    &&& r@ == picked_text(self.text@, self.segments@, picks, range.start as int, range.end as int)
                },
    {
        let cs = utf::chars_of(self.text.as_str());
        let total = utf::str_len(self.text.as_str());
        let offs = utf::byte_offsets(&cs);
        let mut out: Vec<char> = Vec::new();
        let ghost mut picks: Seq<bool> = Seq::empty();
        let mut k: usize = 0;
        while k < self.segments.len()
            invariant
                cs@ == self.text@,
                offs@.len() == cs@.len() + 1,
                forall|j: int| 0 <= j <= cs@.len() ==> #[trigger] offs@[j] == utf::boff(cs@, j),
                forall|s: &Segment| #[trigger] keep.requires((s,)),
                k <= self.segments@.len(),
                picks.len() == k,
                forall|i: int| 0 <= i < k ==> keep.ensures((&self.segments@[i],), #[trigger] picks[i]),
                out@ == picked_text(self.text@, self.segments@.take(k as int), picks, range.start as int, range.end as int),
            decreases self.segments@.len() - k,
        {
            let s = &self.segments[k];
            let b = keep(s);
            let lo = if s.text_start > range.start { s.text_start } else { range.start };
            let hi = if s.text_end < range.end { s.text_end } else { range.end };
            let ghost old_picks = picks;
            proof {
                picks = picks.push(b);
            }
            let ghost segs_k1 = self.segments@.take(k + 1);
            assert(segs_k1.drop_last() =~= self.segments@.take(k as int));
            assert(picks.drop_last() =~= old_picks);
            if b && lo < hi {
                let piece = chars_between(&cs, &offs, lo, hi);
                let mut t: usize = 0;
                let ghost before = out@;
                while t < piece.len()
                    invariant
                        t <= piece.len(),
                        out@ == before + piece@.take(t as int),
                    decreases piece.len() - t,
                {
                    out.push(piece[t]);
                    t = t + 1;
                    assert(out@ =~= before + piece@.take(t as int));
                }
                assert(piece@.take(t as int) =~= piece@);
            } else {
                assert(out@ =~= out@ + Seq::<char>::empty());
            }
            k = k + 1;
        }
        assert(self.segments@.take(k as int) =~= self.segments@);
        utf::string_of(out.as_slice())
    }

    /// The last segment holding non-whitespace text.
    pub fn last_content_segment(&self) -> (r: Option<&Segment>)
        ensures
            r is None <==> last_content(self.text@, self.segments@) is None,
            r matches Some(s) ==> *s == self.segments@[last_content(self.text@, self.segments@)->0],
    {
        proof {
            lemma_last_content_range(self.text@, self.segments@);
        }
        match self.last_content_index() {
            None => None,
            Some(i) => Some(&self.segments[i]),
        }
    }

    fn last_content_index(&self) -> (r: Option<usize>)
        ensures
            r is None <==> last_content(self.text@, self.segments@) is None,
            r matches Some(i) ==> last_content(self.text@, self.segments@) == Some(i as int),
            r matches Some(i) ==> i < self.segments@.len(),
    {
        proof {
            lemma_last_content_range(self.text@, self.segments@);
        }
        let cs = utf::chars_of(self.text.as_str());
        let total = utf::str_len(self.text.as_str());
        let offs = utf::byte_offsets(&cs);
        let mut i = self.segments.len();
        while i > 0
            invariant
                cs@ == self.text@,
                offs@.len() == cs@.len() + 1,
                forall|j: int| 0 <= j <= cs@.len() ==> #[trigger] offs@[j] == utf::boff(cs@, j),
                i <= self.segments@.len(),
                forall|k: int| i <= k < self.segments@.len() ==> #[trigger] blank_segment(self.text@, self.segments@[k]),
            decreases i,
        {
            let s = &self.segments[i - 1];
            let piece = chars_between(&cs, &offs, s.text_start, s.text_end);
            assert(piece@.subrange(0, piece@.len() as int) =~= piece@);
            if !utf::all_white_in(&piece, 0, piece.len()) {
                proof {
                    lemma_last_content(self.text@, self.segments@, i as int);
                }
                return Some(i - 1);
            }
            i = i - 1;
        }
        proof {
            lemma_last_content(self.text@, self.segments@, 0);
        }
        None
    }

    /// The block text of the markdown text node the last content segment belongs
    /// to. A soft break does not start a new text node, so issen's segments are
    /// finer than the nodes textlint rules see; this walks back over breaks and
    /// adjacent text in the same inline context to recover the node.
    pub fn last_text_node(&self) -> (r: Option<String>)
        ensures
            r is None <==> last_content(self.text@, self.segments@) is None,
            r matches Some(t) ==> ({
                let e = last_content(self.text@, self.segments@)->0;
                t@ == utf::chars_in_bytes(
                    self.text@,
                    self.segments@[node_start(self.segments@, e, e)].text_start as int,
                    self.segments@[e].text_end as int,
                )
            }),
    {
        proof {
            lemma_last_content_range(self.text@, self.segments@);
        }
        let end = match self.last_content_index() {
            Some(e) => e,
            None => return None,
        };
        let last = &self.segments[end];
        let mut start = end;
        while start > 0 && self.segments[start - 1].kind != SegmentKind::Code && self.segments[start - 1].in_link
            == last.in_link && self.segments[start - 1].url_link == last.url_link && self.segments[start
            - 1].in_emphasis == last.in_emphasis && self.segments[start - 1].in_strong == last.in_strong
            invariant
                end < self.segments@.len(),
                start <= end,
                *last == self.segments@[end as int],
                node_start(self.segments@, end as int, start as int) == node_start(
                    self.segments@,
                    end as int,
                    end as int,
                ),
            decreases start,
        {
            start = start - 1;
        }
        let cs = utf::chars_of(self.text.as_str());
        let total = utf::str_len(self.text.as_str());
        let offs = utf::byte_offsets(&cs);
        proof {
            lemma_node_start_range(self.segments@, end as int, end as int);
        }
        let piece = chars_between(&cs, &offs, self.segments[start].text_start, last.text_end);
        Some(utf::string_of(piece.as_slice()))
    }
}

/// What the block text of a block holds, and how its segments map it back.
pub ghost struct BlockModel {
    pub kind: BlockKind,
    pub text: Seq<char>,
    pub segments: Seq<Segment>,
    pub in_blockquote: bool,
}

impl BlockModel {
    /// Segments tile the text in order.
    pub open spec fn tiles(&self) -> bool {
        &&& forall|i: int| 0 <= i < self.segments.len() ==> #[trigger] self.segments[i].text_start <= self.segments[i].text_end
        &&& forall|i: int| 0 <= i < self.segments.len() - 1 ==> #[trigger] self.segments[i].text_end == self.segments[i + 1].text_start
        &&& self.segments.len() > 0 ==> self.segments[0].text_start == 0
        &&& self.segments.len() > 0 ==> self.segments.last().text_end == utf::byte_len(self.text)
        &&& self.segments.len() == 0 ==> self.text.len() == 0
    }

    /// Every segment's source range runs forwards.
    pub open spec fn src_forward(&self) -> bool {
        forall|i: int| 0 <= i < self.segments.len() ==> #[trigger] self.segments[i].src_start <= self.segments[i].src_end
    }
}

impl Block {
    pub open spec fn model(&self) -> BlockModel {
        BlockModel {
            kind: self.kind,
            text: self.text@,
            segments: self.segments@,
            in_blockquote: self.in_blockquote,
        }
    }
}

/// The Markdown tags the block builder tells apart.
#[derive(Debug, Clone, Copy, PartialEq, Eq, Structural)]
pub enum MdTag {
    BlockQuote,
    CodeBlock,
    MetadataBlock,
    Image,
    Emphasis,
    Strong,
    Link,
    List,
    Item,
    Paragraph,
    Heading,
    TableCell,
    Other,
}

/// The Markdown events the block builder reads.
#[derive(Debug, Clone, Copy, PartialEq, Eq, Structural)]
pub enum MdKind {
    Start(MdTag),
    End(MdTag),
    Text,
    Code,
    Break,
    Other,
}

/// One parser event with the source byte range it covers. `text` is the
/// text of a `Text` or `Code` event, or the destination of a started link.
pub struct MdEvent {
    pub kind: MdKind,
    pub text: String,
    pub src_start: usize,
    pub src_end: usize,
}

pub ghost struct EventModel {
    pub kind: MdKind,
    pub text: Seq<char>,
    pub src_start: usize,
    pub src_end: usize,
}

impl MdEvent {
    pub open spec fn model(&self) -> EventModel {
        EventModel { kind: self.kind, text: self.text@, src_start: self.src_start, src_end: self.src_end }
    }

    /// An event of a tag that pulldown-cmark names `name` in its `Debug` form
    /// (`Paragraph`, `Heading(H1)`, `BlockQuote(None)`, ...).
    pub fn tag(start: bool, name: &str, text: String, src_start: usize, src_end: usize) -> (e: MdEvent)
        ensures
            e.kind == (if start { MdKind::Start(tag_named(name@)) } else { MdKind::End(tag_named(name@)) }),
            e.text@ == text@,
            e.src_start == src_start,
            e.src_end == src_end,
    {
        let t = tag_of_name(name);
        MdEvent { kind: if start { MdKind::Start(t) } else { MdKind::End(t) }, text, src_start, src_end }
    }

    /// A leaf event of the given kind.
    pub fn leaf(kind: MdKind, text: String, src_start: usize, src_end: usize) -> (e: MdEvent)
        ensures
            e.kind == kind,
            e.text@ == text@,
            e.src_start == src_start,
            e.src_end == src_end,
    {
        MdEvent { kind, text, src_start, src_end }
    }
}

pub open spec fn event_models(evs: Seq<MdEvent>) -> Seq<EventModel> {
    evs.map_values(|e: MdEvent| e.model())
}

/// The part of a `Debug` name before its first `(`.
pub open spec fn head_name(name: Seq<char>) -> Seq<char>
    decreases name.len(),
{
    if name.len() == 0 {
        Seq::empty()
    } else if name[0] == '(' {
        Seq::empty()
    } else {
        seq![name[0]] + head_name(name.drop_first())
    }
}

pub open spec fn is_named(name: Seq<char>, word: Seq<char>) -> bool {
    head_name(name) == word
}

/// The tag a `Debug` name stands for.
pub open spec fn tag_named(name: Seq<char>) -> MdTag {
    if is_named(name, seq!['B', 'l', 'o', 'c', 'k', 'Q', 'u', 'o', 't', 'e']) {
        MdTag::BlockQuote
    } else if is_named(name, seq!['C', 'o', 'd', 'e', 'B', 'l', 'o', 'c', 'k']) {
        MdTag::CodeBlock
    } else if is_named(name, seq!['M', 'e', 't', 'a', 'd', 'a', 't', 'a', 'B', 'l', 'o', 'c', 'k']) {
        MdTag::MetadataBlock
    } else if is_named(name, seq!['I', 'm', 'a', 'g', 'e']) {
        MdTag::Image
    } else if is_named(name, seq!['E', 'm', 'p', 'h', 'a', 's', 'i', 's']) {
        MdTag::Emphasis
    } else if is_named(name, seq!['S', 't', 'r', 'o', 'n', 'g']) {
        MdTag::Strong
    } else if is_named(name, seq!['L', 'i', 'n', 'k']) {
        MdTag::Link
    } else if is_named(name, seq!['L', 'i', 's', 't']) {
        MdTag::List
    } else if is_named(name, seq!['I', 't', 'e', 'm']) {
        MdTag::Item
    } else if is_named(name, seq!['P', 'a', 'r', 'a', 'g', 'r', 'a', 'p', 'h']) {
        MdTag::Paragraph
    } else if is_named(name, seq!['H', 'e', 'a', 'd', 'i', 'n', 'g']) {
        MdTag::Heading
    } else if is_named(name, seq!['T', 'a', 'b', 'l', 'e', 'C', 'e', 'l', 'l']) {
        MdTag::TableCell
    } else {
        MdTag::Other
    }
}

fn head_of(name: &str) -> (r: Vec<char>)
    ensures
        r@ == head_name(name@),
{
    let cs = utf::chars_of(name);
    let mut out: Vec<char> = Vec::new();
    let mut i: usize = 0;
    assert(cs@.skip(0) =~= cs@);
    assert(out@ + head_name(cs@) =~= head_name(cs@));
    while i < cs.len() && cs[i] != '('
        invariant
            cs@ == name@,
            i <= cs.len(),
            forall|k: int| 0 <= k < i ==> cs@[k] != '(',
            out@ + head_name(cs@.skip(i as int)) == head_name(cs@),
        decreases cs.len() - i,
    {
        assert(cs@.skip(i as int).drop_first() =~= cs@.skip(i + 1));
        assert(cs@.skip(i as int)[0] == cs@[i as int]);
        out.push(cs[i]);
        i = i + 1;
        proof {
            let ghost o = out@;
            assert(o.drop_last() + (seq![cs@[i - 1]] + head_name(cs@.skip(i as int))) =~= o + head_name(cs@.skip(i as int)));
        }
    }
    proof {
        let rest = cs@.skip(i as int);
        if i < cs.len() {
            assert(rest[0] == '(');
        } else {
            assert(rest.len() == 0);
        }
        assert(out@ + Seq::<char>::empty() =~= out@);
    }
    out
}

fn word_is(h: &Vec<char>, w: &str) -> (b: bool)
    ensures
        b == (h@ == w@),
{
    let wc = utf::chars_of(w);
    utf::seq_eq(h, &wc)
}

fn tag_of_name(name: &str) -> (t: MdTag)
    ensures
        t == tag_named(name@),
{
    let h = head_of(name);
    proof {
        reveal_strlit("BlockQuote");
        reveal_strlit("CodeBlock");
        reveal_strlit("MetadataBlock");
        reveal_strlit("Image");
        reveal_strlit("Emphasis");
        reveal_strlit("Strong");
        reveal_strlit("Link");
        reveal_strlit("List");
        reveal_strlit("Item");
        reveal_strlit("Paragraph");
        reveal_strlit("Heading");
        reveal_strlit("TableCell");
        assert("BlockQuote"@ =~= seq!['B', 'l', 'o', 'c', 'k', 'Q', 'u', 'o', 't', 'e']);
        assert("CodeBlock"@ =~= seq!['C', 'o', 'd', 'e', 'B', 'l', 'o', 'c', 'k']);
        assert("MetadataBlock"@ =~= seq!['M', 'e', 't', 'a', 'd', 'a', 't', 'a', 'B', 'l', 'o', 'c', 'k']);
        assert("Image"@ =~= seq!['I', 'm', 'a', 'g', 'e']);
        assert("Emphasis"@ =~= seq!['E', 'm', 'p', 'h', 'a', 's', 'i', 's']);
        assert("Strong"@ =~= seq!['S', 't', 'r', 'o', 'n', 'g']);
        assert("Link"@ =~= seq!['L', 'i', 'n', 'k']);
        assert("List"@ =~= seq!['L', 'i', 's', 't']);
        assert("Item"@ =~= seq!['I', 't', 'e', 'm']);
        assert("Paragraph"@ =~= seq!['P', 'a', 'r', 'a', 'g', 'r', 'a', 'p', 'h']);
        assert("Heading"@ =~= seq!['H', 'e', 'a', 'd', 'i', 'n', 'g']);
        assert("TableCell"@ =~= seq!['T', 'a', 'b', 'l', 'e', 'C', 'e', 'l', 'l']);
    }
    if word_is(&h, "BlockQuote") {
        MdTag::BlockQuote
    } else if word_is(&h, "CodeBlock") {
        MdTag::CodeBlock
    } else if word_is(&h, "MetadataBlock") {
        MdTag::MetadataBlock
    } else if word_is(&h, "Image") {
        MdTag::Image
    } else if word_is(&h, "Emphasis") {
        MdTag::Emphasis
    } else if word_is(&h, "Strong") {
        MdTag::Strong
    } else if word_is(&h, "Link") {
        MdTag::Link
    } else if word_is(&h, "List") {
        MdTag::List
    } else if word_is(&h, "Item") {
        MdTag::Item
    } else if word_is(&h, "Paragraph") {
        MdTag::Paragraph
    } else if word_is(&h, "Heading") {
        MdTag::Heading
    } else if word_is(&h, "TableCell") {
        MdTag::TableCell
    } else {
        MdTag::Other
    }
}

/// The Markdown events pulldown-cmark produces for a source text, with the
/// extensions issen enables (tables, strikethrough, task lists, footnotes and
/// YAML metadata blocks).
pub uninterp spec fn markdown_events(source: Seq<char>) -> Seq<EventModel>;

/// Runs pulldown-cmark's `Parser::new_ext(..).into_offset_iter()` over the
/// source. Claims that the events are the parser's (named by
/// `markdown_events`) and that each event's range runs forwards and lies
/// inside the source, which is what the parser's documentation promises of its
/// offsets ("the corresponding range in the markdown source"). Nothing is
/// claimed of the order of the ranges or of how an event's text relates to
/// the source it came from.
#[verifier::external_body]
fn cmark_events(source: &str) -> (r: Vec<MdEvent>)
    ensures
        event_models(r@) == markdown_events(source@),
        forall|i: int| 0 <= i < r@.len() ==> #[trigger] r@[i].src_start <= r@[i].src_end,
        forall|i: int| 0 <= i < r@.len() ==> #[trigger] r@[i].src_end <= utf::byte_len(source@),
{
    Parser::new_ext(
        source,
        Options::ENABLE_TABLES | Options::ENABLE_STRIKETHROUGH | Options::ENABLE_TASKLISTS | Options::ENABLE_FOOTNOTES
            | Options::ENABLE_YAML_STYLE_METADATA_BLOCKS,
    ).into_offset_iter().map(|(e, r)| match e {
        Start(Tag::Link { dest_url, .. }) => ev(0, "Link", &dest_url, r),
        Start(t) => ev(0, &format!("{:?}", t.to_end()), "", r),
        End(t) => ev(1, &format!("{:?}", t), "", r),
        Text(s) => ev(2, "", &s, r),
        Code(s) => ev(3, "", &s, r),
        SoftBreak | HardBreak => ev(4, "", "", r),
        _ => ev(5, "", "", r),
    }).collect()
}

/// An event from its kind (0 a tag's start, 1 its end, 2 text, 3 inline
/// code, 4 a line break, 5 anything else), the tag's `Debug` name, its text
/// and its source range.
fn ev(code: u8, name: &str, text: &str, r: std::ops::Range<usize>) -> (e: MdEvent)
    ensures
        e.kind == match code {
            0 => MdKind::Start(tag_named(name@)),
            1 => MdKind::End(tag_named(name@)),
            2 => MdKind::Text,
            3 => MdKind::Code,
            4 => MdKind::Break,
            _ => MdKind::Other,
        },
        e.text@ == text@,
        e.src_start == r.start,
        e.src_end == r.end,
{
    let t = text.to_string();
    match code {
        0 => MdEvent::tag(true, name, t, r.start, r.end),
        1 => MdEvent::tag(false, name, t, r.start, r.end),
        2 => MdEvent::leaf(MdKind::Text, t, r.start, r.end),
        3 => MdEvent::leaf(MdKind::Code, t, r.start, r.end),
        4 => MdEvent::leaf(MdKind::Break, t, r.start, r.end),
        _ => MdEvent::leaf(MdKind::Other, t, r.start, r.end),
    }
}

/// The block builder's state between two events.
pub ghost struct ParseState {
    pub open: Option<BlockModel>,
    pub blocks: Seq<BlockModel>,
    pub bq: nat,
    pub items: nat,
    pub in_code: bool,
    pub in_meta: bool,
    pub link: nat,
    pub url_link: bool,
    pub emphasis: nat,
    pub strong: nat,
    pub image: nat,
    pub link_url: Option<Seq<char>>,
}

pub open spec fn initial_state() -> ParseState {
    ParseState {
        open: None,
        blocks: Seq::empty(),
        bq: 0,
        items: 0,
        in_code: false,
        in_meta: false,
        link: 0,
        url_link: false,
        emphasis: 0,
        strong: 0,
        image: 0,
        link_url: None,
    }
}

pub open spec fn dec(n: nat) -> nat {
    if n > 0 {
        (n - 1) as nat
    } else {
        0
    }
}

pub open spec fn new_block(kind: BlockKind, in_blockquote: bool) -> BlockModel {
    BlockModel { kind, text: Seq::empty(), segments: Seq::empty(), in_blockquote }
}

/// Closes the open block; it is kept only when it holds more than white space.
pub open spec fn close(st: ParseState) -> ParseState {
    match st.open {
        Some(b) => ParseState {
            open: None,
            blocks: if utf::all_white(b.text) { st.blocks } else { st.blocks.push(b) },
            ..st
        },
        None => st,
    }
}

/// Appends `content` to a block as one segment covering source `[s, e)`.
pub open spec fn push_model(b: BlockModel, content: Seq<char>, s: usize, e: usize, kind: SegmentKind, st: ParseState) -> BlockModel {
    BlockModel {
        text: b.text + content,
        segments: b.segments.push(
            Segment {
                text_start: utf::byte_len(b.text) as usize,
                text_end: utf::byte_len(b.text + content) as usize,
                src_start: s,
                src_end: e,
                kind,
                in_link: st.link > 0,
                url_link: st.url_link,
                in_emphasis: st.emphasis > 0,
                in_strong: st.strong > 0,
            },
        ),
        ..b
    }
}

/// Inline code is masked with a run of "ー" as long as the code in UTF-16
/// (at least one), so it tokenizes as one opaque word and never contributes
/// particles.
pub open spec fn mask(code: Seq<char>) -> Seq<char> {
    let n = utf::utf16_count(code);
    Seq::new(if n > 0 { n } else { 1 }, |i: int| 'ー')
}

pub open spec fn start_block(st: ParseState, kind: BlockKind) -> ParseState {
    let c = close(st);
    ParseState { open: Some(new_block(kind, c.bq > 0)), ..c }
}

/// Adds a run of text (or masked code) to the open block, opening a list-item
/// block first when a tight list carries text with no paragraph around it.
pub open spec fn add_text(st: ParseState, content: Seq<char>, s: usize, e: usize, kind: SegmentKind) -> ParseState {
    let st2 = if st.open is None && st.items > 0 {
        ParseState { open: Some(new_block(BlockKind::ListItem, st.bq > 0)), ..st }
    } else {
        st
    };
    match st2.open {
        Some(b) => ParseState { open: Some(push_model(b, content, s, e, kind, st2)), ..st2 },
        None => st2,
    }
}

/// One event's effect on the builder.
pub open spec fn step(st: ParseState, e: EventModel) -> ParseState {
    match e.kind {
        MdKind::Start(t) => match t {
            MdTag::BlockQuote => ParseState { bq: st.bq + 1, ..st },
            MdTag::CodeBlock => ParseState { in_code: true, ..st },
            MdTag::MetadataBlock => ParseState { in_meta: true, ..st },
            MdTag::Image => ParseState { image: st.image + 1, ..st },
            MdTag::Emphasis => ParseState { emphasis: st.emphasis + 1, ..st },
            MdTag::Strong => ParseState { strong: st.strong + 1, ..st },
            MdTag::Link => ParseState { link: st.link + 1, link_url: Some(e.text), ..st },
            MdTag::List => close(st),
            MdTag::Item => {
                let c = close(st);
                ParseState { items: c.items + 1, ..c }
            },
            MdTag::Paragraph => start_block(
                st,
                if st.items > 0 { BlockKind::ListItem } else { BlockKind::Paragraph },
            ),
            MdTag::Heading => start_block(st, BlockKind::Heading),
            MdTag::TableCell => start_block(st, BlockKind::TableCell),
            MdTag::Other => st,
        },
        MdKind::End(t) => match t {
            MdTag::BlockQuote => ParseState { bq: dec(st.bq), ..st },
            MdTag::CodeBlock => ParseState { in_code: false, ..st },
            MdTag::MetadataBlock => ParseState { in_meta: false, ..st },
            MdTag::Image => ParseState { image: dec(st.image), ..st },
            MdTag::Emphasis => ParseState { emphasis: dec(st.emphasis), ..st },
            MdTag::Strong => ParseState { strong: dec(st.strong), ..st },
            MdTag::Link => ParseState { link: dec(st.link), url_link: false, link_url: None, ..st },
            MdTag::Item => {
                let c = close(st);
                ParseState { items: dec(c.items), ..c }
            },
            MdTag::Paragraph => close(st),
            MdTag::Heading => close(st),
            MdTag::TableCell => close(st),
            _ => st,
        },
        MdKind::Text => if st.in_code || st.in_meta || st.image > 0 {
            st
        } else {
            // textlint's skipUrlStringLink: a link whose text is its URL.
            let st1 = ParseState { url_link: st.link_url == Some(e.text), ..st };
            add_text(st1, e.text, e.src_start, e.src_end, SegmentKind::Text)
        },
        MdKind::Code => if st.in_code || st.in_meta || st.image > 0 {
            st
        } else {
            add_text(st, mask(e.text), e.src_start, e.src_end, SegmentKind::Code)
        },
        MdKind::Break => match st.open {
            Some(b) => ParseState { open: Some(push_model(b, seq!['\n'], e.src_start, e.src_end, SegmentKind::Break, st)), ..st },
            None => st,
        },
        MdKind::Other => st,
    }
}

/// The builder's state after a run of events.
pub open spec fn run(evs: Seq<EventModel>) -> ParseState
    decreases evs.len(),
{
    if evs.len() == 0 {
        initial_state()
    } else {
        step(run(evs.drop_last()), evs.last())
    }
}

/// The blocks of a document whose parser events are `evs`.
pub open spec fn blocks_of(evs: Seq<EventModel>) -> Seq<BlockModel> {
    close(run(evs)).blocks
}

pub open spec fn state_ok(st: ParseState, fwd: bool) -> bool {
    &&& forall|i: int| 0 <= i < st.blocks.len() ==> (#[trigger] st.blocks[i]).tiles()
    &&& st.open matches Some(b) ==> b.tiles()
    &&& fwd ==> forall|i: int| 0 <= i < st.blocks.len() ==> (#[trigger] st.blocks[i]).src_forward()
    &&& fwd ==> (st.open matches Some(b) ==> b.src_forward())
}

proof fn lemma_push_tiles(b: BlockModel, content: Seq<char>, s: usize, e: usize, kind: SegmentKind, st: ParseState)
    requires
        b.tiles(),
        utf::byte_len(b.text + content) <= usize::MAX,
    ensures
        push_model(b, content, s, e, kind, st).tiles(),
        b.src_forward() && s <= e ==> push_model(b, content, s, e, kind, st).src_forward(),
{
    let nb = push_model(b, content, s, e, kind, st);
    utf::lemma_byte_len_concat(b.text, content);
    assert(nb.segments.last() == nb.segments[b.segments.len() as int]);
    assert forall|i: int| 0 <= i < nb.segments.len() - 1 implies #[trigger] nb.segments[i].text_end
        == nb.segments[i + 1].text_start by {
        if i < b.segments.len() - 1 {
            assert(nb.segments[i] == b.segments[i]);
            assert(nb.segments[i + 1] == b.segments[i + 1]);
        } else {
            assert(nb.segments[i] == b.segments.last());
        }
    }
    assert forall|i: int| 0 <= i < nb.segments.len() implies #[trigger] nb.segments[i].text_start <= nb.segments[i].text_end by {
        if i < b.segments.len() {
            assert(nb.segments[i] == b.segments[i]);
        }
    }
    if b.segments.len() > 0 {
        assert(nb.segments[0] == b.segments[0]);
    } else {
        assert(b.text.len() == 0);
        assert(utf::byte_len(b.text) == 0);
    }
    if b.src_forward() && s <= e {
        assert forall|i: int| 0 <= i < nb.segments.len() implies #[trigger] nb.segments[i].src_start <= nb.segments[i].src_end by {
            if i < b.segments.len() {
                assert(nb.segments[i] == b.segments[i]);
            }
        }
    }
    if nb.text.len() == 0 {
    }
}

/// Number of leading characters of `cs` that end at or before byte `b`.
pub open spec fn ended(cs: Seq<char>, b: int) -> nat
    decreases cs.len(),
{
    if cs.len() == 0 {
        0
    } else if utf::byte_len(cs) <= b {
        cs.len()
    } else {
        ended(cs.drop_last(), b)
    }
}

/// UTF-16 offset of the character holding source byte `b` (the whole length
/// past the end).
pub open spec fn utf16_at(cs: Seq<char>, b: int) -> nat {
    utf::utf16_count(cs.take(ended(cs, b) as int))
}

/// Line breaks in `cs`.
pub open spec fn nl_count(cs: Seq<char>) -> nat
    decreases cs.len(),
{
    if cs.len() == 0 {
        0
    } else {
        nl_count(cs.drop_last()) + if cs.last() == '\n' { 1nat } else { 0nat }
    }
}

/// Characters of `cs` up to and including its last line break.
pub open spec fn after_last_nl(cs: Seq<char>) -> nat
    decreases cs.len(),
{
    if cs.len() == 0 {
        0
    } else if cs.last() == '\n' {
        cs.len()
    } else {
        after_last_nl(cs.drop_last())
    }
}

/// Byte offsets just after each line break of `cs`.
pub open spec fn nl_ends(cs: Seq<char>) -> Seq<usize>
    decreases cs.len(),
{
    if cs.len() == 0 {
        Seq::empty()
    } else if cs.last() == '\n' {
        nl_ends(cs.drop_last()).push(utf::byte_len(cs) as usize)
    } else {
        nl_ends(cs.drop_last())
    }
}

/// 1-based line and column of source byte `b`: the line counts the line
/// breaks before it, the column the UTF-16 units since the last of them.
pub open spec fn position_spec(cs: Seq<char>, b: int) -> (usize, usize) {
    let bb = if b < utf::byte_len(cs) { b } else { utf::byte_len(cs) as int };
    let p = cs.take(ended(cs, bb) as int);
    ((nl_count(p) + 1) as usize, (utf::utf16_count(p.skip(after_last_nl(p) as int)) + 1) as usize)
}

/// Number of entries of `s` that are at most `b`.
pub open spec fn count_le(s: Seq<usize>, b: int) -> nat
    decreases s.len(),
{
    if s.len() == 0 {
        0
    } else {
        count_le(s.drop_last(), b) + if s.last() <= b { 1nat } else { 0nat }
    }
}

pub proof fn lemma_ended(cs: Seq<char>, b: int, m: int)
    requires
        0 <= m <= cs.len(),
        utf::boff(cs, m) <= b,
        m == cs.len() || utf::boff(cs, m + 1) > b,
    ensures
        ended(cs, b) == m,
    decreases cs.len(),
{
    if cs.len() > 0 {
        let n = cs.len() as int;
        if m == n {
            assert(cs.take(n) =~= cs);
        } else {
            utf::lemma_prefix_le(cs, m + 1, n);
            assert(cs.take(n) =~= cs);
            let d = cs.drop_last();
            assert(d.take(m) =~= cs.take(m));
            if m + 1 <= d.len() {
                assert(d.take(m + 1) =~= cs.take(m + 1));
            }
            lemma_ended(d, b, m);
        }
    }
}

pub proof fn lemma_ended_le(cs: Seq<char>, b: int)
    ensures
        ended(cs, b) <= cs.len(),
    decreases cs.len(),
{
    if cs.len() > 0 {
        lemma_ended_le(cs.drop_last(), b);
    }
}

proof fn lemma_nl_ends(cs: Seq<char>)
    requires
        utf::byte_len(cs) <= usize::MAX,
    ensures
        nl_ends(cs).len() == nl_count(cs),
        forall|i: int, j: int| 0 <= i < j < nl_ends(cs).len() ==> #[trigger] nl_ends(cs)[i] < #[trigger] nl_ends(cs)[j],
        forall|i: int| 0 <= i < nl_ends(cs).len() ==> 0 < #[trigger] nl_ends(cs)[i] <= utf::byte_len(cs),
    decreases cs.len(),
{
    if cs.len() > 0 {
        let d = cs.drop_last();
        assert(utf::byte_len(cs) == utf::byte_len(d) + utf::utf8_width(cs.last()));
        lemma_nl_ends(d);
        if cs.last() == '\n' {
            let e = nl_ends(cs);
            assert(e == nl_ends(d).push(utf::byte_len(cs) as usize));
            assert forall|i: int| 0 <= i < e.len() implies 0 < #[trigger] e[i] <= utf::byte_len(cs) by {
                if i < e.len() - 1 {
                    assert(e[i] == nl_ends(d)[i]);
                }
            }
            assert forall|i: int, j: int| 0 <= i < j < e.len() implies #[trigger] e[i] < #[trigger] e[j] by {
                assert(e[i] == nl_ends(d)[i]);
                if j < e.len() - 1 {
                    assert(e[j] == nl_ends(d)[j]);
                }
            }
        }
    }
}

proof fn lemma_count_le_all(s: Seq<usize>, b: int)
    requires
        forall|i: int| 0 <= i < s.len() ==> #[trigger] s[i] <= b,
    ensures
        count_le(s, b) == s.len(),
    decreases s.len(),
{
    if s.len() > 0 {
        assert forall|i: int| 0 <= i < s.drop_last().len() implies #[trigger] s.drop_last()[i] <= b by {
            assert(s.drop_last()[i] == s[i]);
        }
        lemma_count_le_all(s.drop_last(), b);
    }
}

proof fn lemma_count_split(s: Seq<usize>, b: int, lo: int)
    requires
        0 <= lo <= s.len(),
        forall|i: int| 0 <= i < lo ==> #[trigger] s[i] <= b,
        forall|i: int| lo <= i < s.len() ==> #[trigger] s[i] > b,
    ensures
        count_le(s, b) == lo,
    decreases s.len(),
{
    if s.len() > 0 {
        if lo == s.len() {
            lemma_count_le_all(s, b);
        } else {
            let d = s.drop_last();
            assert forall|i: int| 0 <= i < lo implies #[trigger] d[i] <= b by {
                assert(d[i] == s[i]);
            }
            assert forall|i: int| lo <= i < d.len() implies #[trigger] d[i] > b by {
                assert(d[i] == s[i]);
            }
            lemma_count_split(d, b, lo);
        }
    }
}

proof fn lemma_count_front(e: Seq<usize>, b: int)
    requires
        b >= 0,
    ensures
        count_le(seq![0usize] + e, b) == 1 + count_le(e, b),
    decreases e.len(),
{
    if e.len() == 0 {
        assert(seq![0usize] + e =~= seq![0usize]);
        assert(seq![0usize].drop_last() =~= Seq::<usize>::empty());
        assert(count_le(Seq::<usize>::empty(), b) == 0);
        assert(count_le(e, b) == 0);
    } else {
        assert((seq![0usize] + e).drop_last() =~= seq![0usize] + e.drop_last());
        assert((seq![0usize] + e).last() == e.last());
        lemma_count_front(e.drop_last(), b);
    }
}

proof fn lemma_count_nl(cs: Seq<char>, b: int)
    requires
        utf::byte_len(cs) <= usize::MAX,
        b >= 0,
    ensures
        count_le(nl_ends(cs), b) == nl_count(cs.take(ended(cs, b) as int)),
    decreases cs.len(),
{
    lemma_nl_ends(cs);
    if cs.len() == 0 {
        assert(cs.take(0) =~= cs);
    } else if utf::byte_len(cs) <= b {
        assert(cs.take(cs.len() as int) =~= cs);
        lemma_count_le_all(nl_ends(cs), b);
    } else {
        let d = cs.drop_last();
        assert(utf::byte_len(cs) == utf::byte_len(d) + utf::utf8_width(cs.last()));
        lemma_count_nl(d, b);
        lemma_ended_le(d, b);
        assert(cs.take(ended(cs, b) as int) =~= d.take(ended(d, b) as int));
        if cs.last() == '\n' {
            assert(nl_ends(cs).drop_last() =~= nl_ends(d));
        }
    }
}

proof fn lemma_after_nl_le(cs: Seq<char>)
    ensures
        after_last_nl(cs) <= cs.len(),
        nl_count(cs) == 0 ==> after_last_nl(cs) == 0,
    decreases cs.len(),
{
    if cs.len() > 0 {
        lemma_after_nl_le(cs.drop_last());
    }
}

proof fn lemma_nl_ends_prefix(cs: Seq<char>, j: int)
    requires
        0 <= j <= cs.len(),
    ensures
        nl_ends(cs.take(j)).len() <= nl_ends(cs).len(),
        forall|i: int| 0 <= i < nl_ends(cs.take(j)).len() ==> #[trigger] nl_ends(cs.take(j))[i] == nl_ends(cs)[i],
    decreases cs.len(),
{
    if j == cs.len() {
        assert(cs.take(j) =~= cs);
    } else {
        let d = cs.drop_last();
        assert(cs.take(j) =~= d.take(j));
        lemma_nl_ends_prefix(d, j);
        if cs.last() == '\n' {
            let e = nl_ends(cs);
            assert forall|i: int| 0 <= i < nl_ends(d).len() implies #[trigger] nl_ends(d)[i] == e[i] by {}
        }
    }
}

proof fn lemma_nl_last(p: Seq<char>)
    requires
        nl_count(p) >= 1,
    ensures
        nl_ends(p).len() >= 1,
        nl_ends(p).last() == utf::byte_len(p.take(after_last_nl(p) as int)) as usize,
    decreases p.len(),
{
    if p.len() > 0 {
        let d = p.drop_last();
        if p.last() == '\n' {
            assert(p.take(p.len() as int) =~= p);
        } else {
            lemma_nl_last(d);
            lemma_after_nl_le(d);
            assert(p.take(after_last_nl(p) as int) =~= d.take(after_last_nl(d) as int));
        }
    }
}

proof fn lemma_nl_count_len(cs: Seq<char>)
    ensures
        nl_ends(cs).len() == nl_count(cs),
    decreases cs.len(),
{
    if cs.len() > 0 {
        lemma_nl_count_len(cs.drop_last());
    }
}

/// Inline context of the text being added.
struct Inline {
    link: usize,
    url_link: bool,
    emphasis: usize,
    strong: usize,
    image: usize,
}

impl Block {
    fn new(kind: BlockKind, in_blockquote: bool) -> (b: Block)
        ensures
            b.model() == new_block(kind, in_blockquote),
    {
        Block { kind, text: String::new(), segments: Vec::new(), in_blockquote }
    }

    fn push(&mut self, s: &str, src_start: usize, src_end: usize, kind: SegmentKind, inline: &Inline, st: Ghost<ParseState>)
        requires
            st@.link == inline.link,
            st@.url_link == inline.url_link,
            st@.emphasis == inline.emphasis,
            st@.strong == inline.strong,
        ensures
            final(self).model() == push_model(old(self).model(), s@, src_start, src_end, kind, st@),
            utf::byte_len(old(self).text@ + s@) <= usize::MAX,
    {
        let start = utf::str_len(self.text.as_str());
        self.text.append(s);
        let end = utf::str_len(self.text.as_str());
        self.segments.push(Segment {
            text_start: start,
            text_end: end,
            src_start,
            src_end,
            kind,
            in_link: inline.link > 0,
            url_link: inline.url_link,
            in_emphasis: inline.emphasis > 0,
            in_strong: inline.strong > 0,
        });
    }
}

/// The block builder's state between two events.
struct Builder {
    open: Option<Block>,
    blocks: Vec<Block>,
    bq: usize,
    items: usize,
    in_code: bool,
    in_meta: bool,
    inline: Inline,
    link_url: Option<String>,
}

pub open spec fn blocks_model(blocks: Seq<Block>) -> Seq<BlockModel> {
    blocks.map_values(|b: Block| b.model())
}

impl Builder {
    spec fn model(&self) -> ParseState {
        ParseState {
            open: match self.open {
                Some(b) => Some(b.model()),
                None => None,
            },
            blocks: blocks_model(self.blocks@),
            bq: self.bq as nat,
            items: self.items as nat,
            in_code: self.in_code,
            in_meta: self.in_meta,
            link: self.inline.link as nat,
            url_link: self.inline.url_link,
            emphasis: self.inline.emphasis as nat,
            strong: self.inline.strong as nat,
            image: self.inline.image as nat,
            link_url: match self.link_url {
                Some(u) => Some(u@),
                None => None,
            },
        }
    }

    fn close(&mut self)
        ensures
            final(self).model() == close(old(self).model()),
    {
        let taken = self.open.take();
        if let Some(b) = taken {
            let cs = utf::chars_of(b.text.as_str());
            assert(cs@.subrange(0, cs@.len() as int) =~= cs@);
            if !utf::all_white_in(&cs, 0, cs.len()) {
                let ghost before = self.blocks@;
                self.blocks.push(b);
                assert(blocks_model(self.blocks@) =~= blocks_model(before).push(b.model()));
            }
        }
    }
}

proof fn lemma_close_ok(st: ParseState, fwd: bool)
    requires
        state_ok(st, fwd),
    ensures
        state_ok(close(st), fwd),
{
    let c = close(st);
    if let Some(b) = st.open {
        if !utf::all_white(b.text) {
            assert forall|i: int| 0 <= i < c.blocks.len() implies (#[trigger] c.blocks[i]).tiles() by {
                if i < st.blocks.len() {
                    assert(c.blocks[i] == st.blocks[i]);
                }
            }
            if fwd {
                assert forall|i: int| 0 <= i < c.blocks.len() implies (#[trigger] c.blocks[i]).src_forward() by {
                    if i < st.blocks.len() {
                        assert(c.blocks[i] == st.blocks[i]);
                    }
                }
            }
        }
    }
}

impl Builder {
    fn add_text(&mut self, content: &str, s: usize, e: usize, kind: SegmentKind)
        ensures
            final(self).model() == add_text(old(self).model(), content@, s, e, kind),
            final(self).bq == old(self).bq,
            final(self).items == old(self).items,
            final(self).inline.link == old(self).inline.link,
            final(self).inline.emphasis == old(self).inline.emphasis,
            final(self).inline.strong == old(self).inline.strong,
            final(self).inline.image == old(self).inline.image,
            state_ok(old(self).model(), false) ==> state_ok(final(self).model(), false),
            state_ok(old(self).model(), true) && s <= e ==> state_ok(final(self).model(), true),
    {
        let ghost st0 = self.model();
        if self.open.is_none() && self.items > 0 {
            self.open = Some(Block::new(BlockKind::ListItem, self.bq > 0));
        }
        let ghost st2 = self.model();
        assert(st2 == (if st0.open is None && st0.items > 0 {
            ParseState { open: Some(new_block(BlockKind::ListItem, st0.bq > 0)), ..st0 }
        } else {
            st0
        }));
        if self.open.is_some() {
            let mut b = self.open.take().unwrap();
            let ghost bm = b.model();
            b.push(content, s, e, kind, &self.inline, Ghost(st2));
            proof {
                if state_ok(st0, false) {
                    lemma_push_tiles(bm, content@, s, e, kind, st2);
                }
            }
            self.open = Some(b);
        }
    }
}

pub open spec fn events_forward(evs: Seq<EventModel>) -> bool {
    forall|i: int| 0 <= i < evs.len() ==> #[trigger] evs[i].src_start <= evs[i].src_end
}

/// The position tables of a source text: where each line starts, and the
/// UTF-16 offset of every byte offset (one past the end included).
fn tables(source: &str) -> (r: (Vec<usize>, Vec<usize>))
    ensures
        r.0@ == seq![0usize] + nl_ends(source@),
        r.1@.len() == utf::byte_len(source@) + 1,
        forall|b: int| 0 <= b <= utf::byte_len(source@) ==> #[trigger] r.1@[b] == utf16_at(source@, b),
{
    let cs = utf::chars_of(source);
    let total = utf::str_len(source);
    let mut line_starts: Vec<usize> = Vec::new();
    line_starts.push(0);
    let mut table: Vec<usize> = Vec::new();
    let mut units: usize = 0;
    let mut pos: usize = 0;
    let mut k: usize = 0;
    assert(cs@.take(0) =~= Seq::<char>::empty());
    assert(line_starts@ =~= seq![0usize] + nl_ends(cs@.take(0)));
    while k < cs.len()
        invariant
            cs@ == source@,
            total == utf::byte_len(cs@),
            k <= cs.len(),
            pos == utf::boff(cs@, k as int),
            units == utf::utf16_count(cs@.take(k as int)),
            table@.len() == pos,
            forall|b: int| 0 <= b < pos ==> #[trigger] table@[b] == utf16_at(cs@, b),
            line_starts@ == seq![0usize] + nl_ends(cs@.take(k as int)),
        decreases cs.len() - k,
    {
        let c = cs[k];
        let w = utf::char_len_utf8(c);
        proof {
            utf::lemma_take_step(cs@, k as int);
            utf::lemma_prefix_le(cs@, k + 1, k + 1);
            utf::lemma_byte_len_ge_len(cs@.take(k + 1));
        }
        let mut t: usize = 0;
        while t < w
            invariant
                t <= w,
                w == utf::utf8_width(c),
                c == cs@[k as int],
                k < cs@.len(),
                pos == utf::boff(cs@, k as int),
                pos + w == utf::boff(cs@, k + 1),
                units == utf::utf16_count(cs@.take(k as int)),
                table@.len() == pos + t,
                forall|b: int| 0 <= b < pos + t ==> #[trigger] table@[b] == utf16_at(cs@, b),
            decreases w - t,
        {
            proof {
                lemma_ended(cs@, pos + t, k as int);
            }
            table.push(units);
            t = t + 1;
        }
        units = units + utf::char_len_utf16(c);
        let ghost old_ls = line_starts@;
        if c == '\n' {
            line_starts.push(pos + w);
        }
        proof {
            let p = cs@.take(k + 1);
            assert(p.drop_last() =~= cs@.take(k as int));
            assert(p.last() == c);
            if c == '\n' {
                assert(line_starts@ =~= seq![0usize] + nl_ends(p));
            }
        }
        pos = pos + w;
        k = k + 1;
    }
    proof {
        assert(cs@.take(k as int) =~= cs@);
        lemma_ended(cs@, pos as int, k as int);
    }
    table.push(units);
    (line_starts, table)
}

#[derive(Debug)]
pub struct Document {
    pub source: String,
    pub blocks: Vec<Block>,
    /// Byte offset where each line starts.
    pub line_starts: Vec<usize>,
    /// UTF-16 offset of every byte offset (len = source.len() + 1).
    pub byte_to_utf16: Vec<usize>,
}

impl Document {
    /// The position tables describe `source`.
    pub open spec fn wf(&self) -> bool {
        &&& self.byte_to_utf16@.len() == utf::byte_len(self.source@) + 1
        &&& forall|b: int| 0 <= b <= utf::byte_len(self.source@) ==> #[trigger] self.byte_to_utf16@[b] == utf16_at(self.source@, b)
        &&& self.line_starts@ == seq![0usize] + nl_ends(self.source@)
    }

    /// The blocks of `source` given the events a Markdown parser reported for
    /// it. Every block's segments tile its text; when every event's range
    /// runs forwards, so does every segment's source range.
    #[verifier::rlimit(60)]
    #[verifier::spinoff_prover]
    pub fn from_events(source: &str, events: &[MdEvent]) -> (d: Document)
        ensures
            d.source@ == source@,
            d.wf(),
            blocks_model(d.blocks@) == blocks_of(event_models(events@)),
            forall|i: int| 0 <= i < d.blocks@.len() ==> (#[trigger] d.blocks@[i]).model().tiles(),
            events_forward(event_models(events@)) ==> forall|i: int| 0 <= i < d.blocks@.len() ==> (#[trigger] d.blocks@[i]).wf(),
    {
        let (line_starts, byte_to_utf16) = tables(source);
        let ghost models = event_models(events@);
        let mut b = Builder {
            open: None,
            blocks: Vec::new(),
            bq: 0,
            items: 0,
            in_code: false,
            in_meta: false,
            inline: Inline { link: 0, url_link: false, emphasis: 0, strong: 0, image: 0 },
            link_url: None,
        };
        assert(models.take(0) =~= Seq::<EventModel>::empty());
        assert(blocks_model(b.blocks@) =~= Seq::<BlockModel>::empty());
        assert(b.model() == initial_state());
        let mut i: usize = 0;
        while i < events.len()
            invariant
                models == event_models(events@),
                i <= events.len(),
                b.model() == run(models.take(i as int)),
                b.bq <= i,
                b.items <= i,
                b.inline.link <= i,
                b.inline.emphasis <= i,
                b.inline.strong <= i,
                b.inline.image <= i,
                state_ok(b.model(), false),
                events_forward(models.take(i as int)) ==> state_ok(b.model(), true),
            decreases events.len() - i,
        {
            let e = &events[i];
            let ghost st0 = b.model();
            let ghost fwd0 = events_forward(models.take(i as int));
            proof {
                assert(models.take(i + 1).drop_last() =~= models.take(i as int));
                assert(models.take(i + 1).last() == e.model());
                assert(run(models.take(i + 1)) == step(st0, e.model()));
                if events_forward(models.take(i + 1)) {
                    assert forall|k: int| 0 <= k < models.take(i as int).len() implies #[trigger] models.take(i as int)[k].src_start
                        <= models.take(i as int)[k].src_end by {
                        assert(models.take(i as int)[k] == models.take(i + 1)[k]);
                    }
                    assert(models.take(i + 1)[i as int] == e.model());
                }
            }
            match e.kind {
                MdKind::Start(t) => match t {
                    MdTag::BlockQuote => {
                        b.bq = b.bq + 1;
                    },
                    MdTag::CodeBlock => {
                        b.in_code = true;
                    },
                    MdTag::MetadataBlock => {
                        b.in_meta = true;
                    },
                    MdTag::Image => {
                        b.inline.image = b.inline.image + 1;
                    },
                    MdTag::Emphasis => {
                        b.inline.emphasis = b.inline.emphasis + 1;
                    },
                    MdTag::Strong => {
                        b.inline.strong = b.inline.strong + 1;
                    },
                    MdTag::Link => {
                        b.inline.link = b.inline.link + 1;
                        b.link_url = Some(e.text.clone());
                    },
                    MdTag::List => {
                        b.close();
                        proof {
                            lemma_close_ok(st0, false);
                            if fwd0 {
                                lemma_close_ok(st0, true);
                            }
                        }
                    },
                    MdTag::Item => {
                        // A tight list carries item text directly; a nested item
                        // must not continue its parent's block.
                        b.close();
                        proof {
                            lemma_close_ok(st0, false);
                            if fwd0 {
                                lemma_close_ok(st0, true);
                            }
                        }
                        b.items = b.items + 1;
                    },
                    MdTag::Paragraph => {
                        let kind = if b.items > 0 {
                            BlockKind::ListItem
                        } else {
                            BlockKind::Paragraph
                        };
                        b.close();
                        proof {
                            lemma_close_ok(st0, false);
                            if fwd0 {
                                lemma_close_ok(st0, true);
                            }
                        }
                        b.open = Some(Block::new(kind, b.bq > 0));
                    },
                    MdTag::Heading => {
                        b.close();
                        proof {
                            lemma_close_ok(st0, false);
                            if fwd0 {
                                lemma_close_ok(st0, true);
                            }
                        }
                        b.open = Some(Block::new(BlockKind::Heading, b.bq > 0));
                    },
                    MdTag::TableCell => {
                        b.close();
                        proof {
                            lemma_close_ok(st0, false);
                            if fwd0 {
                                lemma_close_ok(st0, true);
                            }
                        }
                        b.open = Some(Block::new(BlockKind::TableCell, b.bq > 0));
                    },
                    MdTag::Other => {},
                },
                MdKind::End(t) => match t {
                    MdTag::BlockQuote => {
                        b.bq = if b.bq > 0 {
                            b.bq - 1
                        } else {
                            0
                        };
                    },
                    MdTag::CodeBlock => {
                        b.in_code = false;
                    },
                    MdTag::MetadataBlock => {
                        b.in_meta = false;
                    },
                    MdTag::Image => {
                        b.inline.image = if b.inline.image > 0 {
                            b.inline.image - 1
                        } else {
                            0
                        };
                    },
                    MdTag::Emphasis => {
                        b.inline.emphasis = if b.inline.emphasis > 0 {
                            b.inline.emphasis - 1
                        } else {
                            0
                        };
                    },
                    MdTag::Strong => {
                        b.inline.strong = if b.inline.strong > 0 {
                            b.inline.strong - 1
                        } else {
                            0
                        };
                    },
                    MdTag::Link => {
                        b.inline.link = if b.inline.link > 0 {
                            b.inline.link - 1
                        } else {
                            0
                        };
                        b.inline.url_link = false;
                        b.link_url = None;
                    },
                    MdTag::Item => {
                        b.close();
                        proof {
                            lemma_close_ok(st0, false);
                            if fwd0 {
                                lemma_close_ok(st0, true);
                            }
                        }
                        b.items = if b.items > 0 {
                            b.items - 1
                        } else {
                            0
                        };
                    },
                    MdTag::Paragraph | MdTag::Heading | MdTag::TableCell => {
                        b.close();
                        proof {
                            lemma_close_ok(st0, false);
                            if fwd0 {
                                lemma_close_ok(st0, true);
                            }
                        }
                    },
                    _ => {},
                },
                MdKind::Text => {
                    if !(b.in_code || b.in_meta || b.inline.image > 0) {
                        let url = match &b.link_url {
                            Some(u) => utf::str_eq(u.as_str(), e.text.as_str()),
                            None => false,
                        };
                        b.inline.url_link = url;
                        b.add_text(e.text.as_str(), e.src_start, e.src_end, SegmentKind::Text);
                    }
                },
                MdKind::Code => {
                    if !(b.in_code || b.in_meta || b.inline.image > 0) {
                        let masked = mask_code(e.text.as_str());
                        b.add_text(masked.as_str(), e.src_start, e.src_end, SegmentKind::Code);
                    }
                },
                MdKind::Break => {
                    if b.open.is_some() {
                        let nl = "\n";
                        proof {
                            reveal_strlit("\n");
                            assert(nl@ =~= seq!['\n']);
                        }
                        let mut blk = b.open.take().unwrap();
                        let ghost bm = blk.model();
                        blk.push(nl, e.src_start, e.src_end, SegmentKind::Break, &b.inline, Ghost(st0));
                        proof {
                            lemma_push_tiles(bm, nl@, e.src_start, e.src_end, SegmentKind::Break, st0);
                        }
                        b.open = Some(blk);
                    }
                },
                MdKind::Other => {},
            }
            i = i + 1;
        }
        let ghost stn = b.model();
        b.close();
        proof {
            assert(models.take(i as int) =~= models);
            lemma_close_ok(stn, false);
            if events_forward(models) {
                lemma_close_ok(stn, true);
            }
        }
        let ghost cst = b.model();
        let d = Document { source: source.to_string(), blocks: b.blocks, line_starts, byte_to_utf16 };
        proof {
            let bm = blocks_model(d.blocks@);
            assert(cst.blocks == bm);
            assert forall|i: int| 0 <= i < d.blocks@.len() implies (#[trigger] d.blocks@[i]).model().tiles() by {
                assert(bm[i] == d.blocks@[i].model());
            }
            if events_forward(models) {
                assert forall|i: int| 0 <= i < d.blocks@.len() implies (#[trigger] d.blocks@[i]).wf() by {
                    assert(bm[i] == d.blocks@[i].model());
                    assert(state_ok(cst, true));
                    assert(cst.blocks[i].src_forward());
                    assert(d.blocks@[i].model().src_forward());
                }
            }
        }
        d
    }

    /// Parses Markdown source into linting blocks.
    pub fn parse(source: &str) -> (d: Document)
        ensures
            d.source@ == source@,
            d.wf(),
            blocks_model(d.blocks@) == blocks_of(markdown_events(source@)),
            forall|i: int| 0 <= i < d.blocks@.len() ==> (#[trigger] d.blocks@[i]).wf(),
            forall|i: int| 0 <= i < d.blocks@.len() ==> block_shape(
                #[trigger] d.blocks@[i].model(),
                utf::byte_len(source@) as int,
            ),
    {
        let events = cmark_events(source);
        let d = Document::from_events(source, events.as_slice());
        proof {
            let evs = event_models(events@);
            let n = utf::byte_len(source@) as int;
            assert forall|i: int| 0 <= i < evs.len() implies #[trigger] evs[i].src_end <= n by {
                assert(evs[i] == events@[i].model());
            }
            lemma_blocks_shape(evs, n);
            assert forall|i: int| 0 <= i < d.blocks@.len() implies block_shape(#[trigger] d.blocks@[i].model(), n) by {
                assert(blocks_model(d.blocks@)[i] == d.blocks@[i].model());
                assert(d.blocks@[i].model().tiles());
            }
        }
        d
    }

    /// 1-based line and column of a source byte offset. The column counts
    /// UTF-16 code units, which is what textlint reports and what LSP uses by
    /// default; it equals the character count unless the line holds something
    /// outside the BMP.
    pub fn position(&self, src_byte: usize) -> (r: (usize, usize))
        requires
            self.wf(),
        ensures
            r == position_spec(self.source@, src_byte as int),
    {
        let len = self.byte_to_utf16.len() - 1;
        let b = if src_byte < len {
            src_byte
        } else {
            len
        };
        let ghost cs = self.source@;
        proof {
            lemma_nl_ends(cs);
        }
        let ghost ls = self.line_starts@;
        assert forall|i: int, j: int| 0 <= i < j < ls.len() implies #[trigger] ls[i] < #[trigger] ls[j] by {
            if i > 0 {
                assert(ls[i] == nl_ends(cs)[i - 1]);
            }
            assert(ls[j] == nl_ends(cs)[j - 1]);
        }
        let mut lo: usize = 0;
        let mut hi: usize = self.line_starts.len();
        while lo < hi
            invariant
                ls == self.line_starts@,
                0 <= lo <= hi <= ls.len(),
                forall|i: int, j: int| 0 <= i < j < ls.len() ==> #[trigger] ls[i] < #[trigger] ls[j],
                forall|k: int| 0 <= k < lo ==> #[trigger] ls[k] <= b,
                forall|k: int| hi <= k < ls.len() ==> #[trigger] ls[k] > b,
            decreases hi - lo,
        {
            let mid = lo + (hi - lo) / 2;
            if self.line_starts[mid] <= b {
                assert forall|k: int| 0 <= k < mid + 1 implies #[trigger] ls[k] <= b by {
                    if k < mid {
                        assert(ls[k] < ls[mid as int]);
                    }
                }
                lo = mid + 1;
            } else {
                assert forall|k: int| mid <= k < ls.len() implies #[trigger] ls[k] > b by {
                    if k > mid {
                        assert(ls[mid as int] < ls[k]);
                    }
                }
                hi = mid;
            }
        }
        assert(ls[0] == 0);
        proof {
            lemma_count_split(ls, b as int, lo as int);
            lemma_count_front(nl_ends(cs), b as int);
            lemma_count_nl(cs, b as int);
        }
        let line = lo - 1;
        let ghost p = cs.take(ended(cs, b as int) as int);
        let ghost a = after_last_nl(p);
        proof {
            lemma_ended_le(cs, b as int);
            lemma_after_nl_le(p);
            if nl_count(p) >= 1 {
                lemma_nl_ends_prefix(cs, ended(cs, b as int) as int);
                lemma_nl_last(p);
                lemma_nl_count_len(p);
                assert(p.take(a as int) =~= cs.take(a as int));
                assert(ls[line as int] == nl_ends(cs)[line - 1]);
                assert(nl_ends(p)[nl_ends(p).len() - 1] == nl_ends(cs)[line - 1]);
            } else {
                assert(cs.take(0) =~= Seq::<char>::empty());
            }
            utf::lemma_prefix_le(cs, a as int, a as int);
            if a < cs.len() {
                utf::lemma_boff_strict(cs, a as int, (a + 1) as int);
            }
            lemma_ended(cs, utf::boff(cs, a as int) as int, a as int);
            assert(p =~= cs.take(a as int) + p.skip(a as int));
            utf::lemma_byte_len_concat(cs.take(a as int), p.skip(a as int));
            utf::lemma_byte_len_ge_len(p.skip(a as int));
        }
        let start = self.line_starts[line];
        proof {
            if nl_count(p) >= 1 {
                assert(nl_ends(p).last() == utf::byte_len(p.take(a as int)) as usize);
            }
            assert(start as int == utf::boff(cs, a as int));
            utf::lemma_byte_len_ge_len(p);
            utf::lemma_prefix_le(cs, ended(cs, b as int) as int, ended(cs, b as int) as int);
        }
        let column = self.utf16_offset(b) - self.utf16_offset(start) + 1;
        (line + 1, column)
    }

    /// UTF-16 code unit offset from the start of the source.
    pub fn utf16_offset(&self, src_byte: usize) -> (r: usize)
        requires
            self.wf(),
        ensures
            r == utf16_at(self.source@, src_byte as int),
    {
        let len = self.byte_to_utf16.len() - 1;
        if src_byte < len {
            self.byte_to_utf16[src_byte]
        } else {
            proof {
                let cs = self.source@;
                assert(cs.take(cs.len() as int) =~= cs);
                lemma_ended(cs, src_byte as int, cs.len() as int);
                lemma_ended(cs, len as int, cs.len() as int);
            }
            self.byte_to_utf16[len]
        }
    }
}

/// Inline code masked with a run of "ー".
fn mask_code(code: &str) -> (r: String)
    ensures
        r@ == mask(code@),
{
    let n = utf::utf16_len(code);
    let m = if n > 0 {
        n
    } else {
        1
    };
    let mut v: Vec<char> = Vec::new();
    let mut k: usize = 0;
    while k < m
        invariant
            k <= m,
            v@ == Seq::new(k as nat, |i: int| 'ー'),
        decreases m - k,
    {
        v.push('ー');
        k = k + 1;
        assert(v@ =~= Seq::new(k as nat, |i: int| 'ー'));
    }
    utf::string_of(v.as_slice())
}

/// Every event's source range ends inside a source of `n` bytes.
pub open spec fn events_within(evs: Seq<EventModel>, n: int) -> bool {
    forall|i: int| 0 <= i < evs.len() ==> #[trigger] evs[i].src_end <= n
}

/// The block-text characters of segment `k`.
pub open spec fn seg_chars(b: BlockModel, k: int) -> Seq<char> {
    utf::chars_in_bytes(b.text, b.segments[k].text_start as int, b.segments[k].text_end as int)
}

/// What a segment holds in the block text: inline code a non-empty run of
/// 'ー', a line break exactly "\n".
pub open spec fn seg_content_ok(b: BlockModel, k: int) -> bool {
    &&& b.segments[k].kind == SegmentKind::Code ==> seg_chars(b, k).len() > 0 && forall|i: int|
        0 <= i < seg_chars(b, k).len() ==> #[trigger] seg_chars(b, k)[i] == 'ー'
    &&& b.segments[k].kind == SegmentKind::Break ==> seg_chars(b, k) == seq!['\n']
}

pub open spec fn content_ok(b: BlockModel) -> bool {
    forall|k: int| 0 <= k < b.segments.len() ==> #[trigger] seg_content_ok(b, k)
}

/// Every segment's source range ends inside a source of `n` bytes.
pub open spec fn within(b: BlockModel, n: int) -> bool {
    forall|k: int| 0 <= k < b.segments.len() ==> #[trigger] b.segments[k].src_end <= n
}

/// The shape of a parsed block: text that is not all white space, masked
/// code and line breaks in place, and source ranges inside the source.
pub open spec fn block_shape(b: BlockModel, n: int) -> bool {
    &&& !utf::all_white(b.text)
    &&& content_ok(b)
    &&& within(b, n)
}

spec fn shape_inv(st: ParseState, n: int, bounded: bool) -> bool {
    &&& forall|i: int| 0 <= i < st.blocks.len() ==> {
        &&& !utf::all_white((#[trigger] st.blocks[i]).text)
        &&& st.blocks[i].tiles() ==> content_ok(st.blocks[i])
        &&& bounded ==> within(st.blocks[i], n)
    }
    &&& st.open matches Some(b) ==> {
        &&& b.tiles() ==> content_ok(b)
        &&& bounded ==> within(b, n)
    }
}

proof fn lemma_end_le_last(b: BlockModel, k: int)
    requires
        b.tiles(),
        0 <= k < b.segments.len(),
    ensures
        b.segments[k].text_end <= b.segments.last().text_end,
    decreases b.segments.len() - k,
{
    if k < b.segments.len() - 1 {
        lemma_end_le_last(b, k + 1);
    }
}

proof fn lemma_push_shape(b: BlockModel, content: Seq<char>, s: usize, e: usize, kind: SegmentKind, st: ParseState, n: int, bounded: bool)
    requires
        b.tiles() ==> content_ok(b),
        bounded ==> within(b, n),
        bounded ==> e <= n,
        kind == SegmentKind::Code ==> content.len() > 0 && forall|i: int| 0 <= i < content.len() ==> #[trigger] content[i] == 'ー',
        kind == SegmentKind::Break ==> content == seq!['\n'],
    ensures
        push_model(b, content, s, e, kind, st).tiles() ==> content_ok(push_model(b, content, s, e, kind, st)),
        bounded ==> within(push_model(b, content, s, e, kind, st), n),
{
    let nb = push_model(b, content, s, e, kind, st);
    let m = b.segments.len() as int;
    assert forall|k: int| 0 <= k < m implies nb.segments[k] == b.segments[k] by {}
    assert(nb.segments[m].src_end == e);
    if bounded {
        assert forall|k: int| 0 <= k < nb.segments.len() implies #[trigger] nb.segments[k].src_end <= n by {
            if k < m {
                assert(nb.segments[k] == b.segments[k]);
            }
        }
    }
    if nb.tiles() {
        utf::lemma_byte_len_concat(b.text, content);
        let whole = utf::byte_len(b.text + content);
        assert(nb.segments.last() == nb.segments[m]);
        assert(nb.segments[m].text_end == whole);
        assert(whole <= usize::MAX);
        assert(nb.segments[m].text_start == utf::byte_len(b.text));
        // The front block tiles too.
        assert forall|k: int| 0 <= k < b.segments.len() implies #[trigger] b.segments[k].text_start
            <= b.segments[k].text_end by {
            assert(nb.segments[k] == b.segments[k]);
        }
        assert forall|k: int| 0 <= k < b.segments.len() - 1 implies #[trigger] b.segments[k].text_end
            == b.segments[k + 1].text_start by {
            assert(nb.segments[k] == b.segments[k]);
            assert(nb.segments[k + 1] == b.segments[k + 1]);
        }
        if m > 0 {
            assert(nb.segments[0] == b.segments[0]);
            assert(nb.segments[m - 1] == b.segments.last());
            assert(nb.segments[m - 1].text_end == nb.segments[m].text_start);
        } else {
            assert(nb.segments[0].text_start == 0);
            utf::lemma_byte_len_ge_len(b.text);
        }
        assert(b.tiles());
        assert forall|k: int| 0 <= k < nb.segments.len() implies #[trigger] seg_content_ok(nb, k) by {
            if k < m {
                assert(nb.segments[k] == b.segments[k]);
                lemma_end_le_last(b, k);
                utf::lemma_chars_in_bytes_prefix(
                    b.text,
                    content,
                    b.segments[k].text_start as int,
                    b.segments[k].text_end as int,
                );
                assert(seg_chars(nb, k) == seg_chars(b, k));
                assert(seg_content_ok(b, k));
            } else {
                utf::lemma_chars_in_bytes_suffix(b.text, content, whole as int);
                assert(seg_chars(nb, k) == content);
            }
        }
    }
}

proof fn lemma_close_shape(st: ParseState, n: int, bounded: bool)
    requires
        shape_inv(st, n, bounded),
    ensures
        shape_inv(close(st), n, bounded),
{
    if let Some(b) = st.open {
        if !utf::all_white(b.text) {
            let c = close(st);
            assert forall|i: int| 0 <= i < c.blocks.len() implies {
                &&& !utf::all_white((#[trigger] c.blocks[i]).text)
                &&& c.blocks[i].tiles() ==> content_ok(c.blocks[i])
                &&& bounded ==> within(c.blocks[i], n)
            } by {
                if i < st.blocks.len() {
                    assert(c.blocks[i] == st.blocks[i]);
                }
            }
        }
    }
}

proof fn lemma_empty_block_shape(kind: BlockKind, bq: bool, n: int)
    ensures
        content_ok(new_block(kind, bq)),
        within(new_block(kind, bq), n),
{
}

proof fn lemma_step_shape(st: ParseState, e: EventModel, n: int, bounded: bool)
    requires
        shape_inv(st, n, bounded),
        bounded ==> e.src_end <= n,
    ensures
        shape_inv(step(st, e), n, bounded),
{
    lemma_close_shape(st, n, bounded);
    let c = close(st);
    match e.kind {
        MdKind::Start(t) => {
            if t == MdTag::Paragraph || t == MdTag::Heading || t == MdTag::TableCell {
                let kind = if t == MdTag::Paragraph {
                    if st.items > 0 { BlockKind::ListItem } else { BlockKind::Paragraph }
                } else if t == MdTag::Heading {
                    BlockKind::Heading
                } else {
                    BlockKind::TableCell
                };
                lemma_empty_block_shape(kind, c.bq > 0, n);
                assert(step(st, e) == start_block(st, kind));
            }
        },
        MdKind::End(_) => {},
        MdKind::Text => {
            if !(st.in_code || st.in_meta || st.image > 0) {
                let st1 = ParseState { url_link: st.link_url == Some(e.text), ..st };
                lemma_add_text_shape(st1, e.text, e.src_start, e.src_end, SegmentKind::Text, n, bounded);
            }
        },
        MdKind::Code => {
            if !(st.in_code || st.in_meta || st.image > 0) {
                lemma_add_text_shape(st, mask(e.text), e.src_start, e.src_end, SegmentKind::Code, n, bounded);
            }
        },
        MdKind::Break => {
            if let Some(b) = st.open {
                lemma_push_shape(b, seq!['\n'], e.src_start, e.src_end, SegmentKind::Break, st, n, bounded);
            }
        },
        MdKind::Other => {},
    }
}

proof fn lemma_add_text_shape(st: ParseState, content: Seq<char>, s: usize, e: usize, kind: SegmentKind, n: int, bounded: bool)
    requires
        shape_inv(st, n, bounded),
        bounded ==> e <= n,
        kind == SegmentKind::Code ==> content.len() > 0 && forall|i: int| 0 <= i < content.len() ==> #[trigger] content[i] == 'ー',
        kind != SegmentKind::Break,
    ensures
        shape_inv(add_text(st, content, s, e, kind), n, bounded),
{
    let st2 = if st.open is None && st.items > 0 {
        ParseState { open: Some(new_block(BlockKind::ListItem, st.bq > 0)), ..st }
    } else {
        st
    };
    if st.open is None && st.items > 0 {
        lemma_empty_block_shape(BlockKind::ListItem, st.bq > 0, n);
    }
    if let Some(b) = st2.open {
        lemma_push_shape(b, content, s, e, kind, st2, n, bounded);
    }
}

proof fn lemma_run_shape(evs: Seq<EventModel>, n: int)
    ensures
        shape_inv(run(evs), n, events_within(evs, n)),
    decreases evs.len(),
{
    if evs.len() > 0 {
        let bounded = events_within(evs, n);
        assert(evs.drop_last().len() < evs.len());
        lemma_run_shape(evs.drop_last(), n);
        if bounded {
            assert forall|i: int| 0 <= i < evs.drop_last().len() implies #[trigger] evs.drop_last()[i].src_end <= n by {
                assert(evs.drop_last()[i] == evs[i]);
            }
            assert(evs.last() == evs[evs.len() - 1]);
        }
        lemma_weaken_shape(run(evs.drop_last()), n, events_within(evs.drop_last(), n), bounded);
        lemma_step_shape(run(evs.drop_last()), evs.last(), n, bounded);
    }
}

proof fn lemma_weaken_shape(st: ParseState, n: int, b1: bool, b2: bool)
    requires
        shape_inv(st, n, b1),
        b2 ==> b1,
    ensures
        shape_inv(st, n, b2),
{
}

/// The blocks of a run of parser events: none is all white space, each one
/// that tiles its text holds masked code and line breaks in place, and when
/// every event's range ends inside an `n`-byte source, so does every
/// segment's.
pub proof fn lemma_blocks_shape(evs: Seq<EventModel>, n: int)
    ensures
        forall|i: int| 0 <= i < blocks_of(evs).len() ==> {
            &&& !utf::all_white((#[trigger] blocks_of(evs)[i]).text)
            &&& blocks_of(evs)[i].tiles() ==> content_ok(blocks_of(evs)[i])
            &&& events_within(evs, n) ==> within(blocks_of(evs)[i], n)
        },
{
    lemma_run_shape(evs, n);
    lemma_close_shape(run(evs), n, events_within(evs, n));
}

} // verus!
