//! Applying fixes to a source text, and the lint driver.
//!
//! Fix ranges are UTF-16 offsets, the unit the diagnostics report. A range
//! boundary that falls inside a surrogate pair is moved to the start of its
//! character, so a fix never splits one.

use crate::config::{self, Config, OptValue};
use crate::diagnostic::{self, Diagnostic, Fix, Severity};
use crate::document::{self, Document};
use crate::rules::{self, style, Anchor, AnyRule, BlockData, Ctx, Report, ReportModel};
use crate::sentence;
use crate::tokenizer::{self, Token, Tokenizer};
use crate::utf;
use vstd::prelude::*;

verus! {

/// A fix as its UTF-16 range and replacement text.
pub type FixModel = (int, int, Seq<char>);

/// The fixes the diagnostics carry, in order.
pub open spec fn fix_models(ds: Seq<Diagnostic>) -> Seq<FixModel>
    decreases ds.len(),
{
    if ds.len() == 0 {
        Seq::empty()
    } else {
        fix_models(ds.drop_last()) + match ds.last().fix {
            Some(f) => seq![(f.range@[0] as int, f.range@[1] as int, f.text@)],
            None => Seq::empty(),
        }
    }
}

/// Fixes are ordered by start, then by end.
pub open spec fn fix_le(a: FixModel, b: FixModel) -> bool {
    a.0 < b.0 || (a.0 == b.0 && a.1 <= b.1)
}

/// Where a stable insertion puts `x` into `s`: after every entry not above it.
pub open spec fn fix_insert_pos(s: Seq<FixModel>, x: FixModel) -> int
    decreases s.len(),
{
    if s.len() == 0 {
        0
    } else if fix_le(s.last(), x) {
        s.len() as int
    } else {
        fix_insert_pos(s.drop_last(), x)
    }
}

/// The fixes in stable order of their ranges.
pub open spec fn sort_fixes(s: Seq<FixModel>) -> Seq<FixModel>
    decreases s.len(),
{
    if s.len() == 0 {
        Seq::empty()
    } else {
        let t = sort_fixes(s.drop_last());
        t.insert(fix_insert_pos(t, s.last()), s.last())
    }
}

/// The character that UTF-16 offset `u` falls in (the length, at the end):
/// the longest prefix whose UTF-16 length is at most `u`.
pub open spec fn u16_char(cs: Seq<char>, u: int) -> int
    decreases cs.len(),
{
    if cs.len() == 0 || utf::utf16_count(cs) <= u {
        cs.len() as int
    } else {
        u16_char(cs.drop_last(), u)
    }
}

/// The text from fix `k` on, with the cursor at UTF-16 offset `cursor`, and
/// how many fixes were applied. A fix that starts before the cursor, runs
/// backwards or ends past the text is skipped.
pub open spec fn apply_from(cs: Seq<char>, fs: Seq<FixModel>, k: int, cursor: int) -> (Seq<char>, nat)
    decreases fs.len() - k,
{
    if k >= fs.len() || k < 0 {
        (cs.subrange(u16_char(cs, cursor), cs.len() as int), 0)
    } else {
        let f = fs[k];
        if f.0 < cursor || f.1 < f.0 || f.1 > utf::utf16_count(cs) {
            apply_from(cs, fs, k + 1, cursor)
        } else {
            let rest = apply_from(cs, fs, k + 1, f.1);
            (cs.subrange(u16_char(cs, cursor), u16_char(cs, f.0)) + f.2 + rest.0, rest.1 + 1)
        }
    }
}

/// What applying the diagnostics' fixes to `cs` gives.
pub open spec fn apply_fixes_spec(cs: Seq<char>, ds: Seq<Diagnostic>) -> (Seq<char>, nat) {
    apply_from(cs, sort_fixes(fix_models(ds)), 0, 0)
}

proof fn lemma_u16_char_bounds(cs: Seq<char>, u: int)
    ensures
        0 <= u16_char(cs, u) <= cs.len(),
        u >= 0 ==> utf::utf16_count(cs.take(u16_char(cs, u))) <= u,
    decreases cs.len(),
{
    if utf::utf16_count(cs) <= u {
        assert(cs.take(cs.len() as int) =~= cs);
    } else if cs.len() > 0 {
        lemma_u16_char_bounds(cs.drop_last(), u);
        let i = u16_char(cs.drop_last(), u);
        assert(cs.drop_last().take(i) =~= cs.take(i));
    }
}

proof fn lemma_u16_char_mono(cs: Seq<char>, u: int, v: int)
    requires
        u <= v,
    ensures
        u16_char(cs, u) <= u16_char(cs, v),
    decreases cs.len(),
{
    lemma_u16_char_bounds(cs, u);
    lemma_u16_char_bounds(cs, v);
    if utf::utf16_count(cs) <= v {
    } else if cs.len() > 0 {
        lemma_u16_char_mono(cs.drop_last(), u, v);
    }
}

/// UTF-16 prefix lengths only grow.
proof fn lemma_utf16_prefix_le(cs: Seq<char>, i: int, j: int)
    requires
        0 <= i <= j <= cs.len(),
    ensures
        utf::utf16_count(cs.take(i)) <= utf::utf16_count(cs.take(j)),
    decreases j - i,
{
    if i < j {
        lemma_utf16_prefix_le(cs, i, j - 1);
        assert(cs.take(j).drop_last() =~= cs.take(j - 1));
    }
}

/// Characters `i` with `u16_char(cs, u) == i` are those whose UTF-16 prefix
/// reaches `u` but whose next prefix does not.
proof fn lemma_u16_char_is(cs: Seq<char>, u: int, i: int)
    requires
        0 <= i <= cs.len(),
        utf::utf16_count(cs.take(i)) <= u,
        i == cs.len() || u < utf::utf16_count(cs.take(i + 1)),
    ensures
        u16_char(cs, u) == i,
    decreases cs.len(),
{
    assert(cs.take(cs.len() as int) =~= cs);
    if i == cs.len() {
    } else {
        lemma_utf16_prefix_le(cs, i + 1, cs.len() as int);
        assert(cs.drop_last().take(i) =~= cs.take(i));
        if i + 1 <= cs.len() - 1 {
            assert(cs.drop_last().take(i + 1) =~= cs.take(i + 1));
        } else {
            assert(cs.drop_last() =~= cs.take(i));
        }
        lemma_u16_char_is(cs.drop_last(), u, i);
    }
}

/// For each UTF-16 offset `0..=total`, the character it falls in.
fn u16_table(cs: &Vec<char>) -> (t: Vec<usize>)
    requires
        utf::utf16_count(cs@) <= usize::MAX,
    ensures
        t@.len() == utf::utf16_count(cs@),
        forall|u: int| 0 <= u < t@.len() ==> #[trigger] t@[u] == u16_char(cs@, u),
        u16_char(cs@, utf::utf16_count(cs@) as int) == cs@.len(),
{
    let mut t: Vec<usize> = Vec::new();
    let mut i: usize = 0;
    let mut u: usize = 0;
    while i < cs.len()
        invariant
            utf::utf16_count(cs@) <= usize::MAX,
            i <= cs@.len(),
            u == utf::utf16_count(cs@.take(i as int)),
            t@.len() == u,
            forall|v: int| 0 <= v < t@.len() ==> #[trigger] t@[v] == u16_char(cs@, v),
        decreases cs@.len() - i,
    {
        proof {
            assert(cs@.take(i + 1).drop_last() =~= cs@.take(i as int));
            lemma_utf16_prefix_le(cs@, i + 1, cs@.len() as int);
            assert(cs@.take(cs@.len() as int) =~= cs@);
        }
        let w = utf::char_len_utf16(cs[i]);
        let mut k: usize = 0;
        while k < w
            invariant
                k <= w,
                w == utf::utf16_width(cs@[i as int]),
                i < cs@.len(),
                u == utf::utf16_count(cs@.take(i as int)),
                u + w == utf::utf16_count(cs@.take(i + 1)),
                u + w <= utf::utf16_count(cs@),
                utf::utf16_count(cs@) <= usize::MAX,
                t@.len() == u + k,
                forall|v: int| 0 <= v < t@.len() ==> #[trigger] t@[v] == u16_char(cs@, v),
            decreases w - k,
        {
            proof {
                lemma_u16_char_is(cs@, u + k, i as int);
            }
            t.push(i);
            k = k + 1;
        }
        u = u + w;
        i = i + 1;
    }
    proof {
        assert(cs@.take(i as int) =~= cs@);
        lemma_u16_char_is(cs@, u as int, i as int);
    }
    t
}

/// The character UTF-16 offset `u` falls in, from the table.
fn char_of(table: &Vec<usize>, cs: &Vec<char>, u: usize) -> (r: usize)
    requires
        table@.len() == utf::utf16_count(cs@),
        forall|v: int| 0 <= v < table@.len() ==> #[trigger] table@[v] == u16_char(cs@, v),
        u16_char(cs@, utf::utf16_count(cs@) as int) == cs@.len(),
        u <= table@.len(),
    ensures
        r == u16_char(cs@, u as int),
{
    if u < table.len() {
        table[u]
    } else {
        cs.len()
    }
}

/// The fixes of the diagnostics, in order.
fn collect_fixes(diagnostics: &[Diagnostic]) -> (r: Vec<(usize, usize, String)>)
    ensures
        r@.len() == fix_models(diagnostics@).len(),
        forall|i: int| 0 <= i < r@.len() ==> {
            let m = #[trigger] fix_models(diagnostics@)[i];
            r@[i].0 == m.0 && r@[i].1 == m.1 && r@[i].2@ == m.2
        },
{
    let mut out: Vec<(usize, usize, String)> = Vec::new();
    let mut i: usize = 0;
    while i < diagnostics.len()
        invariant
            i <= diagnostics@.len(),
            out@.len() == fix_models(diagnostics@.take(i as int)).len(),
            forall|j: int| 0 <= j < out@.len() ==> {
                let m = #[trigger] fix_models(diagnostics@.take(i as int))[j];
                out@[j].0 == m.0 && out@[j].1 == m.1 && out@[j].2@ == m.2
            },
        decreases diagnostics@.len() - i,
    {
        assert(diagnostics@.take(i + 1).drop_last() =~= diagnostics@.take(i as int));
        match &diagnostics[i].fix {
            Some(f) => {
                out.push((f.range[0], f.range[1], f.text.clone()));
            },
            None => {},
        }
        i = i + 1;
    }
    assert(diagnostics@.take(i as int) =~= diagnostics@);
    out
}

pub open spec fn fix_views(v: Seq<(usize, usize, String)>) -> Seq<FixModel> {
    Seq::new(v.len(), |i: int| (v[i].0 as int, v[i].1 as int, v[i].2@))
}

/// Stable insertion sort of the fixes by range.
fn sort_fix_vec(v: Vec<(usize, usize, String)>) -> (r: Vec<(usize, usize, String)>)
    ensures
        fix_views(r@) == sort_fixes(fix_views(v@)),
{
    let ghost all = fix_views(v@);
    let mut out: Vec<(usize, usize, String)> = Vec::new();
    let mut rest = v;
    let ghost mut k: int = 0;
    while rest.len() > 0
        invariant
            0 <= k <= all.len(),
            fix_views(rest@) == all.skip(k),
            fix_views(out@) == sort_fixes(all.take(k)),
        decreases rest@.len(),
    {
        let ghost before = rest@;
        let x = rest.remove(0);
        let ghost xm: FixModel = (x.0 as int, x.1 as int, x.2@);
        proof {
            assert(x == before[0]);
            assert(fix_views(before)[0] == (before[0].0 as int, before[0].1 as int, before[0].2@));
            assert(fix_views(before) == all.skip(k));
            assert(fix_views(before).len() == before.len());
            assert(k < all.len());
            assert(all.skip(k)[0] == all[k]);
            assert(fix_views(before)[0] == all.skip(k)[0]);
            assert(xm == all[k]);
            assert(rest@ =~= before.drop_first());
            assert forall|i: int| 0 <= i < rest@.len() implies #[trigger] fix_views(rest@)[i] == all.skip(k + 1)[i] by {
                assert(rest@[i] == before[i + 1]);
                assert(fix_views(before)[i + 1] == all.skip(k)[i + 1]);
            }
            assert(fix_views(rest@) =~= all.skip(k + 1));
            assert(all.take(k + 1).drop_last() =~= all.take(k));
            assert(all.take(k + 1).last() == all[k]);
        }
        let mut j = out.len();
        assert(fix_views(out@).take(j as int) =~= fix_views(out@));
        while j > 0 && !(out[j - 1].0 < x.0 || (out[j - 1].0 == x.0 && out[j - 1].1 <= x.1))
            invariant
                j <= out@.len(),
                xm == (x.0 as int, x.1 as int, x.2@),
                fix_insert_pos(fix_views(out@), xm) == fix_insert_pos(fix_views(out@).take(j as int), xm),
            decreases j,
        {
            proof {
                let s = fix_views(out@).take(j as int);
                assert(s.drop_last() =~= fix_views(out@).take(j - 1));
            }
            j = j - 1;
        }
        proof {
            assert(fix_views(out@).take(out@.len() as int) =~= fix_views(out@));
            let s = fix_views(out@).take(j as int);
            if j > 0 {
                assert(s.last() == fix_views(out@)[j - 1]);
            }
        }
        let ghost before_out = fix_views(out@);
        out.insert(j, x);
        proof {
            assert(fix_views(out@) =~= before_out.insert(j as int, xm));
            k = k + 1;
        }
    }
    proof {
        assert(all.skip(k).len() == 0);
        assert(all.take(k) =~= all);
    }
    out
}

/// Apply the fixes carried by `diagnostics` to `source`. Fix ranges are
/// UTF-16 offsets, the same unit the diagnostics report; overlapping ones are
/// applied first-come and the rest skipped, so the caller re-lints to pick
/// them up on the next round.
pub fn apply_fixes(source: &str, diagnostics: &[Diagnostic]) -> (r: (String, usize))
    ensures
        r.0@ == apply_fixes_spec(source@, diagnostics@).0,
        r.1 == apply_fixes_spec(source@, diagnostics@).1,
{
    let collected = collect_fixes(diagnostics);
    assert(fix_views(collected@) =~= fix_models(diagnostics@));
    let fixes = sort_fix_vec(collected);
    let cs = utf::chars_of(source);
    let total16 = utf::utf16_len(source);
    let table = u16_table(&cs);
    let mut out: Vec<char> = Vec::new();
    let mut cursor: usize = 0;
    let mut applied: usize = 0;
    let ghost fs = fix_views(fixes@);
    let mut k: usize = 0;
    while k < fixes.len()
        invariant
            fs == fix_views(fixes@),
            cs@ == source@,
            table@.len() == utf::utf16_count(cs@),
            forall|u: int| 0 <= u < table@.len() ==> #[trigger] table@[u] == u16_char(cs@, u),
            u16_char(cs@, utf::utf16_count(cs@) as int) == cs@.len(),
            total16 == utf::utf16_count(cs@),
            k <= fixes@.len(),
            cursor <= total16,
            applied <= k,
            out@ + apply_from(cs@, fs, k as int, cursor as int).0 == apply_from(cs@, fs, 0, 0).0,
            applied + apply_from(cs@, fs, k as int, cursor as int).1 == apply_from(cs@, fs, 0, 0).1,
        decreases fixes@.len() - k,
    {
        let start = fixes[k].0;
        let end = fixes[k].1;
        if start < cursor || end < start || end > total16 {
            k = k + 1;
        } else {
            proof {
                lemma_u16_char_mono(cs@, cursor as int, start as int);
                lemma_u16_char_bounds(cs@, start as int);
            }
            let a = char_of(&table, &cs, cursor);
            let b = char_of(&table, &cs, start);
            let ghost before = out@;
            let mut p = a;
            while p < b
                invariant
                    a <= p <= b <= cs@.len(),
                    out@ == before + cs@.subrange(a as int, p as int),
                decreases b - p,
            {
                out.push(cs[p]);
                p = p + 1;
                assert(out@ =~= before + cs@.subrange(a as int, p as int));
            }
            let t = utf::chars_of(fixes[k].2.as_str());
            let ghost mid = out@;
            let mut q: usize = 0;
            while q < t.len()
                invariant
                    q <= t@.len(),
                    out@ == mid + t@.take(q as int),
                decreases t@.len() - q,
            {
                out.push(t[q]);
                q = q + 1;
                assert(out@ =~= mid + t@.take(q as int));
            }
            proof {
                assert(t@.take(q as int) =~= t@);
                let rest = apply_from(cs@, fs, k + 1, end as int);
                assert(out@ + rest.0 =~= before + (cs@.subrange(a as int, b as int) + fs[k as int].2 + rest.0));
            }
            cursor = end;
            applied = applied + 1;
            k = k + 1;
        }
    }
    proof {
        lemma_u16_char_bounds(cs@, cursor as int);
    }
    let a = char_of(&table, &cs, cursor);
    let ghost before = out@;
    let mut p = a;
    while p < cs.len()
        invariant
            a <= p <= cs@.len(),
            out@ == before + cs@.subrange(a as int, p as int),
        decreases cs@.len() - p,
    {
        out.push(cs[p]);
        p = p + 1;
        assert(out@ =~= before + cs@.subrange(a as int, p as int));
    }
    (utf::string_of(out.as_slice()), applied)
}

/// What a diagnostic says, in terms of its positions and texts.
pub ghost struct DiagModel {
    pub rule: Seq<char>,
    pub severity: Severity,
    pub message: Seq<char>,
    pub line: int,
    pub column: int,
    pub end_line: int,
    pub end_column: int,
    pub range: (int, int),
    pub fix: Option<FixModel>,
}

pub open spec fn diag_model(d: Diagnostic) -> DiagModel {
    DiagModel {
        rule: d.rule@,
        severity: d.severity,
        message: d.message@,
        line: d.line as int,
        column: d.column as int,
        end_line: d.end_line as int,
        end_column: d.end_column as int,
        range: (d.range@[0] as int, d.range@[1] as int),
        fix: match d.fix {
            Some(f) => Some((f.range@[0] as int, f.range@[1] as int, f.text@)),
            None => None,
        },
    }
}

pub open spec fn diag_models(v: Seq<Diagnostic>) -> Seq<DiagModel> {
    Seq::new(v.len(), |i: int| diag_model(v[i]))
}

/// A report offset in source bytes: through its block's segments, or, for
/// a document-level report, clamped to the source.
pub open spec fn to_src_spec(doc: Document, anchor: Anchor, b: int) -> int {
    let len = utf::byte_len(doc.source@) as int;
    match anchor {
        Anchor::Block(i) => if i < doc.blocks@.len() {
            document::to_source_spec(doc.blocks@[i as int].segments@, b)
        } else if b < len {
            b
        } else {
            len
        },
        Anchor::Source => if b < len {
            b
        } else {
            len
        },
    }
}

/// The source range a report's fix may rewrite: inside one verbatim segment
/// of its block (none otherwise, and the finding stands without a fix), or,
/// for a document-level report, clamped to the source.
pub open spec fn fix_src_spec(doc: Document, anchor: Anchor, a: int, b: int) -> Option<(int, int)> {
    match anchor {
        Anchor::Block(i) if i < doc.blocks@.len() => document::fix_range_spec(doc.blocks@[i as int].segments@, a, b),
        _ => {
            let fs = to_src_spec(doc, anchor, a);
            let fe = to_src_spec(doc, anchor, b);
            Some((fs, if fe < fs { fs } else { fe }))
        },
    }
}

/// The diagnostic a rule's report becomes.
pub open spec fn to_diag_spec(doc: Document, anchor: Anchor, rule: Seq<char>, severity: Severity, r: ReportModel) -> DiagModel {
    let src = doc.source@;
    let start = to_src_spec(doc, anchor, r.start);
    let end0 = to_src_spec(doc, anchor, r.end);
    let end = if end0 < start { start } else { end0 };
    let p = document::position_spec(src, start);
    let q = document::position_spec(src, end);
    DiagModel {
        rule,
        severity,
        message: r.message,
        line: p.0 as int,
        column: p.1 as int,
        end_line: q.0 as int,
        end_column: q.1 as int,
        range: (document::utf16_at(src, start) as int, document::utf16_at(src, end) as int),
        fix: match r.fix {
            Some(f) => match fix_src_spec(doc, anchor, f.0, f.1) {
                Some(p) => Some((document::utf16_at(src, p.0) as int, document::utf16_at(src, p.1) as int, f.2)),
                None => None,
            },
            None => None,
        },
    }
}

fn to_src(doc: &Document, anchor: Anchor, b: usize) -> (r: usize)
    requires
        doc.wf(),
        forall|i: int| 0 <= i < doc.blocks@.len() ==> (#[trigger] doc.blocks@[i]).segs_wf(),
    ensures
        r == to_src_spec(*doc, anchor, b as int),
{
    let len = doc.byte_to_utf16.len() - 1;
    match anchor {
        Anchor::Block(i) => if i < doc.blocks.len() {
            doc.blocks[i].to_source(b)
        } else if b < len {
            b
        } else {
            len
        },
        Anchor::Source => if b < len {
            b
        } else {
            len
        },
    }
}

fn fix_src(doc: &Document, anchor: Anchor, a: usize, b: usize) -> (r: Option<(usize, usize)>)
    requires
        doc.wf(),
        forall|i: int| 0 <= i < doc.blocks@.len() ==> (#[trigger] doc.blocks@[i]).segs_wf(),
    ensures
        match r {
            Some(p) => fix_src_spec(*doc, anchor, a as int, b as int) == Some((p.0 as int, p.1 as int)),
            None => fix_src_spec(*doc, anchor, a as int, b as int) is None,
        },
{
    match anchor {
        Anchor::Block(i) if i < doc.blocks.len() => doc.blocks[i].fix_range(a, b),
        _ => {
            let fs = to_src(doc, anchor, a);
            let fe0 = to_src(doc, anchor, b);
            let fe = if fe0 < fs {
                fs
            } else {
                fe0
            };
            Some((fs, fe))
        },
    }
}

fn to_diagnostic(doc: &Document, anchor: Anchor, rule: &str, severity: Severity, r: Report) -> (d: Diagnostic)
    requires
        doc.wf(),
        forall|i: int| 0 <= i < doc.blocks@.len() ==> (#[trigger] doc.blocks@[i]).segs_wf(),
    ensures
        diag_model(d) == to_diag_spec(*doc, anchor, rule@, severity, r.model()),
{
    let ghost rm = r.model();
    let start = to_src(doc, anchor, r.start);
    let end0 = to_src(doc, anchor, r.end);
    let end = if end0 < start {
        start
    } else {
        end0
    };
    let (line, column) = doc.position(start);
    let (end_line, end_column) = doc.position(end);
    let fix = match r.fix {
        Some(f) => match fix_src(doc, anchor, f.start, f.end) {
            Some((fs, fe)) => Some(Fix { range: [doc.utf16_offset(fs), doc.utf16_offset(fe)], text: f.text }),
            None => None,
        },
        None => None,
    };
    let d = Diagnostic {
        rule: rule.to_string(),
        severity,
        message: r.message,
        line,
        column,
        end_line,
        end_column,
        range: [doc.utf16_offset(start), doc.utf16_offset(end)],
        fix,
    };
    d
}

/// Diagnostics are ordered by line, column, then rule id.
pub open spec fn diag_le(a: DiagModel, b: DiagModel) -> bool {
    a.line < b.line || (a.line == b.line && (a.column < b.column || (a.column == b.column && !config::str_lt(
        b.rule,
        a.rule,
    ))))
}

pub open spec fn diag_insert_pos(s: Seq<DiagModel>, x: DiagModel) -> int
    decreases s.len(),
{
    if s.len() == 0 {
        0
    } else if diag_le(s.last(), x) {
        s.len() as int
    } else {
        diag_insert_pos(s.drop_last(), x)
    }
}

/// The diagnostics in stable order of (line, column, rule).
pub open spec fn sort_diags(s: Seq<DiagModel>) -> Seq<DiagModel>
    decreases s.len(),
{
    if s.len() == 0 {
        Seq::empty()
    } else {
        let t = sort_diags(s.drop_last());
        t.insert(diag_insert_pos(t, s.last()), s.last())
    }
}

fn diag_before_or_same(a: &Diagnostic, b: &Diagnostic) -> (r: bool)
    ensures
        r == diag_le(diag_model(*a), diag_model(*b)),
{
    a.line < b.line || (a.line == b.line && (a.column < b.column || (a.column == b.column && !config::str_less(
        b.rule.as_str(),
        a.rule.as_str(),
    ))))
}

/// Stable insertion sort of diagnostics by (line, column, rule).
fn sort_diagnostics(v: Vec<Diagnostic>) -> (r: Vec<Diagnostic>)
    ensures
        diag_models(r@) == sort_diags(diag_models(v@)),
{
    let ghost all = diag_models(v@);
    let mut out: Vec<Diagnostic> = Vec::new();
    let mut rest = v;
    let ghost mut k: int = 0;
    assert(all.take(0) =~= Seq::<DiagModel>::empty());
    assert(all.skip(0) =~= all);
    assert(diag_models(out@) =~= Seq::<DiagModel>::empty());
    while rest.len() > 0
        invariant
            0 <= k <= all.len(),
            diag_models(rest@) == all.skip(k),
            diag_models(out@) == sort_diags(all.take(k)),
        decreases rest@.len(),
    {
        let ghost before = rest@;
        let x = rest.remove(0);
        proof {
            assert(x == before[0]);
            assert(diag_models(before).len() == before.len());
            assert(all.skip(k).len() == all.len() - k);
            assert(all.skip(k)[0] == all[k]);
            assert(diag_models(before)[0] == all[k]);
            assert(rest@ =~= before.drop_first());
            assert forall|i: int| 0 <= i < rest@.len() implies #[trigger] diag_models(rest@)[i] == all.skip(k + 1)[i] by {
                assert(rest@[i] == before[i + 1]);
                assert(diag_models(before)[i + 1] == all.skip(k)[i + 1]);
            }
            assert(diag_models(rest@) =~= all.skip(k + 1));
            assert(all.take(k + 1).drop_last() =~= all.take(k));
            assert(all.take(k + 1).last() == all[k]);
        }
        let mut j = out.len();
        assert(diag_models(out@).take(j as int) =~= diag_models(out@));
        while j > 0 && !diag_before_or_same(&out[j - 1], &x)
            invariant
                j <= out@.len(),
                diag_insert_pos(diag_models(out@), diag_model(x)) == diag_insert_pos(
                    diag_models(out@).take(j as int),
                    diag_model(x),
                ),
            decreases j,
        {
            proof {
                let s = diag_models(out@).take(j as int);
                assert(s.drop_last() =~= diag_models(out@).take(j - 1));
            }
            j = j - 1;
        }
        proof {
            let s = diag_models(out@).take(j as int);
            if j > 0 {
                assert(s.last() == diag_models(out@)[j - 1]);
            }
        }
        let ghost before_out = diag_models(out@);
        out.insert(j, x);
        proof {
            assert(diag_models(out@) =~= before_out.insert(j as int, diag_model(x)));
            k = k + 1;
        }
    }
    proof {
        assert(all.take(k) =~= all);
    }
    out
}

/// The options a rule runs with: its settings when they are a mapping.
pub open spec fn options_spec(config: Config, id: Seq<char>) -> OptValue {
    match config.rule_spec(id) {
        Some(OptValue::Mapping(m)) => OptValue::Mapping(m),
        _ => OptValue::Null,
    }
}

/// The severity a rule reports at: its `severity` option, error by default.
pub open spec fn severity_of(opts: OptValue) -> Severity {
    match diagnostic::severity_named(config::opt_str_spec(opts, "severity"@, "error"@)) {
        Some(s) => s,
        None => Severity::Error,
    }
}

/// The blocks of a document, each with tokens in order inside its text and
/// the sentences those tokens give.
pub open spec fn blocks_ok(doc: Document, bds: Seq<BlockData>) -> bool {
    &&& bds.len() == doc.blocks@.len()
    &&& forall|i: int| 0 <= i < bds.len() ==> {
        &&& (#[trigger] bds[i]).index == i
        &&& *bds[i].block == doc.blocks@[i]
        &&& bds[i].wf()
    }
}

/// What a rule reports from block `i` on, carrying its state across blocks,
/// then its document-level findings.
pub open spec fn run_from(
    st: rules::RuleState,
    bds: Seq<BlockData>,
    i: int,
    src: Seq<char>,
    opts: OptValue,
) -> Seq<(Anchor, ReportModel)>
    decreases bds.len() - i,
{
    if i < 0 || i >= bds.len() {
        rules::finish_spec(st, opts)
    } else if rules::scope_of(st.which).admits_spec(*bds[i].block) {
        let rs = rules::check_spec(st, bds[i], src, opts);
        Seq::new(rs.len(), |k: int| (Anchor::Block(bds[i].index), rs[k])) + run_from(
            rules::next_state(st, bds[i], opts),
            bds,
            i + 1,
            src,
            opts,
        )
    } else {
        run_from(st, bds, i + 1, src, opts)
    }
}

/// The diagnostics of the rule at registry position `which`.
pub open spec fn rule_diags(config: Config, doc: Document, bds: Seq<BlockData>, which: int) -> Seq<DiagModel> {
    let id = rules::rule_ids()[which];
    let opts = options_spec(config, id);
    let items = run_from(rules::plain(which), bds, 0, doc.source@, opts);
    Seq::new(items.len(), |k: int| to_diag_spec(doc, items[k].0, id, severity_of(opts), items[k].1))
}

/// Every enabled rule's diagnostics, rule after rule.
pub open spec fn collect_spec(config: Config, doc: Document, bds: Seq<BlockData>, n: int) -> Seq<DiagModel>
    decreases n,
{
    if n <= 0 {
        Seq::empty()
    } else {
        let on = rules::enabled_upto(config, 20);
        collect_spec(config, doc, bds, n - 1) + rule_diags(config, doc, bds, on[n - 1])
    }
}

/// What a lint of the document's blocks reports, in order of position.
pub open spec fn lint_spec(config: Config, doc: Document, bds: Seq<BlockData>) -> Seq<DiagModel> {
    sort_diags(collect_spec(config, doc, bds, rules::enabled_upto(config, 20).len() as int))
}

pub struct FileResult {
    pub path: String,
    pub diagnostics: Vec<Diagnostic>,
}

pub struct FixResult {
    pub source: String,
    pub applied: usize,
    pub result: FileResult,
}

pub struct Linter {
    pub tokenizer: Tokenizer,
    pub config: Config,
}

/// Run one rule over every block it admits, then let it finish.
fn run_rule(rule: &mut AnyRule, doc: &Document, bds: &Vec<BlockData>, opts: &OptValue, out: &mut Vec<Diagnostic>)
    requires
        old(rule).inv(),
        old(rule).state() == rules::plain(old(rule).which()),
        0 <= old(rule).which() < 20,
        doc.wf(),
        forall|i: int| 0 <= i < doc.blocks@.len() ==> (#[trigger] doc.blocks@[i]).segs_wf(),
        blocks_ok(*doc, bds@),
    ensures
        diag_models(final(out)@) == diag_models(old(out)@) + {
            let id = rules::rule_ids()[old(rule).which()];
            let items = run_from(rules::plain(old(rule).which()), bds@, 0, doc.source@, *opts);
            Seq::new(
                items.len(),
                |k: int| to_diag_spec(*doc, items[k].0, id, severity_of(*opts), items[k].1),
            )
        },
{
    let ghost which = rule.which();
    let ghost st0 = rule.state();
    let id = rule.id();
    let sev = match Severity::parse(config::opt_str(opts, "severity", "error").as_str()) {
        Some(s) => s,
        None => Severity::Error,
    };
    let ctx = Ctx { doc, options: opts };
    let scope = rule.scope();
    let ghost items = run_from(st0, bds@, 0, doc.source@, *opts);
    let ghost start = diag_models(out@);
    let ghost mut done: Seq<(Anchor, ReportModel)> = Seq::empty();
    let mut i: usize = 0;
    while i < bds.len()
        invariant
            i <= bds@.len(),
            rule.inv(),
            rule.which() == which,
            scope == rules::scope_of(which),
            id@ == rules::rule_ids()[which],
            sev == severity_of(*opts),
            ctx.doc == doc,
            ctx.options == opts,
            doc.wf(),
            forall|k: int| 0 <= k < doc.blocks@.len() ==> (#[trigger] doc.blocks@[k]).segs_wf(),
            blocks_ok(*doc, bds@),
            done + run_from(rule.state(), bds@, i as int, doc.source@, *opts) == items,
            diag_models(out@) == start + Seq::new(
                done.len(),
                |k: int| to_diag_spec(*doc, done[k].0, id@, sev, done[k].1),
            ),
        decreases bds@.len() - i,
    {
        let blk = &bds[i];
        if scope.admits(blk.block) {
            let ghost st = rule.state();
            assert(st.which == which);
            let reports = rule.check(blk, &ctx);
            let ghost rs = rules::check_spec(st, *blk, doc.source@, *opts);
            let ghost tagged = Seq::new(rs.len(), |k: int| (Anchor::Block(blk.index), rs[k]));
            let mut rest = reports;
            let ghost mut m: int = 0;
            let ghost base = diag_models(out@);
            let ghost rv = rest@;
            while rest.len() > 0
                invariant
                    0 <= m <= rs.len(),
                    rules::models(rest@) == rs.skip(m),
                    doc.wf(),
                    forall|k: int| 0 <= k < doc.blocks@.len() ==> (#[trigger] doc.blocks@[k]).segs_wf(),
                    diag_models(out@) == base + Seq::new(
                        m as nat,
                        |k: int| to_diag_spec(*doc, Anchor::Block(blk.index), id@, sev, rs[k]),
                    ),
                decreases rest@.len(),
            {
                let ghost before = rest@;
                let r = rest.remove(0);
                proof {
                    assert(r == before[0]);
                    assert(rules::models(before).len() == before.len());
                    assert(rs.skip(m).len() == rs.len() - m);
                    assert(rules::models(before)[0] == rs[m]);
                    assert(rest@ =~= before.drop_first());
                    assert forall|x: int| 0 <= x < rest@.len() implies #[trigger] rules::models(rest@)[x] == rs.skip(m + 1)[x] by {
                        assert(rest@[x] == before[x + 1]);
                        assert(rules::models(before)[x + 1] == rs.skip(m)[x + 1]);
                    }
                    assert(rules::models(rest@) =~= rs.skip(m + 1));
                }
                let d = to_diagnostic(doc, Anchor::Block(blk.index), id, sev, r);
                let ghost bo = diag_models(out@);
                out.push(d);
                proof {
                    assert(diag_models(out@) =~= bo.push(diag_model(d)));
                    assert(Seq::new((m + 1) as nat, |k: int| to_diag_spec(*doc, Anchor::Block(blk.index), id@, sev, rs[k]))
                        =~= Seq::new(m as nat, |k: int| to_diag_spec(*doc, Anchor::Block(blk.index), id@, sev, rs[k])).push(
                        to_diag_spec(*doc, Anchor::Block(blk.index), id@, sev, rs[m]),
                    ));
                    m = m + 1;
                }
            }
            proof {
                assert(rs.skip(m).len() == 0);
                let nd = done + tagged;
                assert(nd + run_from(rule.state(), bds@, i + 1, doc.source@, *opts) =~= done + run_from(
                    st,
                    bds@,
                    i as int,
                    doc.source@,
                    *opts,
                ));
                assert(diag_models(out@) =~= start + Seq::new(
                    nd.len(),
                    |k: int| to_diag_spec(*doc, nd[k].0, id@, sev, nd[k].1),
                ));
                done = nd;
            }
        }
        i = i + 1;
    }
    let finished = rule.finish(&ctx);
    let ghost fs = rules::finish_spec(rule.state(), *opts);
    let mut rest = finished;
    let ghost mut m: int = 0;
    let ghost base = diag_models(out@);
    while rest.len() > 0
        invariant
            0 <= m <= fs.len(),
            style::anchored_models(rest@) == fs.skip(m),
            doc.wf(),
            forall|k: int| 0 <= k < doc.blocks@.len() ==> (#[trigger] doc.blocks@[k]).segs_wf(),
            diag_models(out@) == base + Seq::new(m as nat, |k: int| to_diag_spec(*doc, fs[k].0, id@, sev, fs[k].1)),
        decreases rest@.len(),
    {
        let ghost before = rest@;
        let (a, r) = rest.remove(0);
        proof {
            assert((a, r) == before[0]);
            assert(style::anchored_models(before).len() == before.len());
            assert(fs.skip(m).len() == fs.len() - m);
            assert(style::anchored_models(before)[0] == fs[m]);
            assert(rest@ =~= before.drop_first());
            assert forall|x: int| 0 <= x < rest@.len() implies #[trigger] style::anchored_models(rest@)[x] == fs.skip(m + 1)[x] by {
                assert(rest@[x] == before[x + 1]);
                assert(style::anchored_models(before)[x + 1] == fs.skip(m)[x + 1]);
            }
            assert(style::anchored_models(rest@) =~= fs.skip(m + 1));
        }
        let d = to_diagnostic(doc, a, id, sev, r);
        let ghost bo = diag_models(out@);
        out.push(d);
        proof {
            assert(diag_models(out@) =~= bo.push(diag_model(d)));
            assert(Seq::new((m + 1) as nat, |k: int| to_diag_spec(*doc, fs[k].0, id@, sev, fs[k].1)) =~= Seq::new(
                m as nat,
                |k: int| to_diag_spec(*doc, fs[k].0, id@, sev, fs[k].1),
            ).push(to_diag_spec(*doc, fs[m].0, id@, sev, fs[m].1)));
            m = m + 1;
        }
    }
    proof {
        assert(fs.skip(m).len() == 0);
        assert(run_from(rule.state(), bds@, i as int, doc.source@, *opts) == fs);
        let all = done + fs;
        assert(all =~= items);
        assert(diag_models(out@) =~= start + Seq::new(
            items.len(),
            |k: int| to_diag_spec(*doc, items[k].0, id@, sev, items[k].1),
        ));
    }
}

/// `doc` is what parsing `src` gives.
pub open spec fn parsed(doc: Document, src: Seq<char>) -> bool {
    &&& doc.source@ == src
    &&& doc.wf()
    &&& document::blocks_model(doc.blocks@) == document::blocks_of(document::markdown_events(src))
    &&& forall|i: int| 0 <= i < doc.blocks@.len() ==> (#[trigger] doc.blocks@[i]).wf()
}

/// An analysis of block texts: the tokens used for each text it holds, each
/// list in order inside its text.
pub open spec fn analysis_ok(m: Map<Seq<char>, Seq<Token>>) -> bool {
    forall|t: Seq<char>| #[trigger] m.dom().contains(t) ==> tokenizer::monotone_tokens(m[t], utf::byte_len(t) as int)
}

/// Each block's tokens are the ones `m` holds for the block's text.
pub open spec fn tokens_from(m: Map<Seq<char>, Seq<Token>>, doc: Document, bds: Seq<BlockData>) -> bool {
    forall|i: int|
        0 <= i < bds.len() ==> m.dom().contains(doc.blocks@[i].text@) && (#[trigger] bds[i]).tokens@
            == m[doc.blocks@[i].text@]
}

/// `r` is a lint of `source` under `config` with the analysis `m`: the source
/// parsed, each block given `m`'s tokens for its text, and every enabled rule
/// run over them.
pub open spec fn lints(
    config: Config,
    m: Map<Seq<char>, Seq<Token>>,
    path: Seq<char>,
    source: Seq<char>,
    r: FileResult,
) -> bool {
    &&& r.path@ == path
    &&& exists|doc: Document, bds: Seq<BlockData>|
        {
            &&& parsed(doc, source)
            &&& blocks_ok(doc, bds)
            &&& tokens_from(m, doc, bds)
            &&& diag_models(r.diagnostics@) == lint_spec(config, doc, bds)
        }
}

/// `m2` keeps every analysis `m1` holds.
pub open spec fn extends(m1: Map<Seq<char>, Seq<Token>>, m2: Map<Seq<char>, Seq<Token>>) -> bool {
    forall|t: Seq<char>| #[trigger] m1.dom().contains(t) ==> m2.dom().contains(t) && m2[t] == m1[t]
}

/// A lint under an analysis is one under any analysis that keeps it.
pub proof fn lemma_lints_extend(
    config: Config,
    m1: Map<Seq<char>, Seq<Token>>,
    m2: Map<Seq<char>, Seq<Token>>,
    path: Seq<char>,
    source: Seq<char>,
    r: FileResult,
)
    requires
        lints(config, m1, path, source, r),
        extends(m1, m2),
    ensures
        lints(config, m2, path, source, r),
{
    let (doc, bds) = choose|doc: Document, bds: Seq<BlockData>|
        {
            &&& parsed(doc, source)
            &&& blocks_ok(doc, bds)
            &&& tokens_from(m1, doc, bds)
            &&& diag_models(r.diagnostics@) == lint_spec(config, doc, bds)
        };
    assert forall|i: int| 0 <= i < bds.len() implies m2.dom().contains(doc.blocks@[i].text@) && (#[trigger] bds[i]).tokens@
        == m2[doc.blocks@[i].text@] by {
        assert(m1.dom().contains(doc.blocks@[i].text@));
    }
    assert(tokens_from(m2, doc, bds));
}

/// The tokens a cache holds, by text.
pub open spec fn entries_map(es: Seq<(String, Vec<Token>)>) -> Map<Seq<char>, Seq<Token>>
    decreases es.len(),
{
    if es.len() == 0 {
        Map::empty()
    } else {
        entries_map(es.drop_last()).insert(es.last().0@, es.last().1@)
    }
}

proof fn lemma_entries_map(es: Seq<(String, Vec<Token>)>)
    requires
        forall|i: int, j: int| 0 <= i < j < es.len() ==> (#[trigger] es[i]).0@ != (#[trigger] es[j]).0@,
    ensures
        forall|t: Seq<char>| #[trigger] entries_map(es).dom().contains(t) <==> exists|i: int| 0 <= i < es.len() && (#[trigger] es[i]).0@ == t,
        forall|i: int| 0 <= i < es.len() ==> entries_map(es)[(#[trigger] es[i]).0@] == es[i].1@,
    decreases es.len(),
{
    if es.len() > 0 {
        let p = es.drop_last();
        assert forall|i: int, j: int| 0 <= i < j < p.len() implies (#[trigger] p[i]).0@ != (#[trigger] p[j]).0@ by {
            assert(p[i] == es[i] && p[j] == es[j]);
        }
        lemma_entries_map(p);
        let n = es.len() - 1;
        assert forall|t: Seq<char>| #[trigger] entries_map(es).dom().contains(t) <==> exists|i: int| 0 <= i < es.len() && (#[trigger] es[i]).0@ == t by {
            assert(es.last() == es[n]);
            if entries_map(es).dom().contains(t) {
                if t == es[n].0@ {
                } else {
                    assert(entries_map(p).dom().contains(t));
                    let i = choose|i: int| 0 <= i < p.len() && (#[trigger] p[i]).0@ == t;
                    assert(es[i] == p[i]);
                }
            }
            if exists|i: int| 0 <= i < es.len() && (#[trigger] es[i]).0@ == t {
                let i = choose|i: int| 0 <= i < es.len() && (#[trigger] es[i]).0@ == t;
                if i < n {
                    assert(p[i] == es[i]);
                }
            }
        }
        assert forall|i: int| 0 <= i < es.len() implies entries_map(es)[(#[trigger] es[i]).0@] == es[i].1@ by {
            assert(es.last() == es[n]);
            if i < n {
                assert(p[i] == es[i]);
                assert(es[i].0@ != es[n].0@);
            }
        }
    }
}

/// Tokens already computed for a block text, so that a block that repeats,
/// or that a fix round leaves as it was, is analysed once: within a run the
/// same text always gets the same tokens.
struct TokenCache {
    entries: Vec<(String, Vec<Token>)>,
}

impl TokenCache {
    /// The texts are distinct and every token list lies in order inside its text.
    spec fn ok(&self) -> bool {
        &&& forall|i: int, j: int| 0 <= i < j < self.entries@.len() ==> (#[trigger] self.entries@[i]).0@ != (#[trigger] self.entries@[j]).0@
        &&& forall|i: int|
            0 <= i < self.entries@.len() ==> tokenizer::monotone_tokens(
                (#[trigger] self.entries@[i]).1@,
                utf::byte_len(self.entries@[i].0@) as int,
            )
    }

    /// The tokens the cache holds, by text.
    spec fn map(&self) -> Map<Seq<char>, Seq<Token>> {
        entries_map(self.entries@)
    }

    proof fn lemma_ok(&self)
        requires
            self.ok(),
        ensures
            analysis_ok(self.map()),
    {
        lemma_entries_map(self.entries@);
        assert forall|t: Seq<char>| #[trigger] self.map().dom().contains(t) implies tokenizer::monotone_tokens(
            self.map()[t],
            utf::byte_len(t) as int,
        ) by {
            let i = choose|i: int| 0 <= i < self.entries@.len() && (#[trigger] self.entries@[i]).0@ == t;
        }
    }

    fn new() -> (c: TokenCache)
        ensures
            c.ok(),
            c.map() == Map::<Seq<char>, Seq<Token>>::empty(),
    {
        TokenCache { entries: Vec::new() }
    }

    /// The tokens of `text`: the cached ones when `text` was seen before, else
    /// the tokenizer's, which are then kept.
    fn tokens(&mut self, tokenizer: &Tokenizer, text: &str) -> (r: Vec<Token>)
        requires
            old(self).ok(),
        ensures
            final(self).ok(),
            extends(old(self).map(), final(self).map()),
            final(self).map().dom().contains(text@),
            r@ == final(self).map()[text@],
            old(self).map().dom().contains(text@) ==> final(self).map() == old(self).map(),
            !old(self).map().dom().contains(text@) ==> exists|raw: Seq<Token>|
                r@ == tokenizer::kept_tokens(raw, 0, utf::byte_len(text@) as int),
    {
        proof {
            lemma_entries_map(self.entries@);
        }
        let mut i: usize = 0;
        while i < self.entries.len()
            invariant
                self.ok(),
                *self == *old(self),
                i <= self.entries@.len(),
                forall|k: int| 0 <= k < i ==> (#[trigger] self.entries@[k]).0@ != text@,
            decreases self.entries@.len() - i,
        {
            if utf::str_eq(self.entries[i].0.as_str(), text) {
                proof {
                    lemma_entries_map(self.entries@);
                }
                return clone_tokens(&self.entries[i].1);
            }
            i = i + 1;
        }
        let toks = tokenizer.tokenize(text);
        let kept = clone_tokens(&toks);
        let ghost before = self.entries@;
        self.entries.push((text.to_string(), kept));
        proof {
            assert(self.entries@.drop_last() == before);
            assert forall|a: int, b: int| 0 <= a < b < self.entries@.len() implies (#[trigger] self.entries@[a]).0@
                != (#[trigger] self.entries@[b]).0@ by {
                assert(self.entries@[a] == before[a]);
                if b < before.len() {
                    assert(self.entries@[b] == before[b]);
                }
            }
            assert forall|k: int| 0 <= k < self.entries@.len() implies tokenizer::monotone_tokens(
                (#[trigger] self.entries@[k]).1@,
                utf::byte_len(self.entries@[k].0@) as int,
            ) by {
                if k < before.len() {
                    assert(self.entries@[k] == before[k]);
                }
            }
            assert(!entries_map(before).dom().contains(text@));
            assert forall|t: Seq<char>| #[trigger] entries_map(before).dom().contains(t) implies self.map().dom().contains(t)
                && self.map()[t] == entries_map(before)[t] by {}
        }
        toks
    }
}

/// A copy of a token list.
fn clone_tokens(v: &Vec<Token>) -> (r: Vec<Token>)
    ensures
        r@ == v@,
{
    let mut r: Vec<Token> = Vec::new();
    let mut i: usize = 0;
    while i < v.len()
        invariant
            i <= v@.len(),
            r@ == v@.take(i as int),
        decreases v@.len() - i,
    {
        r.push(v[i].clone());
        i = i + 1;
        assert(r@ =~= v@.take(i as int));
    }
    assert(v@.take(i as int) =~= v@);
    r
}

impl Linter {
    pub fn with_tokenizer(config: Config, tokenizer: Tokenizer) -> (l: Linter)
        ensures
            l.config == config,
            l.tokenizer == tokenizer,
    {
        Linter { tokenizer, config }
    }

    /// Lint a parsed document whose blocks have been analysed.
    pub fn lint_with(&self, path: &str, doc: &Document, bds: &Vec<BlockData>) -> (r: FileResult)
        requires
            doc.wf(),
            forall|i: int| 0 <= i < doc.blocks@.len() ==> (#[trigger] doc.blocks@[i]).segs_wf(),
            blocks_ok(*doc, bds@),
        ensures
            r.path@ == path@,
            diag_models(r.diagnostics@) == lint_spec(self.config, *doc, bds@),
    {
        let mut pending = rules::build(&self.config);
        let ghost on = rules::enabled_upto(self.config, 20);
        let mut out: Vec<Diagnostic> = Vec::new();
        let ghost mut j: int = 0;
        let null = OptValue::Null;
        proof {
            lemma_enabled_range(self.config, 20);
        }
        assert(diag_models(out@) =~= Seq::<DiagModel>::empty());
        while pending.len() > 0
            invariant
                on == rules::enabled_upto(self.config, 20),
                0 <= j <= on.len(),
                pending@.len() == on.len() - j,
                forall|k: int| 0 <= k < pending@.len() ==> {
                    &&& (#[trigger] pending@[k]).which() == on[j + k]
                    &&& pending@[k].state() == rules::plain(pending@[k].which())
                    &&& pending@[k].inv()
                },
                forall|k: int| 0 <= k < on.len() ==> 0 <= #[trigger] on[k] < 20,
                null == OptValue::Null,
                doc.wf(),
                forall|i: int| 0 <= i < doc.blocks@.len() ==> (#[trigger] doc.blocks@[i]).segs_wf(),
                blocks_ok(*doc, bds@),
                diag_models(out@) == collect_spec(self.config, *doc, bds@, j),
            decreases pending@.len(),
        {
            let ghost before = pending@;
            let mut rule = pending.remove(0);
            proof {
                assert(rule == before[0]);
                assert(pending@ =~= before.drop_first());
                assert forall|k: int| 0 <= k < pending@.len() implies {
                    &&& (#[trigger] pending@[k]).which() == on[j + 1 + k]
                    &&& pending@[k].state() == rules::plain(pending@[k].which())
                    &&& pending@[k].inv()
                } by {
                    assert(pending@[k] == before[k + 1]);
                }
            }
            let id = rule.id();
            let opts: &OptValue = match self.config.options(id) {
                Some(o) => o,
                None => &null,
            };
            assert(*opts == options_spec(self.config, id@));
            run_rule(&mut rule, doc, bds, opts, &mut out);
            proof {
                j = j + 1;
            }
        }
        let diagnostics = sort_diagnostics(out);
        FileResult { path: path.to_string(), diagnostics }
    }

    /// Parse `source`, analyse each block, and run every enabled rule.
    pub fn lint(&self, path: &str, source: &str) -> (r: FileResult)
        ensures
            exists|m: Map<Seq<char>, Seq<Token>>| analysis_ok(m) && #[trigger] lints(self.config, m, path@, source@, r),
    {
        let mut cache = TokenCache::new();
        let r = self.lint_cached(path, source, &mut cache);
        proof {
            cache.lemma_ok();
        }
        r
    }

    /// `lint`, taking each block's tokens from `cache` when its text was seen
    /// before; the cache only gains texts.
    fn lint_cached(&self, path: &str, source: &str, cache: &mut TokenCache) -> (r: FileResult)
        requires
            old(cache).ok(),
        ensures
            final(cache).ok(),
            extends(old(cache).map(), final(cache).map()),
            lints(self.config, final(cache).map(), path@, source@, r),
    {
        let ghost first = cache.map();
        let doc = Document::parse(source);
        let mut bds: Vec<BlockData> = Vec::new();
        let mut i: usize = 0;
        while i < doc.blocks.len()
            invariant
                i <= doc.blocks@.len(),
                cache.ok(),
                extends(first, cache.map()),
                parsed(doc, source@),
                bds@.len() == i,
                forall|k: int| 0 <= k < i ==> {
                    &&& (#[trigger] bds@[k]).index == k
                    &&& *bds@[k].block == doc.blocks@[k]
                    &&& bds@[k].wf()
                    &&& cache.map().dom().contains(doc.blocks@[k].text@)
                    &&& bds@[k].tokens@ == cache.map()[doc.blocks@[k].text@]
                },
            decreases doc.blocks@.len() - i,
        {
            let block = &doc.blocks[i];
            let ghost before = cache.map();
            let tokens = cache.tokens(&self.tokenizer, block.text.as_str());
            proof {
                cache.lemma_ok();
                assert(extends(first, cache.map()));
            }
            let sentences = sentence::split(block.text.as_str(), tokens.as_slice());
            bds.push(BlockData { index: i, block, tokens, sentences });
            i = i + 1;
        }
        let r = self.lint_with(path, &doc, &bds);
        assert(blocks_ok(doc, bds@));
        assert(tokens_from(cache.map(), doc, bds@));
        r
    }

    /// Lint, apply every non-overlapping fix, and lint again -- repeated until
    /// nothing is left to fix (bounded, so two fixes can never ping-pong).
    /// Every round analyses a given text the same way.
    pub fn fix(&self, path: &str, source: &str) -> (r: FixResult)
        ensures
            exists|m: Map<Seq<char>, Seq<Token>>, ts: Seq<Seq<char>>, rs: Seq<FileResult>|
                {
                    &&& analysis_ok(m)
                    &&& #[trigger] fix_rounds(self.config, m, path@, source@, ts, rs)
                    &&& r.source@ == ts.last()
                    &&& r.result == rs.last()
                    &&& lints(self.config, m, path@, r.source@, r.result)
                    &&& r.applied == capped(applied_sum(ts, rs, ts.len() - 1))
                },
    {
        let mut cache = TokenCache::new();
        let mut text = source.to_string();
        let mut applied: usize = 0;
        let mut result = self.lint_cached(path, text.as_str(), &mut cache);
        let mut round: usize = 0;
        let ghost mut ts: Seq<Seq<char>> = seq![source@];
        let ghost mut rs: Seq<FileResult> = seq![result];
        while round < 10
            invariant_except_break
                round <= 10,
            invariant
                round < 11,
                cache.ok(),
                ts.len() == round + 1,
                rs.len() == round + 1,
                ts[0] == source@,
                text@ == ts.last(),
                result == rs.last(),
                forall|i: int| 0 <= i < ts.len() ==> lints(self.config, cache.map(), path@, #[trigger] ts[i], rs[i]),
                forall|i: int| 0 <= i < ts.len() - 1 ==> #[trigger] round_ok(ts, rs, i),
                applied == capped(applied_sum(ts, rs, round as int)),
            ensures
                round <= 10,
                round == 10 || apply_fixes_spec(ts.last(), rs.last().diagnostics@).1 == 0,
            decreases 10 - round,
        {
            let (next, n) = apply_fixes(text.as_str(), result.diagnostics.as_slice());
            if n == 0 {
                break;
            }
            let ghost prev_ts = ts;
            let ghost prev_rs = rs;
            let ghost m0 = cache.map();
            applied = applied.saturating_add(n);
            text = next;
            result = self.lint_cached(path, text.as_str(), &mut cache);
            proof {
                let m1 = cache.map();
                assert forall|i: int| 0 <= i < prev_ts.len() implies lints(self.config, m1, path@, #[trigger] prev_ts[i], prev_rs[i]) by {
                    lemma_lints_extend(self.config, m0, m1, path@, prev_ts[i], prev_rs[i]);
                }
                ts = ts.push(text@);
                rs = rs.push(result);
                assert(rs.drop_last() =~= prev_rs);
                lemma_round_step(self.config, m1, path@, prev_ts, prev_rs, ts, rs);
            }
            round = round + 1;
        }
        proof {
            cache.lemma_ok();
            assert(fix_rounds(self.config, cache.map(), path@, source@, ts, rs));
        }
        FixResult { source: text, applied, result }
    }
}

/// Round `i` of a fix run: its lint left something to fix, and the next text
/// is what applying that lint's fixes gives.
pub open spec fn round_ok(ts: Seq<Seq<char>>, rs: Seq<FileResult>, i: int) -> bool {
    &&& apply_fixes_spec(ts[i], rs[i].diagnostics@).1 >= 1
    &&& ts[i + 1] == apply_fixes_spec(ts[i], rs[i].diagnostics@).0
}

/// A run of the fix loop from `source`: texts `ts[0] = source, ..., ts.last()`
/// with `rs[i]` a lint of `ts[i]`; each round applies the previous lint's
/// fixes and applies at least one; there are at most ten rounds, and fewer only
/// when the last lint leaves nothing to apply.
pub open spec fn fix_rounds(
    config: Config,
    m: Map<Seq<char>, Seq<Token>>,
    path: Seq<char>,
    source: Seq<char>,
    ts: Seq<Seq<char>>,
    rs: Seq<FileResult>,
) -> bool {
    &&& 1 <= ts.len() <= 11
    &&& rs.len() == ts.len()
    &&& ts[0] == source
    &&& forall|i: int| 0 <= i < ts.len() ==> lints(config, m, path, #[trigger] ts[i], rs[i])
    &&& forall|i: int| 0 <= i < ts.len() - 1 ==> #[trigger] round_ok(ts, rs, i)
    &&& (ts.len() == 11 || apply_fixes_spec(ts.last(), rs.last().diagnostics@).1 == 0)
}

/// Fixes applied in the first `k` rounds of a run.
pub open spec fn applied_sum(ts: Seq<Seq<char>>, rs: Seq<FileResult>, k: int) -> nat
    decreases k,
{
    if k <= 0 {
        0
    } else {
        applied_sum(ts, rs, k - 1) + apply_fixes_spec(ts[k - 1], rs[k - 1].diagnostics@).1
    }
}

/// A count as a `usize`, saturating at the top.
pub open spec fn capped(n: nat) -> usize {
    if n <= usize::MAX {
        n as usize
    } else {
        usize::MAX
    }
}

proof fn lemma_applied_sum_frame(ts: Seq<Seq<char>>, rs: Seq<FileResult>, ts2: Seq<Seq<char>>, rs2: Seq<FileResult>, k: int)
    requires
        0 <= k,
        k <= ts.len() <= ts2.len(),
        k <= rs.len() <= rs2.len(),
        forall|i: int| 0 <= i < ts.len() ==> ts2[i] == ts[i],
        forall|i: int| 0 <= i < rs.len() ==> rs2[i] == rs[i],
    ensures
        applied_sum(ts2, rs2, k) == applied_sum(ts, rs, k),
    decreases k,
{
    if k > 0 {
        lemma_applied_sum_frame(ts, rs, ts2, rs2, k - 1);
        assert(ts2[k - 1] == ts[k - 1] && rs2[k - 1] == rs[k - 1]);
    }
}

/// One more round keeps a run's invariants and adds that round's count.
proof fn lemma_round_step(
    config: Config,
    m: Map<Seq<char>, Seq<Token>>,
    path: Seq<char>,
    ts: Seq<Seq<char>>,
    rs: Seq<FileResult>,
    ts2: Seq<Seq<char>>,
    rs2: Seq<FileResult>,
)
    requires
        ts.len() >= 1,
        rs.len() == ts.len(),
        forall|i: int| 0 <= i < ts.len() ==> lints(config, m, path, #[trigger] ts[i], rs[i]),
        forall|i: int| 0 <= i < ts.len() - 1 ==> #[trigger] round_ok(ts, rs, i),
        apply_fixes_spec(ts.last(), rs.last().diagnostics@).1 >= 1,
        ts2 == ts.push(apply_fixes_spec(ts.last(), rs.last().diagnostics@).0),
        rs2.len() == ts2.len(),
        rs2.drop_last() == rs,
        lints(config, m, path, ts2.last(), rs2.last()),
    ensures
        ts2[0] == ts[0],
        forall|i: int| 0 <= i < ts2.len() ==> lints(config, m, path, #[trigger] ts2[i], rs2[i]),
        forall|i: int| 0 <= i < ts2.len() - 1 ==> #[trigger] round_ok(ts2, rs2, i),
        applied_sum(ts2, rs2, ts.len() as int) == applied_sum(ts, rs, ts.len() - 1) + apply_fixes_spec(
            ts.last(),
            rs.last().diagnostics@,
        ).1,
{
    let n = ts.len() as int;
    assert forall|i: int| 0 <= i < ts2.len() implies lints(config, m, path, #[trigger] ts2[i], rs2[i]) by {
        if i < n {
            assert(ts2[i] == ts[i] && rs2[i] == rs[i]);
        }
    }
    assert forall|i: int| 0 <= i < ts2.len() - 1 implies #[trigger] round_ok(ts2, rs2, i) by {
        assert(ts2[i] == ts[i] && rs2[i] == rs[i]);
        if i < n - 1 {
            assert(round_ok(ts, rs, i));
            assert(ts2[i + 1] == ts[i + 1]);
        }
    }
    assert forall|i: int| 0 <= i < rs.len() implies rs2[i] == rs[i] by {
        assert(rs2.drop_last()[i] == rs[i]);
    }
    lemma_applied_sum_frame(ts, rs, ts2, rs2, n - 1);
    assert(ts2[n - 1] == ts[n - 1] && rs2[n - 1] == rs[n - 1]);
}

proof fn lemma_enabled_range(config: Config, n: int)
    requires
        0 <= n <= 20,
    ensures
        forall|k: int| 0 <= k < rules::enabled_upto(config, n).len() ==> 0 <= #[trigger] rules::enabled_upto(config, n)[k] < n,
    decreases n,
{
    if n > 0 {
        lemma_enabled_range(config, n - 1);
        let rest = rules::enabled_upto(config, n - 1);
        let all = rules::enabled_upto(config, n);
        assert forall|k: int| 0 <= k < all.len() implies 0 <= #[trigger] all[k] < n by {
            if k < rest.len() {
                assert(all[k] == rest[k]);
            }
        }
    }
}

/// Diagnostics in order: each at or before the next by (line, column, rule).
pub open spec fn diags_sorted(s: Seq<DiagModel>) -> bool {
    forall|i: int, j: int| 0 <= i < j < s.len() ==> diag_le(#[trigger] s[i], #[trigger] s[j])
}

proof fn lemma_diag_le_total(a: DiagModel, b: DiagModel)
    ensures
        diag_le(a, b) || diag_le(b, a),
{
    if a.line == b.line && a.column == b.column && config::str_lt(b.rule, a.rule) {
        config::lemma_str_lt_asym(b.rule, a.rule);
    }
}

proof fn lemma_diag_le_trans(a: DiagModel, b: DiagModel, c: DiagModel)
    requires
        diag_le(a, b),
        diag_le(b, c),
    ensures
        diag_le(a, c),
{
    if a.line == b.line && b.line == c.line && a.column == b.column && b.column == c.column {
        if config::str_lt(c.rule, a.rule) {
            if a.rule == b.rule {
            } else {
                config::lemma_str_lt_total(a.rule, b.rule);
                config::lemma_str_lt_trans(c.rule, a.rule, b.rule);
            }
        }
    }
}

proof fn lemma_insert_pos(t: Seq<DiagModel>, x: DiagModel)
    ensures
        0 <= diag_insert_pos(t, x) <= t.len(),
        diag_insert_pos(t, x) > 0 ==> diag_le(t[diag_insert_pos(t, x) - 1], x),
        forall|j: int| diag_insert_pos(t, x) <= j < t.len() ==> !diag_le(#[trigger] t[j], x),
    decreases t.len(),
{
    if t.len() > 0 && !diag_le(t.last(), x) {
        lemma_insert_pos(t.drop_last(), x);
        let p = diag_insert_pos(t, x);
        assert forall|j: int| p <= j < t.len() implies !diag_le(#[trigger] t[j], x) by {
            if j < t.len() - 1 {
                assert(t[j] == t.drop_last()[j]);
            }
        }
        if p > 0 {
            assert(t[p - 1] == t.drop_last()[p - 1]);
        }
    }
}

/// The sort puts the diagnostics in order.
pub proof fn lemma_sort_diags_sorted(s: Seq<DiagModel>)
    ensures
        diags_sorted(sort_diags(s)),
        sort_diags(s).len() == s.len(),
    decreases s.len(),
{
    if s.len() > 0 {
        let t = sort_diags(s.drop_last());
        let x = s.last();
        lemma_sort_diags_sorted(s.drop_last());
        lemma_insert_pos(t, x);
        let p = diag_insert_pos(t, x);
        let r = t.insert(p, x);
        assert forall|i: int, j: int| 0 <= i < j < r.len() implies diag_le(#[trigger] r[i], #[trigger] r[j]) by {
            if j < p {
                assert(r[i] == t[i] && r[j] == t[j]);
            } else if j == p {
                assert(r[j] == x && r[i] == t[i]);
                if i < p - 1 {
                    lemma_diag_le_trans(t[i], t[p - 1], x);
                }
            } else if i > p {
                assert(r[i] == t[i - 1] && r[j] == t[j - 1]);
            } else if i == p {
                assert(r[i] == x && r[j] == t[j - 1]);
                lemma_diag_le_total(t[j - 1], x);
            } else {
                assert(r[i] == t[i] && r[j] == t[j - 1]);
                lemma_diag_le_total(t[p], x);
                if p < t.len() {
                    assert(diag_le(x, t[p]));
                    if i < p - 1 {
                        lemma_diag_le_trans(t[i], t[p - 1], x);
                    }
                    if i <= p - 1 {
                        lemma_diag_le_trans(t[i], x, t[p]);
                    }
                    if j - 1 > p {
                        lemma_diag_le_trans(t[i], t[p], t[j - 1]);
                    }
                }
            }
        }
    }
}

/// The sort neither drops nor adds a diagnostic.
pub proof fn lemma_sort_diags_permutes(s: Seq<DiagModel>)
    ensures
        sort_diags(s).to_multiset() == s.to_multiset(),
    decreases s.len(),
{
    broadcast use vstd::seq_lib::group_to_multiset_ensures;

    if s.len() == 0 {
        assert(sort_diags(s) =~= s);
    } else {
        let t = sort_diags(s.drop_last());
        lemma_sort_diags_permutes(s.drop_last());
        lemma_insert_pos(t, s.last());
        vstd::seq_lib::to_multiset_insert(t, diag_insert_pos(t, s.last()), s.last());
        vstd::seq_lib::to_multiset_build(s.drop_last(), s.last());
        assert(s.drop_last().push(s.last()) =~= s);
    }
}

/// A lint's diagnostics come in order of line, column and rule, and are
/// exactly the diagnostics every enabled rule produced.
pub proof fn lemma_lint_sorted(config: Config, doc: Document, bds: Seq<BlockData>)
    ensures
        diags_sorted(lint_spec(config, doc, bds)),
        lint_spec(config, doc, bds).to_multiset() == collect_spec(
            config,
            doc,
            bds,
            rules::enabled_upto(config, 20).len() as int,
        ).to_multiset(),
{
    let c = collect_spec(config, doc, bds, rules::enabled_upto(config, 20).len() as int);
    lemma_sort_diags_sorted(c);
    lemma_sort_diags_permutes(c);
}

/// Applying no fixes leaves the source as it is.
pub proof fn lemma_no_fixes_identity(cs: Seq<char>, ds: Seq<Diagnostic>)
    requires
        fix_models(ds).len() == 0,
    ensures
        apply_fixes_spec(cs, ds).0 == cs,
        apply_fixes_spec(cs, ds).1 == 0,
{
    assert(sort_fixes(fix_models(ds)) =~= Seq::<FixModel>::empty()) by {
        assert(fix_models(ds) =~= Seq::<FixModel>::empty());
    }
    lemma_u16_char_is(cs, 0, 0);
    assert(cs.take(0) =~= Seq::<char>::empty());
    assert(cs.subrange(0, cs.len() as int) =~= cs);
}

/// No more fixes are applied than there are fixes from `k` on.
pub proof fn lemma_applied_at_most(cs: Seq<char>, fs: Seq<FixModel>, k: int, cursor: int)
    requires
        0 <= k <= fs.len(),
    ensures
        apply_from(cs, fs, k, cursor).1 <= fs.len() - k,
    decreases fs.len() - k,
{
    if k < fs.len() {
        let f = fs[k];
        if f.0 < cursor || f.1 < f.0 || f.1 > utf::utf16_count(cs) {
            lemma_applied_at_most(cs, fs, k + 1, cursor);
        } else {
            lemma_applied_at_most(cs, fs, k + 1, f.1);
        }
    }
}

/// Fixes in order that do not overlap and lie inside the text are all
/// applied.
pub proof fn lemma_disjoint_fixes_all_applied(cs: Seq<char>, fs: Seq<FixModel>, k: int, cursor: int)
    requires
        0 <= k <= fs.len(),
        forall|i: int| k <= i < fs.len() ==> #[trigger] fs[i].0 <= fs[i].1 <= utf::utf16_count(cs),
        forall|i: int| k <= i < fs.len() - 1 ==> #[trigger] fs[i].1 <= fs[i + 1].0,
        k < fs.len() ==> cursor <= fs[k].0,
    ensures
        apply_from(cs, fs, k, cursor).1 == fs.len() - k,
    decreases fs.len() - k,
{
    if k < fs.len() {
        lemma_disjoint_fixes_all_applied(cs, fs, k + 1, fs[k].1);
    }
}

/// Both halves of a character outside the BMP map to that character, so a
/// fix can never split a surrogate pair.
pub proof fn lemma_surrogate_halves(cs: Seq<char>, i: int)
    requires
        0 <= i < cs.len(),
        utf::utf16_width(cs[i]) == 2,
    ensures
        u16_char(cs, utf::utf16_count(cs.take(i)) as int) == i,
        u16_char(cs, utf::utf16_count(cs.take(i)) as int + 1) == i,
{
    assert(cs.take(i + 1).drop_last() =~= cs.take(i));
    lemma_u16_char_is(cs, utf::utf16_count(cs.take(i)) as int, i);
    lemma_u16_char_is(cs, utf::utf16_count(cs.take(i)) as int + 1, i);
}

proof fn lemma_ended_mono(cs: Seq<char>, b1: int, b2: int)
    requires
        b1 <= b2,
    ensures
        document::ended(cs, b1) <= document::ended(cs, b2),
    decreases cs.len(),
{
    if cs.len() > 0 {
        if utf::byte_len(cs) <= b2 {
            document::lemma_ended_le(cs, b1);
        } else {
            lemma_ended_mono(cs.drop_last(), b1, b2);
        }
    }
}

proof fn lemma_utf16_at_mono(cs: Seq<char>, b1: int, b2: int)
    requires
        b1 <= b2,
    ensures
        document::utf16_at(cs, b1) <= document::utf16_at(cs, b2),
{
    lemma_ended_mono(cs, b1, b2);
    document::lemma_ended_le(cs, b2);
    lemma_utf16_prefix_le(cs, document::ended(cs, b1) as int, document::ended(cs, b2) as int);
}

/// A diagnostic's range, and its fix's, never run backwards.
pub proof fn lemma_diag_range_forward(doc: Document, anchor: Anchor, rule: Seq<char>, severity: Severity, r: ReportModel)
    ensures
        to_diag_spec(doc, anchor, rule, severity, r).range.0 <= to_diag_spec(doc, anchor, rule, severity, r).range.1,
        to_diag_spec(doc, anchor, rule, severity, r).fix matches Some(f) ==> f.0 <= f.1,
{
    let src = doc.source@;
    let start = to_src_spec(doc, anchor, r.start);
    let end0 = to_src_spec(doc, anchor, r.end);
    let end = if end0 < start { start } else { end0 };
    lemma_utf16_at_mono(src, start, end);
    if let Some(f) = r.fix {
        if let Some(p) = fix_src_spec(doc, anchor, f.0, f.1) {
            lemma_utf16_at_mono(src, p.0, p.1);
        }
    }
}

} // verus!
