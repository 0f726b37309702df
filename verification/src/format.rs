//! Output: the counts a run ends with, the human text format, and the few
//! values the textlint-compatible format derives from a diagnostic. The JSON
//! documents themselves are written by the application.

use crate::diagnostic::{Diagnostic, Severity};
use crate::engine::FileResult;
use crate::rules::TEXTLINT_RULE_PREFIX;
use crate::utf;
use vstd::prelude::*;

verus! {

#[derive(Debug, Clone, Copy, PartialEq, Eq, Structural)]
pub enum Format {
    /// `path:line:col: message [rule]`, one per line.
    Text,
    /// issen's own JSON: files, diagnostics with character ranges and fixes.
    Json,
    /// textlint-compatible JSON array, for diffing against textlint.
    Textlint,
}

#[derive(Debug, Clone, Copy, PartialEq, Eq, Structural)]
pub struct Summary {
    pub errors: usize,
    pub warnings: usize,
    pub fixed: usize,
}

/// How many of the diagnostics have severity `s`.
pub open spec fn count_severity(ds: Seq<Diagnostic>, s: Severity) -> nat
    decreases ds.len(),
{
    if ds.len() == 0 {
        0
    } else {
        count_severity(ds.drop_last(), s) + if ds.last().severity == s { 1nat } else { 0nat }
    }
}

/// How many diagnostics of severity `s` the files hold in all.
pub open spec fn files_count(fs: Seq<FileResult>, s: Severity) -> nat
    decreases fs.len(),
{
    if fs.len() == 0 {
        0
    } else {
        files_count(fs.drop_last(), s) + count_severity(fs.last().diagnostics@, s)
    }
}

pub open spec fn files_total(fs: Seq<FileResult>) -> nat
    decreases fs.len(),
{
    if fs.len() == 0 {
        0
    } else {
        files_total(fs.drop_last()) + fs.last().diagnostics@.len()
    }
}

proof fn lemma_count_le(ds: Seq<Diagnostic>, s: Severity)
    ensures
        count_severity(ds, s) <= ds.len(),
    decreases ds.len(),
{
    if ds.len() > 0 {
        lemma_count_le(ds.drop_last(), s);
    }
}

/// Every diagnostic is an error or a warning, so the two counts add up to
/// the number of diagnostics.
pub proof fn lemma_counts_partition(ds: Seq<Diagnostic>)
    ensures
        count_severity(ds, Severity::Error) + count_severity(ds, Severity::Warning) == ds.len(),
    decreases ds.len(),
{
    if ds.len() > 0 {
        lemma_counts_partition(ds.drop_last());
    }
}

/// Errors and warnings of a set of files add up to their diagnostics.
pub proof fn lemma_files_partition(fs: Seq<FileResult>)
    ensures
        files_count(fs, Severity::Error) + files_count(fs, Severity::Warning) == files_total(fs),
    decreases fs.len(),
{
    if fs.len() > 0 {
        lemma_files_partition(fs.drop_last());
        lemma_counts_partition(fs.last().diagnostics@);
    }
}

impl Summary {
    /// The errors and warnings across `results`, and the fixes applied.
    pub fn of(results: &[FileResult], fixed: usize) -> (s: Summary)
        requires
            files_total(results@) <= usize::MAX,
        ensures
            s.errors == files_count(results@, Severity::Error),
            s.warnings == files_count(results@, Severity::Warning),
            s.fixed == fixed,
    {
        let mut errors: usize = 0;
        let mut warnings: usize = 0;
        let mut i: usize = 0;
        while i < results.len()
            invariant
                i <= results@.len(),
                files_total(results@) <= usize::MAX,
                errors == files_count(results@.take(i as int), Severity::Error),
                warnings == files_count(results@.take(i as int), Severity::Warning),
            decreases results@.len() - i,
        {
            assert(results@.take(i + 1).drop_last() =~= results@.take(i as int));
            proof {
                lemma_files_partition(results@.take(i as int));
                lemma_total_prefix(results@, i + 1);
            }
            let ds = &results[i].diagnostics;
            let mut j: usize = 0;
            let ghost e0 = errors;
            let ghost w0 = warnings;
            while j < ds.len()
                invariant
                    j <= ds@.len(),
                    e0 + w0 + ds@.len() <= usize::MAX,
                    errors == e0 + count_severity(ds@.take(j as int), Severity::Error),
                    warnings == w0 + count_severity(ds@.take(j as int), Severity::Warning),
                decreases ds@.len() - j,
            {
                assert(ds@.take(j + 1).drop_last() =~= ds@.take(j as int));
                proof {
                    lemma_counts_partition(ds@.take(j as int));
                }
                match ds[j].severity {
                    Severity::Error => {
                        errors = errors + 1;
                    },
                    Severity::Warning => {
                        warnings = warnings + 1;
                    },
                }
                j = j + 1;
            }
            assert(ds@.take(j as int) =~= ds@);
            i = i + 1;
        }
        assert(results@.take(i as int) =~= results@);
        Summary { errors, warnings, fixed }
    }
}

proof fn lemma_total_prefix(fs: Seq<FileResult>, n: int)
    requires
        0 <= n <= fs.len(),
    ensures
        files_total(fs.take(n)) <= files_total(fs),
    decreases fs.len() - n,
{
    if n < fs.len() {
        lemma_total_prefix(fs, n + 1);
        assert(fs.take(n + 1).drop_last() =~= fs.take(n));
    } else {
        assert(fs.take(n) =~= fs);
    }
}

/// The first line of a message, as `str::lines` gives it: up to the first
/// '\n', without a carriage return right before that '\n'. A carriage return
/// with no '\n' after it stays.
pub open spec fn first_line(m: Seq<char>) -> Seq<char> {
    let n = first_nl(m, 0);
    let line = m.take(n);
    if n < m.len() && line.len() > 0 && line.last() == '\r' {
        line.drop_last()
    } else {
        line
    }
}

/// The index of the first '\n' in `m` from `i` on, or its length.
pub open spec fn first_nl(m: Seq<char>, i: int) -> int
    decreases m.len() - i,
{
    if i < 0 || i >= m.len() {
        m.len() as int
    } else if m[i] == '\n' {
        i
    } else {
        first_nl(m, i + 1)
    }
}

fn first_line_of(m: &str) -> (r: String)
    ensures
        r@ == first_line(m@),
{
    let cs = utf::chars_of(m);
    let mut n: usize = 0;
    while n < cs.len() && cs[n] != '\n'
        invariant
            cs@ == m@,
            n <= cs@.len(),
            first_nl(m@, 0) == first_nl(m@, n as int),
        decreases cs@.len() - n,
    {
        n = n + 1;
    }
    let end = if n < cs.len() && n > 0 && cs[n - 1] == '\r' {
        n - 1
    } else {
        n
    };
    let mut out: Vec<char> = Vec::new();
    let mut k: usize = 0;
    while k < end
        invariant
            k <= end <= n <= cs@.len(),
            out@ == cs@.take(k as int),
        decreases end - k,
    {
        out.push(cs[k]);
        k = k + 1;
        assert(out@ =~= cs@.take(k as int));
    }
    proof {
        if end < n {
            assert(cs@.take(n as int).drop_last() =~= cs@.take(end as int));
        }
    }
    utf::string_of(out.as_slice())
}

/// `path:line:col: message [rule]` for one diagnostic.
pub open spec fn text_line(path: Seq<char>, d: Diagnostic) -> Seq<char> {
    path + ":"@ + utf::digits(d.line as nat, 10) + ":"@ + utf::digits(d.column as nat, 10) + ": "@ + first_line(d.message@)
        + " ["@ + d.rule@ + "]\n"@
}

/// The text format: one line per diagnostic, file after file.
pub open spec fn text_report(fs: Seq<FileResult>) -> Seq<char>
    decreases fs.len(),
{
    if fs.len() == 0 {
        Seq::empty()
    } else {
        text_report(fs.drop_last()) + file_lines(fs.last().path@, fs.last().diagnostics@)
    }
}

pub open spec fn file_lines(path: Seq<char>, ds: Seq<Diagnostic>) -> Seq<char>
    decreases ds.len(),
{
    if ds.len() == 0 {
        Seq::empty()
    } else {
        file_lines(path, ds.drop_last()) + text_line(path, ds.last())
    }
}

/// The report in the text format.
pub fn render_text(results: &[FileResult]) -> (r: String)
    ensures
        r@ == text_report(results@),
{
    let mut out = String::new();
    let mut i: usize = 0;
    assert(out@ =~= text_report(results@.take(0)));
    while i < results.len()
        invariant
            i <= results@.len(),
            out@ == text_report(results@.take(i as int)),
        decreases results@.len() - i,
    {
        assert(results@.take(i + 1).drop_last() =~= results@.take(i as int));
        let f = &results[i];
        let ghost base = out@;
        let mut j: usize = 0;
        assert(f.diagnostics@.take(0) =~= Seq::<Diagnostic>::empty());
        assert(out@ =~= base + file_lines(f.path@, f.diagnostics@.take(0)));
        while j < f.diagnostics.len()
            invariant
                j <= f.diagnostics@.len(),
                out@ == base + file_lines(f.path@, f.diagnostics@.take(j as int)),
            decreases f.diagnostics@.len() - j,
        {
            assert(f.diagnostics@.take(j + 1).drop_last() =~= f.diagnostics@.take(j as int));
            let d = &f.diagnostics[j];
            let a = utf::concat3(f.path.as_str(), ":", utf::decimal(d.line as u64).as_str());
            let a = utf::concat3(a.as_str(), ":", utf::decimal(d.column as u64).as_str());
            let a = utf::concat3(a.as_str(), ": ", first_line_of(d.message.as_str()).as_str());
            let a = utf::concat3(a.as_str(), " [", d.rule.as_str());
            let a = utf::concat_str(a.as_str(), "]\n");
            out = utf::concat_str(out.as_str(), a.as_str());
            j = j + 1;
        }
        assert(f.diagnostics@.take(j as int) =~= f.diagnostics@);
        i = i + 1;
    }
    assert(results@.take(i as int) =~= results@);
    out
}

/// The rule id textlint reports: the preset's prefix and the rule's id.
pub fn textlint_rule_id(d: &Diagnostic) -> (r: String)
    ensures
        r@ == "ja-technical-writing/"@ + d.rule@,
{
    utf::concat_str(TEXTLINT_RULE_PREFIX, d.rule.as_str())
}

/// textlint's numeric severity: 2 for an error, 1 for a warning.
pub fn textlint_severity(d: &Diagnostic) -> (r: u8)
    ensures
        r == (if d.severity == Severity::Error { 2u8 } else { 1u8 }),
{
    match d.severity {
        Severity::Error => 2,
        Severity::Warning => 1,
    }
}

proof fn lemma_first_nl(m: Seq<char>, i: int)
    requires
        0 <= i <= m.len(),
    ensures
        i <= first_nl(m, i) <= m.len(),
        first_nl(m, i) < m.len() ==> m[first_nl(m, i)] == '\n',
        forall|j: int| i <= j < first_nl(m, i) ==> m[j] != '\n',
    decreases m.len() - i,
{
    if i < m.len() && m[i] != '\n' {
        lemma_first_nl(m, i + 1);
    }
}

/// The first line of a message is the text before its first '\n', less a
/// '\r' right before that '\n': it is a prefix of the message holding no
/// '\n'; it ends the message, or a '\n' follows that no '\r' precedes, or
/// "\r\n" follows.
pub proof fn lemma_first_line(m: Seq<char>)
    ensures
        first_line(m) == m.take(first_line(m).len() as int),
        forall|i: int| 0 <= i < first_line(m).len() ==> #[trigger] first_line(m)[i] != '\n',
        ({
            let n = first_line(m).len() as int;
            ||| n == m.len()
            ||| m[n] == '\n' && (n == 0 || m[n - 1] != '\r')
            ||| m[n] == '\r' && n + 1 < m.len() && m[n + 1] == '\n'
        }),
{
    lemma_first_nl(m, 0);
    let p = first_nl(m, 0);
    let line = m.take(p);
    if p < m.len() && line.len() > 0 && line.last() == '\r' {
        assert(first_line(m) == line.drop_last());
        assert(line.drop_last() =~= m.take(p - 1));
        assert(m[p - 1] == line.last());
    } else {
        assert(first_line(m) == line);
        if p < m.len() && p > 0 {
            assert(m[p - 1] == line.last());
        }
    }
}

/// A report's lines are its files' lines, file after file.
pub proof fn lemma_text_report_append(a: Seq<FileResult>, b: Seq<FileResult>)
    ensures
        text_report(a + b) == text_report(a) + text_report(b),
    decreases b.len(),
{
    if b.len() == 0 {
        assert(a + b =~= a);
        assert(text_report(a) + Seq::<char>::empty() =~= text_report(a));
    } else {
        assert((a + b).drop_last() =~= a + b.drop_last());
        assert((a + b).last() == b.last());
        lemma_text_report_append(a, b.drop_last());
        assert(text_report(a + b) =~= text_report(a) + text_report(b));
    }
}

/// A file's lines are its diagnostics' lines, in order.
pub proof fn lemma_file_lines_append(path: Seq<char>, a: Seq<Diagnostic>, b: Seq<Diagnostic>)
    ensures
        file_lines(path, a + b) == file_lines(path, a) + file_lines(path, b),
    decreases b.len(),
{
    if b.len() == 0 {
        assert(a + b =~= a);
        assert(file_lines(path, a) + Seq::<char>::empty() =~= file_lines(path, a));
    } else {
        assert((a + b).drop_last() =~= a + b.drop_last());
        assert((a + b).last() == b.last());
        lemma_file_lines_append(path, a, b.drop_last());
        assert(file_lines(path, a + b) =~= file_lines(path, a) + file_lines(path, b));
    }
}

/// The text report of one file is that file's lines, and the line of one
/// diagnostic is `path:line:column: message [rule]` with the line number, then
/// the column number, in decimal, and the first line of the message.
pub proof fn lemma_text_line(f: FileResult, path: Seq<char>, d: Diagnostic)
    ensures
        text_report(seq![f]) == file_lines(f.path@, f.diagnostics@),
        file_lines(path, seq![d]) == path + ":"@ + utf::digits(d.line as nat, 10) + ":"@ + utf::digits(d.column as nat, 10)
            + ": "@ + first_line(d.message@) + " ["@ + d.rule@ + "]\n"@,
{
    let fs = seq![f];
    assert(fs.drop_last() =~= Seq::<FileResult>::empty());
    assert(fs.last() == f);
    assert(text_report(Seq::<FileResult>::empty()) == Seq::<char>::empty());
    assert(text_report(fs) == text_report(fs.drop_last()) + file_lines(f.path@, f.diagnostics@));
    assert(Seq::<char>::empty() + file_lines(f.path@, f.diagnostics@) =~= file_lines(f.path@, f.diagnostics@));
    let ds = seq![d];
    assert(ds.drop_last() =~= Seq::<Diagnostic>::empty());
    assert(ds.last() == d);
    assert(file_lines(path, Seq::<Diagnostic>::empty()) == Seq::<char>::empty());
    assert(file_lines(path, ds) == file_lines(path, ds.drop_last()) + text_line(path, d));
    let l = path + ":"@ + utf::digits(d.line as nat, 10) + ":"@ + utf::digits(d.column as nat, 10) + ": "@ + first_line(
        d.message@,
    ) + " ["@ + d.rule@ + "]\n"@;
    assert(Seq::<char>::empty() + l =~= l);
}

} // verus!
