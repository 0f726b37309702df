//! Configuration, the document validators, and the exit gate.

use issen::config::{opt_bool, opt_str, opt_usize, Config, Gate, Matcher, OptValue};
use issen::engine::Linter;
use issen::format::Summary;
use issen::rules::document::Terminology;
use issen::rules::text::SentenceLength;
use issen::tokenizer::{Morphology, Token, Tokenizer};

/// Every character a noun: these rules never read morphology.
struct Chars;

impl Morphology for Chars {
    fn segment(&self, text: &str) -> Vec<Token> {
        text.char_indices().map(|(i, c)| Token::new(&c.to_string(), &["名詞"], i, i + c.len_utf8())).collect()
    }
}

fn s(x: &str) -> OptValue {
    OptValue::Str(x.to_string())
}

fn map(entries: Vec<(&str, OptValue)>) -> OptValue {
    OptValue::Mapping(entries.into_iter().map(|(k, v)| (k.to_string(), v)).collect())
}

fn user(rules: Vec<(&str, OptValue)>) -> Config {
    Config { rules: rules.into_iter().map(|(k, v)| (k.to_string(), v)).collect(), gate: Gate { fail_on: None, max_warnings: None } }
}

fn linter(config: Config) -> Linter {
    Linter::with_tokenizer(config, Tokenizer::with_backend(Box::new(Chars)))
}

fn gate(fail_on: Option<&str>, max_warnings: Option<usize>) -> Gate {
    Gate { fail_on: fail_on.map(|f| f.to_string()), max_warnings }
}

#[test]
fn validators_are_inactive_until_configured() {
    let r = linter(Config::preset()).lint("t.md", "# 概要\n\nGithubに置く。\n");
    assert!(r.diagnostics.iter().all(|d| d.rule != "terminology" && d.rule != "required-headings"));
}

#[test]
fn required_headings_forbidden_and_terminology() {
    let config = Config::layered(user(vec![
        ("forbidden", map(vec![("patterns", OptValue::List(vec![s("絶対に成功します"), s("/必ず.*します/")]))])),
        ("required-headings", map(vec![("headings", OptValue::List(vec![s("概要"), s("前提条件")]))])),
        (
            "terminology",
            map(vec![(
                "terms",
                OptValue::List(vec![map(vec![
                    ("preferred", s("GitHub")),
                    ("avoid", OptValue::List(vec![s("Github"), s("github")])),
                ])]),
            )]),
        ),
    ]))
    .unwrap();
    let linter = linter(config);
    let r = linter.lint("t.md", "# 概要\n\nGithubに置くと必ず動作します。絶対に成功します。\n");
    let rules: Vec<&str> = r.diagnostics.iter().map(|d| d.rule.as_str()).collect();
    assert_eq!(rules.iter().filter(|r| **r == "required-headings").count(), 1);
    assert_eq!(rules.iter().filter(|r| **r == "forbidden").count(), 2);
    assert_eq!(rules.iter().filter(|r| **r == "terminology").count(), 1);

    let missing = r.diagnostics.iter().find(|d| d.rule == "required-headings").unwrap();
    assert_eq!((missing.line, missing.column), (1, 1));
    assert!(missing.message.contains("前提条件"));

    let term = r.diagnostics.iter().find(|d| d.rule == "terminology").unwrap();
    assert_eq!(term.fix.as_ref().unwrap().text, "GitHub");

    let fixed = linter.fix("t.md", "Githubとgithub。\n");
    assert_eq!(fixed.source, "GitHubとGitHub。\n");
    assert_eq!(fixed.applied, 2);
}

#[test]
fn gate_levels() {
    let g = gate(Some("never"), None);
    assert!(!g.fails(3, 3));
    let g = gate(Some("warning"), None);
    assert!(g.fails(0, 1));
    let g = gate(Some("error"), Some(2));
    assert!(!g.fails(0, 2));
    assert!(g.fails(0, 3));
    assert!(g.fails(1, 0));
    assert!(!Config::preset().gate.fails(0, 10));
}

#[test]
fn exclamation_options_are_honoured() {
    let config = Config::layered(user(vec![(
        "no-exclamation-question-mark",
        map(vec![("allowFullWidthExclamation", OptValue::Bool(true))]),
    )]))
    .unwrap();
    let r = linter(config).lint("t.md", "保存してください！\n\n本当ですか？\n");
    let marks: Vec<usize> = r.diagnostics.iter().filter(|d| d.rule == "no-exclamation-question-mark").map(|d| d.line).collect();
    assert_eq!(marks, vec![3]);
}

#[test]
fn exclamation_marks_in_quotes_are_left_alone() {
    let r = linter(Config::preset()).lint("t.md", "> 保存してください！\n\n本当ですか？\n");
    let marks: Vec<usize> = r.diagnostics.iter().filter(|d| d.rule == "no-exclamation-question-mark").map(|d| d.line).collect();
    assert_eq!(marks, vec![3]);
}

#[test]
fn rule_names_and_defaults() {
    assert_eq!(SentenceLength::new().id(), "sentence-length");
    assert!(!Terminology::new().default_enabled());
}

#[test]
fn sentence_length_counts_utf16_by_default() {
    // 90 characters, 150 UTF-16 code units: over the limit only in textlint's unit.
    let src = format!("{}{}。\n", "😀".repeat(60), "あ".repeat(29));
    assert!(linter(Config::preset()).lint("t.md", &src).diagnostics.iter().any(|d| d.rule == "sentence-length"));

    let config = Config::layered(user(vec![("sentence-length", map(vec![("countBy", s("codepoints"))]))])).unwrap();
    assert!(linter(config).lint("t.md", &src).diagnostics.iter().all(|d| d.rule != "sentence-length"));
}

#[test]
fn user_options_merge_over_preset() {
    let c = Config::layered(user(vec![
        ("max-comma", map(vec![("severity", s("warning"))])),
        ("no-mix-dearu-desumasu", map(vec![("strict", OptValue::Bool(true))])),
    ]))
    .unwrap();
    assert_eq!(opt_usize(c.options("max-comma").unwrap(), "max", 99), 3);
    assert_eq!(opt_str(c.options("max-comma").unwrap(), "severity", ""), "warning");
    assert_eq!(opt_str(c.options("no-mix-dearu-desumasu").unwrap(), "preferInBody", ""), "ですます");
    assert!(opt_bool(c.options("no-mix-dearu-desumasu").unwrap(), "strict", false));
    let c = Config::layered(user(vec![("max-comma", OptValue::Bool(true))])).unwrap();
    assert_eq!(opt_usize(c.options("max-comma").unwrap(), "max", 99), 3);
}

#[test]
fn severity_option_makes_warnings() {
    let config = Config::layered(user(vec![("no-hankaku-kana", map(vec![("severity", s("warning"))]))])).unwrap();
    let r = linter(config).lint("t.md", "ﾃｽﾄ。\n");
    let summary = Summary::of(&[r], 0);
    assert_eq!((summary.errors, summary.warnings, summary.fixed), (0, 1, 0));
}

#[test]
fn a_rule_set_to_false_is_off() {
    let config = Config::layered(user(vec![("no-hankaku-kana", OptValue::Bool(false))])).unwrap();
    let r = linter(config).lint("t.md", "ﾃｽﾄ。\n");
    assert!(r.diagnostics.iter().all(|d| d.rule != "no-hankaku-kana"));
}

#[test]
fn unknown_rule_names_are_rejected_with_a_hint() {
    let e = Config::layered(user(vec![("max-commas", OptValue::Bool(true))])).err().unwrap();
    assert_eq!(e, "rules.max-commas: unknown rule. Did you mean \"max-comma\"? Run `issen --list-rules` to see them all.");
    let e = Config::layered(user(vec![("zzz", OptValue::Bool(true))])).err().unwrap();
    assert_eq!(e, "rules.zzz: unknown rule. Run `issen --list-rules` to see them all.");
}

#[test]
fn unknown_gate_values_are_rejected() {
    let mut c = user(vec![]);
    c.gate = gate(Some("sometimes"), None);
    let e = Config::layered(c).err().unwrap();
    assert_eq!(e, "gate.fail-on: unknown value \"sometimes\". Use one of: error, warning, warn, never, none");
}

#[test]
fn matcher_specs_parse_as_literal_or_regex() {
    assert!(Matcher::parse("").unwrap().is_none());
    let lit = Matcher::parse("a.b").unwrap().unwrap();
    let found: Vec<(usize, usize, String)> = lit.find_all("xa.bya.b");
    assert_eq!(found, vec![(1, 4, "a.b".to_string()), (5, 8, "a.b".to_string())]);
    let re = Matcher::parse("/gith?ub/i").unwrap().unwrap();
    let found: Vec<(usize, usize, String)> = re.find_all("GitHub と github");
    assert_eq!(found.len(), 2);
    assert_eq!(re.remove_from("a GitHub b"), "a  b");
    assert_eq!(Matcher::parse("/a/x").err().unwrap(), "unknown regex flag \"x\" in \"/a/x\"");
    assert!(Matcher::parse("/(/").err().unwrap().starts_with("bad regex \"/(/\": "));
}

#[test]
fn option_validation_reports_bad_values() {
    let opts = map(vec![("countBy", s("words"))]);
    assert_eq!(
        SentenceLength::new().validate(&opts).err().unwrap(),
        "sentence-length.countBy: unknown value \"words\". Use codeunits or codepoints."
    );
    assert!(SentenceLength::new().validate(&map(vec![("countBy", s("codepoints"))])).is_ok());
    let terms = map(vec![("terms", OptValue::List(vec![map(vec![("avoid", OptValue::List(vec![s("x")]))])]))]);
    assert_eq!(Terminology::new().validate(&terms).err().unwrap(), "terminology.terms: every entry needs a `preferred` string");
}

/// Counts how often it is asked to segment.
struct Counting(std::sync::Arc<std::sync::atomic::AtomicUsize>);

impl Morphology for Counting {
    fn segment(&self, text: &str) -> Vec<Token> {
        self.0.fetch_add(1, std::sync::atomic::Ordering::SeqCst);
        Chars.segment(text)
    }
}

#[test]
fn repeated_block_text_is_tokenized_once() {
    let calls = std::sync::Arc::new(std::sync::atomic::AtomicUsize::new(0));
    let linter = Linter::with_tokenizer(Config::preset(), Tokenizer::with_backend(Box::new(Counting(calls.clone()))));
    linter.lint("t.md", "同じ文です。\n\n同じ文です。\n\n別の文です。\n");
    assert_eq!(calls.load(std::sync::atomic::Ordering::SeqCst), 2);
}
