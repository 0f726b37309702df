//! textlint-parity regressions, run with a small dictionary analyser in
//! place of Lindera. The dictionary knows just the words these cases need,
//! with their IPADIC columns; any other character is a one-character noun.

use issen::config::{Config, Gate, OptValue};
use issen::engine::Linter;
use issen::tokenizer::{Morphology, Token, Tokenizer};

const WORDS: &[(&str, &[&str])] = &[
    ("、", &["記号", "読点"]),
    ("。", &["記号", "句点"]),
    ("は", &["助詞", "係助詞"]),
    ("が", &["助詞", "格助詞"]),
    ("を", &["助詞", "格助詞"]),
    ("に", &["助詞", "格助詞"]),
    ("と", &["助詞", "格助詞"]),
    ("も", &["助詞", "係助詞"]),
    ("から", &["助詞", "接続助詞"]),
    ("ので", &["助詞", "接続助詞"]),
    ("で", &["接続詞", "*", "*", "*", "*", "*", "で"]),
    ("かも", &["助詞", "副助詞"]),
    ("しれ", &["動詞", "自立", "*", "*", "一段", "未然形", "しれる"]),
    ("しかし", &["接続詞", "*", "*", "*", "*", "*", "しかし"]),
    ("です", &["助動詞", "*", "*", "*", "特殊・デス", "基本形", "です"]),
    ("ます", &["助動詞", "*", "*", "*", "特殊・マス", "基本形", "ます"]),
];

struct Dictionary;

impl Morphology for Dictionary {
    fn segment(&self, text: &str) -> Vec<Token> {
        let mut out = Vec::new();
        let mut at = 0;
        while at < text.len() {
            let rest = &text[at..];
            let hit = WORDS.iter().filter(|(w, _)| rest.starts_with(w)).max_by_key(|(w, _)| w.len());
            match hit {
                Some((w, features)) => {
                    out.push(Token::new(w, features, at, at + w.len()));
                    at += w.len();
                }
                None => {
                    let c = rest.chars().next().unwrap();
                    let w = &rest[..c.len_utf8()];
                    out.push(Token::new(w, &["名詞"], at, at + w.len()));
                    at += w.len();
                }
            }
        }
        out
    }
}

fn linter() -> Linter {
    Linter::with_tokenizer(Config::preset(), Tokenizer::with_backend(Box::new(Dictionary)))
}

fn rules_at(src: &str) -> Vec<(String, usize, usize)> {
    linter().lint("t.md", src).diagnostics.into_iter().map(|d| (d.rule, d.line, d.column)).collect()
}

fn has(src: &str, rule: &str) -> bool {
    rules_at(src).iter().any(|(r, _, _)| r == rule)
}

#[test]
fn non_ascii_inline_code_never_panics() {
    for src in ["これは`日本`\n", "`あ`ﾃｽﾄ。\n", "テスト`あ`\n", "- `日本語`です。\n"] {
        let _ = rules_at(src);
    }
}

#[test]
fn positions_after_breaks_and_entities() {
    assert!(rules_at("これは  \nﾃｽﾄです。\n").contains(&("no-hankaku-kana".into(), 2, 1)));
    assert!(rules_at("これは\r\nﾃｽﾄです。\r\n").contains(&("no-hankaku-kana".into(), 2, 1)));
}

#[test]
fn hard_wrapped_and_quoted_text_is_one_sentence() {
    // sentence-splitter: a line break does not end a sentence.
    assert!(has("この設定を有効にすると、起動時に、キャッシュを、\nすべて破棄してから、インデックスを再構築します。\n", "max-ten"));
    // ...and neither does 。 inside 「」.
    let long = format!("「{}。」{}。\n", "あ".repeat(60), "あ".repeat(60));
    assert!(has(&long, "sentence-length"));
}

#[test]
fn table_cells_are_not_paragraphs() {
    let src = "| 名前 | 説明 |\n|---|---|\n| save | ファイルを保存する |\n| 状態 | 実行中である |\n";
    assert!(!has(src, "ja-no-mixed-period"));
    assert!(!has(src, "no-mix-dearu-desumasu"));
    // Character-level rules still see cells.
    assert!(has("| ﾃｽﾄ |\n|---|\n| a |\n", "no-hankaku-kana"));
}

#[test]
fn nested_tight_list_items_are_separate_blocks() {
    assert!(!has("- 私は学生です\n  - 彼は先生です\n", "no-doubled-joshi"));
}

#[test]
fn paragraph_ending_in_code_or_link_is_not_checked_for_period() {
    assert!(!has("ビルドに使うコマンドは `npm run build`\n", "ja-no-mixed-period"));
    assert!(!has("詳細は[公式ドキュメント](https://example.com/docs)\n", "ja-no-mixed-period"));
    assert!(has("文末に句点がない\n", "ja-no-mixed-period"));
}

#[test]
fn sentence_length_skips_url_links_and_link_only_paragraphs() {
    let url = format!("https://example.com/{}", "a".repeat(150));
    assert!(!has(&format!("リポジトリは <{url}> にあります。\n"), "sentence-length"));
    assert!(!has(&format!("[{}]({url})\n", "あ".repeat(120)), "sentence-length"));
    assert!(has(&format!("{}。\n", "あ".repeat(120)), "sentence-length"));
}

#[test]
fn inline_node_exclusions_match_textlint() {
    assert!(!has("[利用規約同意確認画面](https://x)を参照。\n", "max-kanji-continuous-len"));
    assert!(has("利用規約同意確認画面を参照。\n", "max-kanji-continuous-len"));
    assert!(!has("Yahoo!を使います。\n", "no-exclamation-question-mark"));
    assert!(has("すごい!です。\n", "no-exclamation-question-mark"));
    // Block quotes: weak-phrase runs, sentence rules do not.
    assert!(has("> これはかもしれない。\n", "ja-no-weak-phrase"));
    assert!(!has("> 私は昨日は東京に行きました。\n", "no-doubled-joshi"));
    // A tight list item starting with inline code keeps the code mask.
    let code = "a".repeat(101);
    assert!(has(&format!("- `{code}`です。\n"), "sentence-length"));
}

#[test]
fn conjunction_after_whitespace_is_ignored() {
    // textlint skips a 接続詞 that follows a whitespace token; Lindera emits no
    // whitespace tokens, so the rule must look at the text instead.
    assert!(!has("速いので `Cargo.toml` で固定する。上げるときは `cargo test` で確認する。\n", "no-doubled-conjunction"));
    assert!(has("しかし、遅い。しかし、安い。\n", "no-doubled-conjunction"));
}

const EMOJI: &str = "😀"; // one character, two UTF-16 code units

#[test]
fn offsets_and_columns_count_utf16() {
    let src = format!("# T\n\n{EMOJI} ﾃｽﾄです。\n");
    let d = linter().lint("t.md", &src).diagnostics.into_iter().find(|d| d.rule == "no-hankaku-kana").unwrap();
    // The emoji plus a space is 3 code units, so the kana starts at column 4.
    assert_eq!((d.line, d.column), (3, 4));
    assert_eq!(d.range, [8, 11]);
    assert_eq!(d.fix.unwrap().range, [8, 11]);
}

#[test]
fn fixes_apply_across_a_surrogate_pair() {
    let fixed = linter().fix("t.md", &format!("{EMOJI} ﾃｽﾄです。\n"));
    assert_eq!(fixed.source, format!("{EMOJI} テストです。\n"));
    assert_eq!(fixed.applied, 1);
}

#[test]
fn kanji_runs_count_utf16() {
    // Four SIP kanji: 4 characters, 8 UTF-16 code units, so over the limit of 6.
    assert!(has("𠮟𠮟𠮟𠮟と言う。\n", "max-kanji-continuous-len"));
    assert!(!has("漢字漢字と言う。\n", "max-kanji-continuous-len"));
}

#[test]
fn fix_loop_converges() {
    let r = linter().fix("t.md", "ﾃｽﾄを実行する.\n");
    assert_eq!(r.source, "テストを実行する。\n");
    assert_eq!(r.applied, 2);
    assert!(r.result.diagnostics.is_empty(), "{:?}", r.result.diagnostics);
}

#[test]
fn fixes_after_breaks_and_entities_keep_the_source_intact() {
    let linter = linter();
    assert_eq!(linter.fix("t.md", "これは  \nﾃｽﾄです。\n").source, "これは  \nテストです。\n");
    assert_eq!(linter.fix("t.md", "これは\r\nﾃｽﾄです。\r\n").source, "これは\r\nテストです。\r\n");
    let r = linter.lint("t.md", "これは`日本`\n");
    assert!(r.diagnostics.iter().all(|d| d.rule != "ja-no-mixed-period"), "{:?}", r.diagnostics);
}

#[test]
fn diagnostics_come_in_order_of_position() {
    let r = linter().lint("t.md", "ﾃｽﾄ!\n\n本当ですか？ﾃｽﾄ\n");
    let keys: Vec<(usize, usize, String)> = r.diagnostics.iter().map(|d| (d.line, d.column, d.rule.clone())).collect();
    let mut sorted = keys.clone();
    sorted.sort();
    assert_eq!(keys, sorted);
    assert!(keys.len() >= 3);
}

#[test]
fn weak_phrase_reports_the_whole_match() {
    let r = linter().lint("t.md", "これはかもしれない。\n");
    let d = r.diagnostics.iter().find(|d| d.rule == "ja-no-weak-phrase").unwrap();
    assert_eq!(d.message, "弱い表現: \"かも\" が使われています。");
    // かも starts at the fourth character and しれ ends at the seventh.
    assert_eq!(d.range, [3, 7]);
}

#[test]
fn doubled_conjunction_message_names_it() {
    let r = linter().lint("t.md", "しかし、遅い。しかし、安い。\n");
    let d = r.diagnostics.iter().find(|d| d.rule == "no-doubled-conjunction").unwrap();
    assert_eq!(d.message, "同じ接続詞（しかし）が連続して使われています。");
    assert_eq!((d.line, d.column), (1, 8));
}

#[test]
fn doubled_conjunction_needs_consecutive_sentences() {
    assert!(!has("しかし、遅い。安い。しかし、高い。\n", "no-doubled-conjunction"));
}

#[test]
fn max_ten_counts_touten_per_sentence() {
    let r = linter().lint("t.md", "この設定を有効にすると、起動時に、キャッシュを、\nすべて破棄してから、インデックスを再構築します。\n");
    let d = r.diagnostics.iter().find(|d| d.rule == "max-ten").unwrap();
    assert_eq!(d.message, "一つの文で\"、\"を4つ以上使用しています");
}

#[test]
fn sentence_length_message_gives_the_excess() {
    let r = linter().lint("t.md", &format!("{}。\n", "あ".repeat(120)));
    let d = r.diagnostics.iter().find(|d| d.rule == "sentence-length").unwrap();
    assert_eq!(d.message, "Line 1 sentence length(121) exceeds the maximum sentence length of 100.\nOver 21 characters.");
}

fn joshi_linter(options: Vec<(&str, OptValue)>) -> Linter {
    let rule = OptValue::Mapping(options.into_iter().map(|(k, v)| (k.to_string(), v)).collect());
    let user = Config { rules: vec![("no-doubled-joshi".to_string(), rule)], gate: Gate { fail_on: None, max_warnings: None } };
    Linter::with_tokenizer(Config::layered(user).unwrap(), Tokenizer::with_backend(Box::new(Dictionary)))
}

fn joshi_columns(linter: &Linter, src: &str) -> Vec<usize> {
    linter.lint("t.md", src).diagnostics.into_iter().filter(|d| d.rule == "no-doubled-joshi").map(|d| d.column).collect()
}

#[test]
fn doubled_joshi_reports_the_repeat_and_honours_allow() {
    let src = "これはペンはです。\n";
    assert_eq!(joshi_columns(&joshi_linter(vec![]), src), vec![6]);
    let allow = OptValue::List(vec![OptValue::Str("は".to_string())]);
    assert!(joshi_columns(&joshi_linter(vec![("allow", allow)]), src).is_empty());
}

#[test]
fn doubled_joshi_wider_interval_only_adds_reports() {
    let src = "これは、ペンはです。\n";
    assert!(joshi_columns(&joshi_linter(vec![]), src).is_empty());
    assert_eq!(joshi_columns(&joshi_linter(vec![("min_interval", OptValue::Int(2))]), src), vec![7]);
}

#[test]
fn max_ten_is_quiet_up_to_the_limit() {
    assert!(!has("この設定を有効にすると、起動時に、キャッシュを、すべて破棄します。\n", "max-ten"));
}

#[test]
fn uniform_style_is_not_mixed() {
    assert!(!has("これはペンです。\n\nあれは本です。\n", "no-mix-dearu-desumasu"));
}
