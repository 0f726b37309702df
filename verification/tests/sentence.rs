use issen::sentence::split;

fn texts(s: &str) -> Vec<&str> {
    split(s, &[]).into_iter().map(|x| &s[x.byte_range]).collect()
}

#[test]
fn splits_on_japanese_terminators() {
    assert_eq!(texts("一つ目。二つ目！三つ目"), vec!["一つ目。", "二つ目！", "三つ目"]);
}

#[test]
fn ascii_period_needs_trailing_space() {
    assert_eq!(texts("GitHub.com を使う。").len(), 1);
}

#[test]
fn line_breaks_and_quotes_do_not_end_a_sentence() {
    assert_eq!(texts("起動時に、\nキャッシュを破棄します。").len(), 1);
    assert_eq!(texts("「保存します。」と表示されます。次の文。"), vec!["「保存します。」と表示されます。", "次の文。"]);
}

#[test]
fn ascii_period_with_space_ends_a_sentence() {
    assert_eq!(texts("Use it. Then stop."), vec!["Use it.", "Then stop."]);
}

#[test]
fn empty_text_has_no_sentences() {
    assert!(texts("").is_empty());
}

#[test]
fn sentences_are_trimmed_ordered_and_cover_the_text() {
    let s = "  一つ目。  二つ目！ \n 三つ目  ";
    let ranges: Vec<_> = split(s, &[]).into_iter().map(|x| x.byte_range).collect();
    assert_eq!(ranges.iter().map(|r| &s[r.clone()]).collect::<Vec<_>>(), vec!["一つ目。", "二つ目！", "三つ目"]);
    assert!(ranges.windows(2).all(|w| w[0].end <= w[1].start));
    for (i, c) in s.char_indices() {
        if !c.is_whitespace() {
            assert!(ranges.iter().any(|r| r.start <= i && i < r.end));
        }
    }
}
