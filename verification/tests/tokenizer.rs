use issen::tokenizer::{Morphology, Token, Tokenizer};

/// A backend that splits on ASCII spaces, to prove rules never touch Lindera.
struct SpaceBackend;
impl Morphology for SpaceBackend {
    fn segment(&self, text: &str) -> Vec<Token> {
        text.split(' ')
            .scan(0usize, |pos, w| {
                let start = *pos;
                *pos += w.len() + 1;
                Some(Token::new(w, &["名詞"], start, start + w.len()))
            })
            .filter(|t| !t.surface.is_empty())
            .collect()
    }
}

/// A backend that reports tokens out of order and past the end.
struct UnrulyBackend;
impl Morphology for UnrulyBackend {
    fn segment(&self, _text: &str) -> Vec<Token> {
        vec![
            Token::new("b", &["名詞"], 3, 6),
            Token::new("a", &["名詞"], 0, 3),
            Token::new("c", &["名詞"], 6, 99),
            Token::new("d", &["名詞"], 6, 9),
        ]
    }
}

#[test]
fn any_backend_yields_ipadic_columns() {
    let tk = Tokenizer::with_backend(Box::new(SpaceBackend));
    let toks = tk.tokenize("日本語 テキスト");
    assert_eq!(toks.len(), 2);
    assert_eq!((toks[1].byte_start, toks[1].byte_end), (10, 22));
    assert_eq!(toks[1].pos(), "名詞");
    assert_eq!(toks[1].basic_form(), "*");
}

#[test]
fn tokens_out_of_order_or_past_the_end_are_dropped() {
    let tk = Tokenizer::with_backend(Box::new(UnrulyBackend));
    let toks = tk.tokenize("あいう");
    let spans: Vec<(usize, usize)> = toks.iter().map(|t| (t.byte_start, t.byte_end)).collect();
    assert_eq!(spans, vec![(3, 6), (6, 9)]);
}

#[test]
fn missing_feature_columns_read_star() {
    let t = Token::new("食べ", &["動詞", "自立", "*", "*", "一段", "未然形", "食べる"], 0, 6);
    assert_eq!(t.pos(), "動詞");
    assert_eq!(t.pos_detail_1(), "自立");
    assert_eq!(t.conjugated_type(), "一段");
    assert_eq!(t.conjugated_form(), "未然形");
    assert_eq!(t.basic_form(), "食べる");
    assert_eq!(t.reading(), "*");
    assert!(!t.is_joshi());
    assert!(Token::new("は", &["助詞"], 0, 3).is_joshi());
    assert!(Token::new(" \t", &[], 0, 2).is_whitespace());
}
