use subtitle_align::{batch_tokenize, tokenize_clusters, tokenize_text, TokenizeRequest};

#[test]
fn test_tokenize_english() {
    let result = tokenize_text("Hello, world! How are you?", "en").unwrap();
    assert_eq!(result.tokens, vec!["Hello", "world", "How", "are", "you"]);
    assert_eq!(result.positions.len(), 5);
}

#[test]
fn test_tokenize_contractions() {
    let result = tokenize_text("I don't know what you're doing.", "en").unwrap();
    assert_eq!(result.tokens, vec!["I", "don't", "know", "what", "you're", "doing"]);
}

#[test]
fn test_tokenize_french() {
    let result = tokenize_text("C'est très bien!", "fr").unwrap();
    assert_eq!(result.tokens, vec!["C'est", "très", "bien"]);
}

#[test]
fn test_tokenize_spanish_accents() {
    let result = tokenize_text("¿Cómo estás?", "es").unwrap();
    assert_eq!(result.tokens, vec!["Cómo", "estás"]);
}

#[test]
fn test_tokenize_chinese() {
    let result = tokenize_text("我爱学习中文", "zh").unwrap();
    assert_eq!(result.tokens, vec!["我", "爱", "学", "习", "中", "文"]);
}

#[test]
fn test_tokenize_japanese() {
    let result = tokenize_text("こんにちは", "ja").unwrap();
    assert_eq!(result.tokens.len(), 5);
}

#[test]
fn test_positions_accuracy() {
    let text = "Hello world";
    let result = tokenize_text(text, "en").unwrap();
    for (i, token) in result.tokens.iter().enumerate() {
        let pos = &result.positions[i];
        let extracted = &text[pos.start..pos.end];
        assert_eq!(token, extracted);
    }
}

#[test]
fn english_positions_are_exact_byte_spans() {
    let text = "Hello, world! How are you?";
    let result = tokenize_text(text, "en").unwrap();
    let spans: Vec<(usize, usize)> = result.positions.iter().map(|p| (p.start, p.end)).collect();
    assert_eq!(spans, vec![(0, 5), (7, 12), (14, 17), (18, 21), (22, 25)]);
    for (i, token) in result.tokens.iter().enumerate() {
        assert_eq!(&text[result.positions[i].start..result.positions[i].end], token);
    }
}

#[test]
fn chinese_tokens_are_single_characters_with_byte_offsets() {
    let text = "我爱学习中文";
    let result = tokenize_text(text, "zh").unwrap();
    assert_eq!(result.tokens.len(), 6);
    for (i, token) in result.tokens.iter().enumerate() {
        assert_eq!(token.chars().count(), 1);
        assert_eq!(result.positions[i].start, 3 * i);
        assert_eq!(result.positions[i].end, 3 * i + 3);
        assert_eq!(&text[result.positions[i].start..result.positions[i].end], token);
    }
}

#[test]
fn cjk_whitespace_is_skipped_but_counted_in_offsets() {
    let text = "我 爱\t中";
    let result = tokenize_text(text, "zh").unwrap();
    assert_eq!(result.tokens, vec!["我", "爱", "中"]);
    let spans: Vec<(usize, usize)> = result.positions.iter().map(|p| (p.start, p.end)).collect();
    assert_eq!(spans, vec![(0, 3), (4, 7), (8, 11)]);
}

#[test]
fn cjk_keeps_combining_marks_with_their_base() {
    let text = "e\u{301}中";
    let result = tokenize_text(text, "ja").unwrap();
    assert_eq!(result.tokens, vec!["e\u{301}", "中"]);
    assert_eq!(result.positions[0].end, 3);
    assert_eq!(result.positions[1].start, 3);
}

#[test]
fn language_tag_is_matched_in_any_case() {
    let upper = tokenize_text("我爱", "ZH-Hans").unwrap();
    assert_eq!(upper.tokens, vec!["我", "爱"]);
    assert_eq!(upper.language, "ZH-Hans");
    let korean = tokenize_text("안녕", "Korean").unwrap();
    assert_eq!(korean.tokens, vec!["안", "녕"]);
}

#[test]
fn other_languages_take_runs_of_letters() {
    let result = tokenize_text("我爱 学习", "en").unwrap();
    assert_eq!(result.tokens, vec!["我爱", "学习"]);
}

#[test]
fn empty_and_punctuation_only_texts_have_no_tokens() {
    let empty = tokenize_text("", "en").unwrap();
    assert!(empty.tokens.is_empty());
    assert!(empty.positions.is_empty());
    let punct = tokenize_text("123, !?", "en").unwrap();
    assert!(punct.tokens.is_empty());
    let cjk_empty = tokenize_text("  ", "zh").unwrap();
    assert!(cjk_empty.tokens.is_empty());
}

#[test]
fn hyphens_join_and_stray_joiners_split() {
    let result = tokenize_text("well-known 'quote' a--b", "en").unwrap();
    assert_eq!(result.tokens, vec!["well-known", "quote", "a", "b"]);
    assert_eq!(result.text, "well-known 'quote' a--b");
}

#[test]
fn given_clusters_skip_blanks_and_keep_offsets() {
    let clusters: Vec<String> = vec!["日".to_string(), " ".to_string(), "本".to_string(), "\u{3000}".to_string(), "a".to_string()];
    let (tokens, positions) = tokenize_clusters(&clusters);
    assert_eq!(tokens, vec!["日", "本", "a"]);
    let spans: Vec<(usize, usize)> = positions.iter().map(|p| (p.start, p.end)).collect();
    assert_eq!(spans, vec![(0, 3), (4, 7), (10, 11)]);
}

#[test]
fn batch_keeps_every_request_in_order() {
    let requests = vec![
        TokenizeRequest { text: "Hello world".to_string(), language: "en".to_string() },
        TokenizeRequest { text: "".to_string(), language: "en".to_string() },
        TokenizeRequest { text: "中文".to_string(), language: "zh".to_string() },
    ];
    let responses = batch_tokenize(&requests);
    assert_eq!(responses.len(), 3);
    assert_eq!(responses[0].tokens, vec!["Hello", "world"]);
    assert!(responses[1].tokens.is_empty());
    assert_eq!(responses[2].tokens, vec!["中", "文"]);
    assert_eq!(responses[2].language, "zh");
}
