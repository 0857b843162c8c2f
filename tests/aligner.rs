use subtitle_align::{
    align_linear, align_smart, align_tokens_linear, align_tokens_weighted, align_weighted,
    AlignmentError, AlignmentMethod, AlignmentRequest, TokenPosition, TokenizeResponse,
    WordTiming,
};

fn request(text: &str, language: &str, start: u64, end: u64) -> AlignmentRequest {
    AlignmentRequest {
        text: text.to_string(),
        language: language.to_string(),
        subtitle_start: start,
        subtitle_end: end,
        audio_url: None,
    }
}

fn seconds(t: &WordTiming) -> f64 {
    (t.end - t.start) as f64 / 1_000_000.0
}

#[test]
fn test_weighted_alignment_basic() {
    let req = request("Hello world", "en", 0, 2_000_000);
    let result = align_weighted(&req).unwrap();
    assert_eq!(result.timings.len(), 2);
    assert_eq!(result.duration, 2_000_000);
    let hello_duration = seconds(&result.timings[0]);
    let world_duration = seconds(&result.timings[1]);
    assert!((hello_duration - 1.0).abs() < 0.01);
    assert!((world_duration - 1.0).abs() < 0.01);
}

#[test]
fn test_weighted_alignment_unequal() {
    let req = request("I programming", "en", 0, 3_000_000);
    let result = align_weighted(&req).unwrap();
    let i_duration = seconds(&result.timings[0]);
    let prog_duration = seconds(&result.timings[1]);
    assert!(prog_duration > i_duration * 5.0);
}

#[test]
fn test_linear_alignment() {
    let req = request("a programming language", "en", 0, 3_000_000);
    let result = align_linear(&req).unwrap();
    for timing in &result.timings {
        let duration = seconds(timing);
        assert!((duration - 1.0).abs() < 0.01);
    }
}

#[test]
fn test_confidence_scores() {
    let req = request("Hello world", "en", 0, 2_000_000);
    let weighted = align_weighted(&req).unwrap();
    let linear = align_linear(&req).unwrap();
    assert!(weighted.timings[0].confidence > linear.timings[0].confidence);
}

#[test]
fn weighted_shares_by_character_count() {
    let req = request("Hi wonderful", "en", 0, 2_000_000);
    let result = align_weighted(&req).unwrap();
    assert_eq!(result.method, AlignmentMethod::Weighted);
    assert_eq!(result.timings.len(), 2);
    assert_eq!(result.timings[0].word, "Hi");
    assert_eq!(result.timings[0].start, 0);
    assert_eq!(result.timings[0].end, 363_636);
    assert_eq!(result.timings[1].word, "wonderful");
    assert_eq!(result.timings[1].start, 363_636);
    assert_eq!(result.timings[1].end, 2_000_000);
    assert!((seconds(&result.timings[0]) - 0.3636).abs() < 1e-4);
    assert!((seconds(&result.timings[1]) - 1.6364).abs() < 1e-4);
    assert_eq!(result.timings[0].confidence, 75);
    assert_eq!(result.timings[1].confidence, 75);
    assert_eq!((result.timings[1].char_start, result.timings[1].char_end), (3, 12));
}

#[test]
fn linear_gives_each_word_one_second() {
    let req = request("a programming language", "en", 0, 3_000_000);
    let result = align_linear(&req).unwrap();
    assert_eq!(result.method, AlignmentMethod::Linear);
    let bounds: Vec<(u64, u64)> = result.timings.iter().map(|t| (t.start, t.end)).collect();
    assert_eq!(bounds, vec![(0, 1_000_000), (1_000_000, 2_000_000), (2_000_000, 3_000_000)]);
    for t in &result.timings {
        assert_eq!(t.confidence, 50);
    }
}

#[test]
fn linear_rounds_down_and_still_fills_the_interval() {
    let req = request("one two three", "en", 10, 20);
    let result = align_linear(&req).unwrap();
    let bounds: Vec<(u64, u64)> = result.timings.iter().map(|t| (t.start, t.end)).collect();
    assert_eq!(bounds, vec![(10, 13), (13, 16), (16, 20)]);
}

#[test]
fn timings_are_contiguous_and_fill_the_interval() {
    let req = request("The quick brown fox jumps over the lazy dog", "en", 1_250_000, 4_750_001);
    for result in [align_weighted(&req).unwrap(), align_linear(&req).unwrap()] {
        assert_eq!(result.timings[0].start, 1_250_000);
        for w in result.timings.windows(2) {
            assert_eq!(w[0].end, w[1].start);
        }
        let total: u64 = result.timings.iter().map(|t| t.end - t.start).sum();
        assert_eq!(total, 3_500_001);
        assert_eq!(result.duration, 3_500_001);
    }
}

#[test]
fn longer_words_get_no_less_time() {
    let req = request("a bb ccc dddd eeeee", "en", 0, 1_000_000);
    let result = align_weighted(&req).unwrap();
    for w in result.timings.windows(2) {
        assert!(w[1].end - w[1].start >= w[0].end - w[0].start);
    }
}

#[test]
fn weighted_counts_characters_not_bytes() {
    let req = request("我爱", "zh", 0, 1_000_000);
    let result = align_weighted(&req).unwrap();
    assert_eq!(result.timings[0].end, 500_000);
    assert_eq!((result.timings[1].char_start, result.timings[1].char_end), (3, 6));
}

#[test]
fn smart_refuses_audio_reference() {
    let mut req = request("hello", "en", 0, 1_000_000);
    req.audio_url = Some("http://example.com/a.wav".to_string());
    assert_eq!(align_smart(&req).unwrap_err(), AlignmentError::NotImplemented);
    let mut empty = request("", "en", 0, 0);
    empty.audio_url = Some("x".to_string());
    assert_eq!(align_smart(&empty).unwrap_err(), AlignmentError::NotImplemented);
}

#[test]
fn smart_without_audio_aligns_by_weight() {
    let req = request("Hi wonderful", "en", 0, 2_000_000);
    let result = align_smart(&req).unwrap();
    assert_eq!(result.method, AlignmentMethod::Weighted);
    assert_eq!(result.timings[0].end, 363_636);
}

#[test]
fn empty_text_is_refused() {
    let req = request("", "en", 0, 1_000_000);
    assert_eq!(align_weighted(&req).unwrap_err(), AlignmentError::EmptyInput);
    assert_eq!(align_linear(&req).unwrap_err(), AlignmentError::EmptyInput);
    let punct = request("?!", "en", 0, 1_000_000);
    assert_eq!(align_weighted(&punct).unwrap_err(), AlignmentError::EmptyInput);
}

#[test]
fn interval_must_end_after_start() {
    let same = request("hello", "en", 5, 5);
    assert_eq!(align_weighted(&same).unwrap_err(), AlignmentError::InvalidTiming);
    assert_eq!(align_linear(&same).unwrap_err(), AlignmentError::InvalidTiming);
    let backwards = request("hello", "en", 9, 5);
    assert_eq!(align_weighted(&backwards).unwrap_err(), AlignmentError::InvalidTiming);
}

#[test]
fn response_copies_text_and_language() {
    let req = request("Hello world", "EN", 0, 10);
    let result = align_weighted(&req).unwrap();
    assert_eq!(result.text, "Hello world");
    assert_eq!(result.language, "EN");
}

fn given_tokens(words: &[(&str, usize, usize)]) -> TokenizeResponse {
    TokenizeResponse {
        text: "given".to_string(),
        language: "xx".to_string(),
        tokens: words.iter().map(|w| w.0.to_string()).collect(),
        positions: words.iter().map(|w| TokenPosition { start: w.1, end: w.2 }).collect(),
    }
}

#[test]
fn tokens_with_no_characters_weigh_nothing() {
    let tokens = given_tokens(&[("", 0, 0), ("", 0, 0)]);
    assert_eq!(align_tokens_weighted(&tokens, 0, 10).unwrap_err(), AlignmentError::ZeroWeight);
    let linear = align_tokens_linear(&tokens, 0, 10).unwrap();
    assert_eq!(linear.timings[0].end, 5);
}

#[test]
fn given_tokens_are_weighted_by_characters() {
    let tokens = given_tokens(&[("ab", 0, 2), ("c", 4, 5)]);
    let result = align_tokens_weighted(&tokens, 100, 400).unwrap();
    let bounds: Vec<(u64, u64)> = result.timings.iter().map(|t| (t.start, t.end)).collect();
    assert_eq!(bounds, vec![(100, 300), (300, 400)]);
    assert_eq!(result.text, "given");
    assert_eq!((result.timings[1].char_start, result.timings[1].char_end), (4, 5));
    let none = given_tokens(&[]);
    assert_eq!(align_tokens_weighted(&none, 0, 10).unwrap_err(), AlignmentError::EmptyInput);
    assert_eq!(align_tokens_linear(&tokens, 10, 0).unwrap_err(), AlignmentError::InvalidTiming);
}
