use vstd::prelude::*;

verus! {

/// Text to segment, with its language tag.
#[derive(Clone, Debug)]
pub struct TokenizeRequest {
    pub text: String,
    pub language: String,
}

/// The tokens of a text, each with its byte span in that text.
#[derive(Debug)]
pub struct TokenizeResponse {
    pub text: String,
    pub language: String,
    pub tokens: Vec<String>,
    pub positions: Vec<TokenPosition>,
}

/// Byte offsets `[start, end)` of a token in the text it came from.
#[derive(Clone, Copy, Debug, PartialEq, Eq, Structural)]
pub struct TokenPosition {
    pub start: usize,
    pub end: usize,
}

/// Liveness report of the service around the library.
#[derive(Debug)]
pub struct HealthResponse {
    pub status: String,
    pub service: String,
    pub version: String,
}

/// When one word is spoken. `start` and `end` are microseconds; `confidence`
/// is in hundredths (75 stands for 0.75); `char_start` and `char_end` are the
/// word's byte offsets in the text.
#[derive(Clone, Debug)]
pub struct WordTiming {
    pub word: String,
    pub start: u64,
    pub end: u64,
    pub confidence: u32,
    pub char_start: usize,
    pub char_end: usize,
}

/// A subtitle to align: its text and language, its interval in microseconds,
/// and optionally a reference to its audio.
#[derive(Clone, Debug)]
pub struct AlignmentRequest {
    pub text: String,
    pub language: String,
    pub subtitle_start: u64,
    pub subtitle_end: u64,
    pub audio_url: Option<String>,
}

/// The timing of each word of a subtitle, in the order of the words.
#[derive(Debug)]
pub struct AlignmentResponse {
    pub text: String,
    pub language: String,
    pub duration: u64,
    pub timings: Vec<WordTiming>,
    pub method: AlignmentMethod,
}

/// How the timings were found. `ForcedAligner` is reserved for alignment
/// against audio, which nothing produces yet.
#[derive(Clone, Copy, Debug, PartialEq, Eq, Structural)]
pub enum AlignmentMethod {
    Linear,
    Weighted,
    ForcedAligner,
}

/// Why an alignment was refused.
#[derive(Clone, Copy, Debug, PartialEq, Eq, Structural)]
pub enum AlignmentError {
    /// The text holds no word for its language.
    EmptyInput,
    /// The subtitle does not end after it starts.
    InvalidTiming,
    /// The words hold no characters to weigh.
    ZeroWeight,
    /// Alignment against audio was asked for.
    NotImplemented,
}

} // verus!
