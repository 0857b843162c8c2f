//! Word segmentation of subtitle text and heuristic word timing within a
//! subtitle's interval. Times are whole microseconds.
pub mod aligner;
pub mod models;
pub mod tokenizer;

pub use aligner::{
    align_linear, align_smart, align_tokens_linear, align_tokens_weighted, align_weighted,
    LINEAR_CONFIDENCE, WEIGHTED_CONFIDENCE,
};
pub use models::{
    AlignmentError, AlignmentMethod, AlignmentRequest, AlignmentResponse, HealthResponse,
    TokenPosition, TokenizeRequest, TokenizeResponse, WordTiming,
};
pub use tokenizer::{batch_tokenize, tokenize_clusters, tokenize_text};
