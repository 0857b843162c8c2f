use crate::models::{
    AlignmentError, AlignmentMethod, AlignmentRequest, AlignmentResponse, TokenizeResponse,
    WordTiming,
};
use crate::tokenizer::{
    lemma_encoded_len_at_least, token_model, tokenization, tokenize_text, well_placed, TokenSpec,
};
use vstd::arithmetic::div_mod::{
    lemma_div_by_multiple, lemma_div_is_ordered, lemma_fundamental_div_mod, lemma_mod_pos_bound,
};
use vstd::prelude::*;
use vstd::utf8::*;

verus! {

/// Confidence, in hundredths, of a timing spread by word length.
pub const WEIGHTED_CONFIDENCE: u32 = 75;

/// Confidence, in hundredths, of a timing spread evenly.
pub const LINEAR_CONFIDENCE: u32 = 50;

/// Characters in the first `k` tokens.
pub open spec fn chars_before(model: Seq<TokenSpec>, k: int) -> int
    decreases k,
{
    if k <= 0 {
        0
    } else {
        chars_before(model, k - 1) + model[k - 1].0.len()
    }
}

/// Characters in all the tokens.
pub open spec fn total_chars(model: Seq<TokenSpec>) -> int {
    chars_before(model, model.len() as int)
}

/// Where the `k`-th word starts when `duration` is shared by character count:
/// the share of the words before it, rounded down.
pub open spec fn weighted_boundary(start: int, duration: int, model: Seq<TokenSpec>, k: int) -> int {
    start + duration * chars_before(model, k) / total_chars(model)
}

/// Where the `k`-th of `n` words starts when `duration` is shared evenly,
/// rounded down.
pub open spec fn linear_boundary(start: int, duration: int, n: int, k: int) -> int {
    start + duration * k / n
}

/// Timing `i` is token `i` of the model, from `bound(i)` to `bound(i + 1)`.
pub open spec fn timings_follow(
    timings: Seq<WordTiming>,
    model: Seq<TokenSpec>,
    bound: spec_fn(int) -> int,
    confidence: u32,
) -> bool {
    &&& timings.len() == model.len()
    &&& forall|i: int|
        0 <= i < model.len() ==> {
            &&& (#[trigger] timings[i]).word@ == model[i].0
            &&& timings[i].start == bound(i)
            &&& timings[i].end == bound(i + 1)
            &&& timings[i].confidence == confidence
            &&& timings[i].char_start == model[i].1
            &&& timings[i].char_end == model[i].2
        }
}

/// The time that the timings take up together.
pub open spec fn spans_total(timings: Seq<WordTiming>) -> int
    decreases timings.len(),
{
    if timings.len() == 0 {
        0
    } else {
        (timings[0].end - timings[0].start) + spans_total(timings.drop_first())
    }
}

/// The timings start at `start` and each ends where the next begins.
pub open spec fn contiguous(timings: Seq<WordTiming>, start: u64) -> bool {
    &&& timings.len() > 0 ==> timings[0].start == start
    &&& forall|i: int| 0 <= i < timings.len() - 1 ==> (#[trigger] timings[i]).end == timings[i
        + 1].start
}

/// The outcome owed when `model`, the tokens of `text` in `language`, is
/// timed within `[start, end)`: no token gives `EmptyInput`; else an interval
/// that does not end after it starts gives `InvalidTiming`; else, for a
/// method that `weighs` by characters, tokens with no character give
/// `ZeroWeight`; else timings that follow `bound`.
pub open spec fn timed_result(
    model: Seq<TokenSpec>,
    text: Seq<char>,
    language: Seq<char>,
    start: u64,
    end: u64,
    r: Result<AlignmentResponse, AlignmentError>,
    method: AlignmentMethod,
    bound: spec_fn(int) -> int,
    confidence: u32,
    weighs: bool,
) -> bool {
    match r {
        Err(e) => {
            ||| (model.len() == 0 && e == AlignmentError::EmptyInput)
            ||| (model.len() > 0 && end <= start && e == AlignmentError::InvalidTiming)
            ||| (weighs && model.len() > 0 && start < end && total_chars(model) == 0 && e
                == AlignmentError::ZeroWeight)
        },
        Ok(resp) => {
            &&& model.len() > 0
            &&& start < end
            &&& !(weighs && total_chars(model) == 0)
            &&& resp.text@ == text
            &&& resp.language@ == language
            &&& resp.duration == end - start
            &&& resp.method == method
            &&& timings_follow(resp.timings@, model, bound, confidence)
        },
    }
}

/// What weighted alignment owes for the tokens `model` of `text`.
pub open spec fn weighted_tokens_result(
    model: Seq<TokenSpec>,
    text: Seq<char>,
    language: Seq<char>,
    start: u64,
    end: u64,
    r: Result<AlignmentResponse, AlignmentError>,
) -> bool {
    timed_result(
        model,
        text,
        language,
        start,
        end,
        r,
        AlignmentMethod::Weighted,
        |k: int| weighted_boundary(start as int, end - start, model, k),
        WEIGHTED_CONFIDENCE,
        true,
    )
}

/// What linear alignment owes for the tokens `model` of `text`.
pub open spec fn linear_tokens_result(
    model: Seq<TokenSpec>,
    text: Seq<char>,
    language: Seq<char>,
    start: u64,
    end: u64,
    r: Result<AlignmentResponse, AlignmentError>,
) -> bool {
    timed_result(
        model,
        text,
        language,
        start,
        end,
        r,
        AlignmentMethod::Linear,
        |k: int| linear_boundary(start as int, end - start, model.len() as int, k),
        LINEAR_CONFIDENCE,
        false,
    )
}

/// What `align_weighted` owes for `req`.
pub open spec fn weighted_result(
    req: AlignmentRequest,
    r: Result<AlignmentResponse, AlignmentError>,
) -> bool {
    weighted_tokens_result(
        tokenization(req.text@, req.language@),
        req.text@,
        req.language@,
        req.subtitle_start,
        req.subtitle_end,
        r,
    )
}

/// What `align_linear` owes for `req`.
pub open spec fn linear_result(
    req: AlignmentRequest,
    r: Result<AlignmentResponse, AlignmentError>,
) -> bool {
    linear_tokens_result(
        tokenization(req.text@, req.language@),
        req.text@,
        req.language@,
        req.subtitle_start,
        req.subtitle_end,
        r,
    )
}

proof fn lemma_chars_before_grows(model: Seq<TokenSpec>, i: int, j: int)
    requires
        0 <= i <= j <= model.len(),
    ensures
        chars_before(model, i) <= chars_before(model, j),
    decreases j - i,
{
    if i < j {
        lemma_chars_before_grows(model, i, j - 1);
    }
}

/// `d * a / t` lies between 0 and `d` when `a` does not exceed `t`.
proof fn lemma_share_within(d: int, a: int, t: int)
    requires
        0 <= d,
        0 <= a <= t,
        0 < t,
    ensures
        0 <= d * a / t <= d,
{
    assert(0 <= d * a <= d * t) by (nonlinear_arith)
        requires
            0 <= d,
            0 <= a <= t,
    ;
    lemma_div_is_ordered(d * a, d * t, t);
    lemma_div_is_ordered(0, d * a, t);
    lemma_div_by_multiple(d, t);
}

/// Timings that run on from one another take up the time from the first
/// start to the last end.
proof fn lemma_contiguous_total(timings: Seq<WordTiming>)
    requires
        timings.len() > 0,
        forall|i: int| 0 <= i < timings.len() - 1 ==> (#[trigger] timings[i]).end == timings[i
            + 1].start,
    ensures
        spans_total(timings) == timings[timings.len() - 1].end - timings[0].start,
    decreases timings.len(),
{
    if timings.len() > 1 {
        let rest = timings.drop_first();
        assert forall|i: int| 0 <= i < rest.len() - 1 implies (#[trigger] rest[i]).end == rest[i
            + 1].start by {
            assert(rest[i] == timings[i + 1]);
        }
        lemma_contiguous_total(rest);
        assert(rest[0] == timings[1]);
        assert(rest[rest.len() - 1] == timings[timings.len() - 1]);
    } else {
        assert(timings.drop_first().len() == 0);
        assert(spans_total(timings.drop_first()) == 0);
    }
}

/// Contiguity and conservation of the interval, for timings that follow a
/// boundary function from `start` to `start + duration`.
proof fn lemma_follow_fills(
    timings: Seq<WordTiming>,
    model: Seq<TokenSpec>,
    bound: spec_fn(int) -> int,
    confidence: u32,
    start: u64,
    duration: int,
)
    requires
        model.len() > 0,
        timings_follow(timings, model, bound, confidence),
        bound(0) == start,
        bound(model.len() as int) == start + duration,
    ensures
        contiguous(timings, start),
        spans_total(timings) == duration,
{
    assert forall|i: int| 0 <= i < timings.len() - 1 implies (#[trigger] timings[i]).end
        == timings[i + 1].start by {
        assert(timings[i + 1].start == bound(i + 1));
    }
    assert(timings[0].start == bound(0));
    assert(timings[timings.len() - 1].end == bound(model.len() as int));
    lemma_contiguous_total(timings);
}

/// Characters of token `i` are no more than its bytes, and the tokens before
/// it hold no more characters than the bytes before its end.
proof fn lemma_chars_within_bytes(text: Seq<char>, model: Seq<TokenSpec>, i: int)
    requires
        well_placed(text, model),
        0 <= i < model.len(),
    ensures
        1 <= model[i].0.len() <= model[i].2 - model[i].1,
        chars_before(model, i + 1) <= model[i].2,
    decreases i,
{
    lemma_encoded_len_at_least(model[i].0);
    let sub = encode_utf8(text).subrange(model[i].1, model[i].2);
    assert(sub.len() == model[i].2 - model[i].1);
    if model[i].0.len() == 0 {
        assert(encode_utf8(model[i].0).len() == 0);
    }
    assert(chars_before(model, i + 1) == chars_before(model, i) + model[i].0.len());
    if i > 0 {
        lemma_chars_within_bytes(text, model, i - 1);
        assert(model[i - 1].2 <= model[i].1);
    } else {
        assert(chars_before(model, 0) == 0);
    }
}

/// The tokens of a tokenization hold at least one character and no more
/// than the text's bytes.
proof fn lemma_tokenization_weight(text: Seq<char>, model: Seq<TokenSpec>)
    requires
        well_placed(text, model),
        model.len() > 0,
        encode_utf8(text).len() <= usize::MAX,
    ensures
        0 < total_chars(model) <= usize::MAX,
{
    let n = model.len() as int;
    lemma_chars_within_bytes(text, model, n - 1);
    lemma_chars_before_grows(model, 0, n - 1);
    assert(chars_before(model, n) == chars_before(model, n - 1) + model[n - 1].0.len());
}

/// Shares the interval `[subtitle_start, subtitle_end)` among the tokens in
/// proportion to their numbers of characters. Each word starts where the one
/// before it ends; word `k` starts at
/// `subtitle_start + duration * (characters before it) / (all characters)`,
/// so the words fill the interval exactly.
pub fn align_tokens_weighted(
    tokenized: &TokenizeResponse,
    subtitle_start: u64,
    subtitle_end: u64,
) -> (r: Result<AlignmentResponse, AlignmentError>)
    requires
        tokenized.tokens@.len() == tokenized.positions@.len(),
        total_chars(token_model(tokenized.tokens@, tokenized.positions@)) <= u64::MAX,
    ensures
        weighted_tokens_result(
            token_model(tokenized.tokens@, tokenized.positions@),
            tokenized.text@,
            tokenized.language@,
            subtitle_start,
            subtitle_end,
            r,
        ),
        r matches Ok(resp) ==> contiguous(resp.timings@, subtitle_start),
        r matches Ok(resp) ==> spans_total(resp.timings@) == subtitle_end - subtitle_start,
{
    let ghost model = token_model(tokenized.tokens@, tokenized.positions@);
    let n = tokenized.tokens.len();
    if n == 0 {
        return Err(AlignmentError::EmptyInput);
    }
    if subtitle_end <= subtitle_start {
        return Err(AlignmentError::InvalidTiming);
    }
    let total_duration: u64 = subtitle_end - subtitle_start;
    let ghost start = subtitle_start as int;

    let mut total: u64 = 0;
    let mut i: usize = 0;
    while i < n
        invariant
            n == tokenized.tokens@.len(),
            tokenized.positions@.len() == n,
            model == token_model(tokenized.tokens@, tokenized.positions@),
            total_chars(model) <= u64::MAX,
            i <= n,
            total == chars_before(model, i as int),
        decreases n - i,
    {
        proof {
            assert(model[i as int].0 == tokenized.tokens@[i as int]@);
            lemma_chars_before_grows(model, i + 1, n as int);
        }
        let c = tokenized.tokens[i].as_str().unicode_len();
        total = total + c as u64;
        i += 1;
    }
    if total == 0 {
        return Err(AlignmentError::ZeroWeight);
    }
    let ghost bound = |k: int| weighted_boundary(start, total_duration as int, model, k);

    let mut timings: Vec<WordTiming> = Vec::new();
    let mut before: u64 = 0;
    let mut current_time: u64 = subtitle_start;
    let mut i: usize = 0;
    while i < n
        invariant
            n == tokenized.tokens@.len(),
            tokenized.positions@.len() == n,
            model == token_model(tokenized.tokens@, tokenized.positions@),
            n == model.len(),
            total == total_chars(model),
            total > 0,
            subtitle_start + total_duration == subtitle_end,
            start == subtitle_start as int,
            bound == (|k: int| weighted_boundary(start, total_duration as int, model, k)),
            i <= n,
            before == chars_before(model, i as int),
            current_time == bound(i as int),
            timings@.len() == i,
            forall|k: int|
                0 <= k < i ==> {
                    &&& (#[trigger] timings@[k]).word@ == model[k].0
                    &&& timings@[k].start == bound(k)
                    &&& timings@[k].end == bound(k + 1)
                    &&& timings@[k].confidence == WEIGHTED_CONFIDENCE
                    &&& timings@[k].char_start == model[k].1
                    &&& timings@[k].char_end == model[k].2
                },
        decreases n - i,
    {
        proof {
            assert(model[i as int].0 == tokenized.tokens@[i as int]@);
            lemma_chars_before_grows(model, i + 1, n as int);
        }
        let c = tokenized.tokens[i].as_str().unicode_len();
        let next_before = before + c as u64;
        proof {
            assert(next_before == chars_before(model, i + 1));
            lemma_share_within(total_duration as int, next_before as int, total as int);
            assert((total_duration as int) * (next_before as int) <= 0xffff_ffff_ffff_ffff
                * 0xffff_ffff_ffff_ffff) by (nonlinear_arith)
                requires
                    total_duration <= 0xffff_ffff_ffff_ffffu64,
                    next_before <= 0xffff_ffff_ffff_ffffu64,
            ;
        }
        let share = ((total_duration as u128) * (next_before as u128) / (total as u128)) as u64;
        let next_time = subtitle_start + share;
        assert(share == (total_duration as int) * (next_before as int) / (total as int));
        assert(next_time == bound(i + 1));
        let word = tokenized.tokens[i].clone();
        let position = tokenized.positions[i];
        timings.push(
            WordTiming {
                word,
                start: current_time,
                end: next_time,
                confidence: WEIGHTED_CONFIDENCE,
                char_start: position.start,
                char_end: position.end,
            },
        );
        before = next_before;
        current_time = next_time;
        i += 1;
    }
    proof {
        assert(bound(0) == start);
        lemma_div_by_multiple(total_duration as int, total as int);
        assert(bound(n as int) == subtitle_end);
        lemma_follow_fills(
            timings@,
            model,
            bound,
            WEIGHTED_CONFIDENCE,
            subtitle_start,
            total_duration as int,
        );
    }
    Ok(
        AlignmentResponse {
            text: tokenized.text.clone(),
            language: tokenized.language.clone(),
            duration: total_duration,
            timings,
            method: AlignmentMethod::Weighted,
        },
    )
}

/// Gives every token an equal share of the interval
/// `[subtitle_start, subtitle_end)`. Word `k` of `n` starts at
/// `subtitle_start + duration * k / n`, so shares differ by at most one
/// microsecond and the words fill the interval exactly.
pub fn align_tokens_linear(
    tokenized: &TokenizeResponse,
    subtitle_start: u64,
    subtitle_end: u64,
) -> (r: Result<AlignmentResponse, AlignmentError>)
    requires
        tokenized.tokens@.len() == tokenized.positions@.len(),
    ensures
        linear_tokens_result(
            token_model(tokenized.tokens@, tokenized.positions@),
            tokenized.text@,
            tokenized.language@,
            subtitle_start,
            subtitle_end,
            r,
        ),
        r matches Ok(resp) ==> contiguous(resp.timings@, subtitle_start),
        r matches Ok(resp) ==> spans_total(resp.timings@) == subtitle_end - subtitle_start,
{
    let ghost model = token_model(tokenized.tokens@, tokenized.positions@);
    let n = tokenized.tokens.len();
    if n == 0 {
        return Err(AlignmentError::EmptyInput);
    }
    if subtitle_end <= subtitle_start {
        return Err(AlignmentError::InvalidTiming);
    }
    let total_duration: u64 = subtitle_end - subtitle_start;
    let ghost start = subtitle_start as int;
    let ghost bound = |k: int| linear_boundary(start, total_duration as int, n as int, k);

    let mut timings: Vec<WordTiming> = Vec::new();
    let mut current_time: u64 = subtitle_start;
    let mut i: usize = 0;
    while i < n
        invariant
            n == tokenized.tokens@.len(),
            tokenized.positions@.len() == n,
            model == token_model(tokenized.tokens@, tokenized.positions@),
            n == model.len(),
            subtitle_start + total_duration == subtitle_end,
            start == subtitle_start as int,
            bound == (|k: int| linear_boundary(start, total_duration as int, n as int, k)),
            i <= n,
            current_time == bound(i as int),
            timings@.len() == i,
            forall|k: int|
                0 <= k < i ==> {
                    &&& (#[trigger] timings@[k]).word@ == model[k].0
                    &&& timings@[k].start == bound(k)
                    &&& timings@[k].end == bound(k + 1)
                    &&& timings@[k].confidence == LINEAR_CONFIDENCE
                    &&& timings@[k].char_start == model[k].1
                    &&& timings@[k].char_end == model[k].2
                },
        decreases n - i,
    {
        proof {
            assert(model[i as int].0 == tokenized.tokens@[i as int]@);
            lemma_share_within(total_duration as int, i + 1, n as int);
            assert((total_duration as int) * (i + 1) <= 0xffff_ffff_ffff_ffff
                * 0xffff_ffff_ffff_ffff) by (nonlinear_arith)
                requires
                    total_duration <= 0xffff_ffff_ffff_ffffu64,
                    i + 1 <= 0xffff_ffff_ffff_ffffu64,
            ;
        }
        let share = ((total_duration as u128) * ((i + 1) as u128) / (n as u128)) as u64;
        let next_time = subtitle_start + share;
        assert(share == (total_duration as int) * (i + 1) / (n as int));
        let word = tokenized.tokens[i].clone();
        let position = tokenized.positions[i];
        timings.push(
            WordTiming {
                word,
                start: current_time,
                end: next_time,
                confidence: LINEAR_CONFIDENCE,
                char_start: position.start,
                char_end: position.end,
            },
        );
        current_time = next_time;
        i += 1;
    }
    proof {
        assert(bound(0) == start);
        lemma_div_by_multiple(total_duration as int, n as int);
        assert(bound(n as int) == subtitle_end);
        lemma_follow_fills(
            timings@,
            model,
            bound,
            LINEAR_CONFIDENCE,
            subtitle_start,
            total_duration as int,
        );
    }
    Ok(
        AlignmentResponse {
            text: tokenized.text.clone(),
            language: tokenized.language.clone(),
            duration: total_duration,
            timings,
            method: AlignmentMethod::Linear,
        },
    )
}

/// Tokenizes the request's text and shares its interval among the words by
/// their numbers of characters (see `align_tokens_weighted`). Every word has a
/// character, so `ZeroWeight` never comes.
pub fn align_weighted(req: &AlignmentRequest) -> (r: Result<AlignmentResponse, AlignmentError>)
    requires
        encode_utf8(req.text@).len() <= usize::MAX,
    ensures
        weighted_result(*req, r),
        r != Err::<AlignmentResponse, AlignmentError>(AlignmentError::ZeroWeight),
        r matches Ok(resp) ==> contiguous(resp.timings@, req.subtitle_start),
        r matches Ok(resp) ==> spans_total(resp.timings@) == req.subtitle_end - req.subtitle_start,
{
    let tokenized = match tokenize_text(req.text.as_str(), req.language.as_str()) {
        Ok(t) => t,
        Err(_) => return Err(AlignmentError::EmptyInput),
    };
    proof {
        let model = tokenization(req.text@, req.language@);
        if model.len() > 0 {
            lemma_tokenization_weight(req.text@, model);
        }
    }
    align_tokens_weighted(&tokenized, req.subtitle_start, req.subtitle_end)
}

/// Tokenizes the request's text and gives each word an equal share of its
/// interval (see `align_tokens_linear`).
pub fn align_linear(req: &AlignmentRequest) -> (r: Result<AlignmentResponse, AlignmentError>)
    requires
        encode_utf8(req.text@).len() <= usize::MAX,
    ensures
        linear_result(*req, r),
        r matches Ok(resp) ==> contiguous(resp.timings@, req.subtitle_start),
        r matches Ok(resp) ==> spans_total(resp.timings@) == req.subtitle_end - req.subtitle_start,
{
    let tokenized = match tokenize_text(req.text.as_str(), req.language.as_str()) {
        Ok(t) => t,
        Err(_) => return Err(AlignmentError::EmptyInput),
    };
    align_tokens_linear(&tokenized, req.subtitle_start, req.subtitle_end)
}

/// Picks the method for a request: alignment against audio is not available,
/// so a request that names audio is refused with `NotImplemented`; any other
/// is aligned by word length.
pub fn align_smart(req: &AlignmentRequest) -> (r: Result<AlignmentResponse, AlignmentError>)
    requires
        encode_utf8(req.text@).len() <= usize::MAX,
    ensures
        req.audio_url is Some ==> r == Err::<AlignmentResponse, AlignmentError>(
            AlignmentError::NotImplemented,
        ),
        req.audio_url is None ==> weighted_result(*req, r),
{
    if req.audio_url.is_some() {
        return Err(AlignmentError::NotImplemented);
    }
    align_weighted(req)
}

/// `q(u + w)` is `q(u) + q(w)` or one more, where `q` divides by `t` rounding down.
proof fn lemma_floor_of_sum(u: int, w: int, t: int)
    requires
        0 <= u,
        0 <= w,
        0 < t,
    ensures
        u / t + w / t <= (u + w) / t <= u / t + w / t + 1,
{
    lemma_fundamental_div_mod(u, t);
    lemma_fundamental_div_mod(w, t);
    lemma_fundamental_div_mod(u + w, t);
    lemma_mod_pos_bound(u, t);
    lemma_mod_pos_bound(w, t);
    lemma_mod_pos_bound(u + w, t);
    let k = (u + w) / t - u / t - w / t;
    assert(t * k == u % t + w % t - (u + w) % t) by (nonlinear_arith)
        requires
            u == t * (u / t) + u % t,
            w == t * (w / t) + w % t,
            u + w == t * ((u + w) / t) + (u + w) % t,
            k == (u + w) / t - u / t - w / t,
    ;
    assert(0 <= k <= 1) by (nonlinear_arith)
        requires
            t * k == u % t + w % t - (u + w) % t,
            0 <= u % t < t,
            0 <= w % t < t,
            0 <= (u + w) % t < t,
            0 < t,
    ;
}

/// Under weighted alignment, a word with more characters gets no less time
/// than a word with fewer, as long as the interval holds at least as many
/// microseconds as the words hold characters. (Below that, rounding to whole
/// microseconds can give a shorter word the extra microsecond.)
pub proof fn lemma_longer_word_gets_no_less(
    text: Seq<char>,
    language: Seq<char>,
    subtitle_start: u64,
    subtitle_end: u64,
    a: int,
    b: int,
)
    requires
        subtitle_start < subtitle_end,
        0 <= a < tokenization(text, language).len(),
        0 <= b < tokenization(text, language).len(),
        tokenization(text, language)[a].0.len() > tokenization(text, language)[b].0.len(),
        subtitle_end - subtitle_start >= total_chars(tokenization(text, language)),
    ensures
        ({
            let model = tokenization(text, language);
            let d = subtitle_end - subtitle_start;
            let s = subtitle_start as int;
            weighted_boundary(s, d, model, a + 1) - weighted_boundary(s, d, model, a)
                >= weighted_boundary(s, d, model, b + 1) - weighted_boundary(s, d, model, b)
        }),
{
    let model = tokenization(text, language);
    let d = subtitle_end - subtitle_start;
    let t = total_chars(model);
    let la = model[a].0.len() as int;
    let lb = model[b].0.len() as int;
    let xa = chars_before(model, a);
    let xb = chars_before(model, b);
    lemma_chars_before_grows(model, a + 1, model.len() as int);
    lemma_chars_before_grows(model, 0, b);
    lemma_chars_before_grows(model, 0, a);
    assert(chars_before(model, a + 1) == xa + la);
    assert(chars_before(model, b + 1) == xb + lb);
    assert(t > 0);
    assert(d * (xa + la) == d * xa + d * la) by (nonlinear_arith);
    assert(d * (xb + lb) == d * xb + d * lb) by (nonlinear_arith);
    assert(0 <= d * xa && 0 <= d * xb && 0 <= d * lb) by (nonlinear_arith)
        requires
            d > 0,
            xa >= 0,
            xb >= 0,
            lb >= 0,
    ;
    assert(d * la >= d * lb + t) by (nonlinear_arith)
        requires
            la >= lb + 1,
            lb >= 0,
            d >= t,
            t > 0,
    ;
    lemma_floor_of_sum(d * xa, d * la, t);
    lemma_floor_of_sum(d * xb, d * lb, t);
    lemma_floor_of_sum(d * lb, t, t);
    lemma_div_by_multiple(1, t);
    lemma_div_is_ordered(d * lb + t, d * la, t);
}

/// Every timing that weighted alignment gives carries a higher confidence
/// than every timing that linear alignment gives.
pub proof fn lemma_weighted_more_confident_than_linear(
    req: AlignmentRequest,
    weighted: AlignmentResponse,
    linear: AlignmentResponse,
    i: int,
    j: int,
)
    requires
        weighted_result(req, Ok(weighted)),
        linear_result(req, Ok(linear)),
        0 <= i < weighted.timings@.len(),
        0 <= j < linear.timings@.len(),
    ensures
        weighted.timings@[i].confidence > linear.timings@[j].confidence,
{
    assert(weighted.timings@[i].confidence == WEIGHTED_CONFIDENCE);
    assert(linear.timings@[j].confidence == LINEAR_CONFIDENCE);
}

} // verus!
