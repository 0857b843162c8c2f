use crate::models::{TokenPosition, TokenizeRequest, TokenizeResponse};
use unicode_segmentation::UnicodeSegmentation;
use vstd::prelude::*;
use vstd::utf8::*;

verus! {

broadcast use {vstd::utf8::encode_utf8_decode_utf8, vstd::utf8::encode_utf8_valid_utf8};

/// Words of the standard path: runs of letters and combining marks, in which
/// a single apostrophe or hyphen may join two such runs.
const WORD_PATTERN: &'static str = r"[\p{L}\p{M}]+(?:['\-][\p{L}\p{M}]+)*";

/// A token of the model: its characters and its byte span `[start, end)`.
pub type TokenSpec = (Seq<char>, int, int);

/// What `str::to_lowercase` makes of a string.
pub uninterp spec fn lowercase_of(s: Seq<char>) -> Seq<char>;

/// What `char::is_whitespace` says of a character.
pub uninterp spec fn is_white_space(c: char) -> bool;

/// The extended grapheme clusters of a text, in order.
pub uninterp spec fn grapheme_clusters_of(text: Seq<char>) -> Seq<Seq<char>>;

/// The byte spans of the matches of the word pattern in a text, in order.
pub uninterp spec fn word_match_spans(text: Seq<char>) -> Seq<(usize, usize)>;

/// Relies on `str::to_lowercase`: its result depends on the characters alone.
#[verifier::external_body]
fn lowercase(s: &str) -> (r: String)
    ensures
        r@ == lowercase_of(s@),
{
    s.to_lowercase()
}

/// Relies on `char::is_whitespace`, the Unicode White_Space property, which is
/// also what `str::trim` strips.
#[verifier::external_body]
fn char_is_whitespace(c: char) -> (r: bool)
    ensures
        r == is_white_space(c),
{
    c.is_whitespace()
}

/// The characters of each string.
pub open spec fn string_views(v: Seq<String>) -> Seq<Seq<char>> {
    v.map_values(|s: String| s@)
}

/// Relies on `UnicodeSegmentation::graphemes(text, true)`: the extended
/// grapheme clusters, none of them empty, which joined in order give back the
/// text.
#[verifier::external_body]
fn grapheme_clusters(text: &str) -> (r: Vec<String>)
    ensures
        string_views(r@) == grapheme_clusters_of(text@),
        string_views(r@).flatten() == text@,
        forall|i: int| 0 <= i < r@.len() ==> (#[trigger] r@[i])@.len() > 0,
{
    text.graphemes(true).map(|g| g.to_string()).collect()
}

/// Relies on `regex::Regex::find_iter` for the word pattern: successive
/// non-overlapping matches, each with its start and end byte offsets and its
/// text, which is the haystack between them. The pattern matches no empty
/// string, so no match is empty.
#[verifier::external_body]
fn word_matches(text: &str) -> (r: Vec<(String, usize, usize)>)
    ensures
        r@.len() == word_match_spans(text@).len(),
        forall|i: int|
            0 <= i < r@.len() ==> ((#[trigger] r@[i]).1, r@[i].2) == word_match_spans(text@)[i],
        forall|i: int|
            0 <= i < r@.len() ==> (#[trigger] r@[i]).1 < r@[i].2 <= encode_utf8(text@).len()
                && encode_utf8(r@[i].0@) == encode_utf8(text@).subrange(
                r@[i].1 as int,
                r@[i].2 as int,
            ),
        forall|i: int| 0 <= i < r@.len() - 1 ==> (#[trigger] r@[i]).2 <= r@[i + 1].1,
{
    let pattern = regex::Regex::new(WORD_PATTERN).unwrap();
    pattern.find_iter(text).map(|m| (m.as_str().to_string(), m.start(), m.end())).collect()
}

/// The language tags (lower case) whose texts are cut into grapheme clusters.
pub open spec fn is_cjk_tag(tag: Seq<char>) -> bool {
    ||| tag == "chinese"@
    ||| tag == "zh"@
    ||| tag == "zh-hans"@
    ||| tag == "zh-hant"@
    ||| tag == "japanese"@
    ||| tag == "ja"@
    ||| tag == "korean"@
    ||| tag == "ko"@
}

/// A cluster made of white space alone.
pub open spec fn is_blank(g: Seq<char>) -> bool {
    forall|i: int| 0 <= i < g.len() ==> is_white_space(#[trigger] g[i])
}

/// One token per cluster that is not blank, with its byte span, counting
/// bytes from `offset` on; blank clusters advance the offset all the same.
pub open spec fn cjk_tokens(clusters: Seq<Seq<char>>, offset: int) -> Seq<TokenSpec>
    decreases clusters.len(),
{
    if clusters.len() == 0 {
        seq![]
    } else {
        let g = clusters[0];
        let next = offset + encode_utf8(g).len();
        let rest = cjk_tokens(clusters.drop_first(), next);
        if is_blank(g) {
            rest
        } else {
            seq![(g, offset, next)] + rest
        }
    }
}

/// One token per match of the word pattern: the text between its offsets.
pub open spec fn standard_tokens(text: Seq<char>) -> Seq<TokenSpec> {
    word_match_spans(text).map_values(
        |p: (usize, usize)|
            (
                decode_utf8(encode_utf8(text).subrange(p.0 as int, p.1 as int)),
                p.0 as int,
                p.1 as int,
            ),
    )
}

/// The tokens of `text` in `language`.
pub open spec fn tokenization(text: Seq<char>, language: Seq<char>) -> Seq<TokenSpec> {
    if is_cjk_tag(lowercase_of(language)) {
        cjk_tokens(grapheme_clusters_of(text), 0)
    } else {
        standard_tokens(text)
    }
}

/// Tokens and positions read together as model tokens.
pub open spec fn token_model(tokens: Seq<String>, positions: Seq<TokenPosition>) -> Seq<TokenSpec> {
    Seq::new(
        tokens.len(),
        |k: int| (tokens[k]@, positions[k].start as int, positions[k].end as int),
    )
}

/// Each token is non-empty and is exactly the bytes of `text` between its
/// offsets; tokens come left to right without overlap.
pub open spec fn well_placed(text: Seq<char>, model: Seq<TokenSpec>) -> bool {
    &&& forall|i: int|
        0 <= i < model.len() ==> 0 <= (#[trigger] model[i]).1 < model[i].2 <= encode_utf8(
            text,
        ).len() && encode_utf8(model[i].0) == encode_utf8(text).subrange(model[i].1, model[i].2)
    &&& forall|i: int| 0 <= i < model.len() - 1 ==> (#[trigger] model[i]).2 <= model[i + 1].1
}

/// A text's UTF-8 bytes are at least as many as its characters.
pub proof fn lemma_encoded_len_at_least(s: Seq<char>)
    ensures
        encode_utf8(s).len() >= s.len(),
    decreases s.len(),
{
    if s.len() > 0 {
        lemma_encoded_len_at_least(s.drop_first());
    }
}

/// Encoding distributes over concatenation.
pub proof fn lemma_encode_concat(a: Seq<char>, b: Seq<char>)
    ensures
        encode_utf8(a + b) == encode_utf8(a) + encode_utf8(b),
    decreases a.len(),
{
    if a.len() == 0 {
        assert(a + b =~= b);
        assert(encode_utf8(a) + encode_utf8(b) =~= encode_utf8(b));
    } else {
        assert((a + b).drop_first() =~= a.drop_first() + b);
        lemma_encode_concat(a.drop_first(), b);
        assert(encode_utf8(a + b) =~= encode_utf8(a) + encode_utf8(b));
    }
}

/// The cluster tokens of `clusters`, counted from `offset`, lie in order
/// within the bytes that the clusters take up from `offset` on, each equal to
/// the bytes between its offsets.
proof fn lemma_cjk_placed(clusters: Seq<Seq<char>>, offset: int, bytes: Seq<u8>)
    requires
        0 <= offset,
        forall|i: int| 0 <= i < clusters.len() ==> (#[trigger] clusters[i]).len() > 0,
        offset + encode_utf8(clusters.flatten()).len() <= bytes.len(),
        bytes.subrange(offset, offset + encode_utf8(clusters.flatten()).len()) == encode_utf8(
            clusters.flatten(),
        ),
    ensures
        ({
            let m = cjk_tokens(clusters, offset);
            &&& forall|i: int|
                0 <= i < m.len() ==> offset <= (#[trigger] m[i]).1 < m[i].2 <= offset
                    + encode_utf8(clusters.flatten()).len() && encode_utf8(m[i].0)
                    == bytes.subrange(m[i].1, m[i].2)
            &&& forall|i: int| 0 <= i < m.len() - 1 ==> (#[trigger] m[i]).2 <= m[i + 1].1
        }),
    decreases clusters.len(),
{
    if clusters.len() > 0 {
        let g = clusters[0];
        let rest = clusters.drop_first();
        let eg = encode_utf8(g);
        let er = encode_utf8(rest.flatten());
        let next = offset + eg.len();
        lemma_encode_concat(g, rest.flatten());
        lemma_encoded_len_at_least(g);
        assert(clusters.flatten() == g + rest.flatten());
        assert(forall|i: int| 0 <= i < rest.len() ==> rest[i] == clusters[i + 1]);
        assert(bytes.subrange(next, next + er.len()) =~= er) by {
            assert forall|k: int| 0 <= k < er.len() implies bytes.subrange(next, next + er.len())[k]
                == er[k] by {
                assert(bytes.subrange(offset, offset + eg.len() + er.len())[eg.len() + k] == (eg
                    + er)[eg.len() + k]);
            }
        }
        assert(bytes.subrange(offset, next) =~= eg) by {
            assert forall|k: int| 0 <= k < eg.len() implies bytes.subrange(offset, next)[k]
                == eg[k] by {
                assert(bytes.subrange(offset, offset + eg.len() + er.len())[k] == (eg + er)[k]);
            }
        }
        lemma_cjk_placed(rest, next, bytes);
        let r = cjk_tokens(rest, next);
        let m = cjk_tokens(clusters, offset);
        if !is_blank(g) {
            assert(m == seq![(g, offset, next)] + r);
            assert forall|i: int| 0 < i < m.len() implies #[trigger] m[i] == r[i - 1] by {}
            assert forall|i: int| 0 <= i < m.len() - 1 implies (#[trigger] m[i]).2 <= m[i + 1].1 by {
                if i > 0 {
                    assert(m[i] == r[i - 1]);
                    assert(m[i + 1] == r[i]);
                }
            }
        }
    }
}

/// `lang` names one of the languages whose texts are cut into clusters.
fn is_cjk_language(lang: &str) -> (r: bool)
    ensures
        r == is_cjk_tag(lang@),
{
    let tag = String::from_str(lang);
    tag.eq(&String::from_str("chinese")) || tag.eq(&String::from_str("zh")) || tag.eq(
        &String::from_str("zh-hans"),
    ) || tag.eq(&String::from_str("zh-hant")) || tag.eq(&String::from_str("japanese"))
        || tag.eq(&String::from_str("ja")) || tag.eq(&String::from_str("korean")) || tag.eq(
        &String::from_str("ko"),
    )
}

/// The cluster holds white space alone.
fn is_blank_cluster(g: &str) -> (r: bool)
    ensures
        r == is_blank(g@),
{
    let n = g.unicode_len();
    let mut i: usize = 0;
    while i < n
        invariant
            n == g@.len(),
            i <= n,
            forall|k: int| 0 <= k < i ==> is_white_space(#[trigger] g@[k]),
        decreases n - i,
    {
        if !char_is_whitespace(g.get_char(i)) {
            return false;
        }
        i += 1;
    }
    true
}

/// Cuts a text given as its grapheme clusters: one token per cluster that is
/// not white space alone, with its byte span in the joined clusters. Blank
/// clusters give no token but still count towards later offsets.
pub fn tokenize_clusters(clusters: &Vec<String>) -> (r: (Vec<String>, Vec<TokenPosition>))
    requires
        encode_utf8(string_views(clusters@).flatten()).len() <= usize::MAX,
    ensures
        r.0@.len() == r.1@.len(),
        token_model(r.0@, r.1@) == cjk_tokens(string_views(clusters@), 0),
        string_views(r.0@) == string_views(clusters@).filter(|g: Seq<char>| !is_blank(g)),
{
    let ghost cs = string_views(clusters@);
    let mut tokens: Vec<String> = Vec::new();
    let mut positions: Vec<TokenPosition> = Vec::new();
    let mut current_pos: usize = 0;
    let mut i: usize = 0;
    proof {
        assert(cs.skip(0) =~= cs);
        assert(token_model(tokens@, positions@) =~= seq![]);
        assert(seq![] + cjk_tokens(cs, 0) =~= cjk_tokens(cs, 0));
    }
    while i < clusters.len()
        invariant
            i <= clusters.len(),
            cs == string_views(clusters@),
            encode_utf8(cs.flatten()).len() <= usize::MAX,
            tokens@.len() == positions@.len(),
            current_pos + encode_utf8(cs.skip(i as int).flatten()).len() == encode_utf8(
                cs.flatten(),
            ).len(),
            token_model(tokens@, positions@) + cjk_tokens(cs.skip(i as int), current_pos as int)
                == cjk_tokens(cs, 0),
        decreases clusters.len() - i,
    {
        let g = &clusters[i];
        let ghost rest = cs.skip(i + 1);
        proof {
            assert(cs.skip(i as int).drop_first() =~= rest);
            assert(cs.skip(i as int)[0] == g@);
            lemma_encode_concat(g@, rest.flatten());
        }
        let width = g.as_str().len();
        let next = current_pos + width;
        if !is_blank_cluster(g.as_str()) {
            let ghost before = token_model(tokens@, positions@);
            tokens.push(g.clone());
            positions.push(TokenPosition { start: current_pos, end: next });
            assert(token_model(tokens@, positions@) =~= before + seq![
                (g@, current_pos as int, next as int),
            ]);
            assert(token_model(tokens@, positions@) + cjk_tokens(rest, next as int) =~= before + (
            seq![(g@, current_pos as int, next as int)] + cjk_tokens(rest, next as int)));
        }
        current_pos = next;
        i += 1;
    }
    proof {
        assert(cs.skip(i as int) =~= seq![]);
        assert(token_model(tokens@, positions@) + seq![] =~= token_model(tokens@, positions@));
        lemma_cluster_tokens_are_nonblank_clusters(cs, 0);
        assert(string_views(tokens@) =~= token_model(tokens@, positions@).map_values(
            |t: TokenSpec| t.0,
        ));
    }
    (tokens, positions)
}

/// One token per cluster that is not white space alone, with byte offsets.
fn tokenize_cjk(text: &str) -> (r: (Vec<String>, Vec<TokenPosition>))
    requires
        encode_utf8(text@).len() <= usize::MAX,
    ensures
        r.0@.len() == r.1@.len(),
        token_model(r.0@, r.1@) == cjk_tokens(grapheme_clusters_of(text@), 0),
        well_placed(text@, cjk_tokens(grapheme_clusters_of(text@), 0)),
{
    let clusters = grapheme_clusters(text);
    proof {
        let b = encode_utf8(text@);
        assert(b.subrange(0, b.len() as int) =~= b);
        lemma_cjk_placed(string_views(clusters@), 0, b);
    }
    tokenize_clusters(&clusters)
}

/// One token per match of the word pattern, with byte offsets.
fn tokenize_standard(text: &str) -> (r: (Vec<String>, Vec<TokenPosition>))
    ensures
        r.0@.len() == r.1@.len(),
        token_model(r.0@, r.1@) == standard_tokens(text@),
        well_placed(text@, standard_tokens(text@)),
{
    let matches = word_matches(text);
    let ghost spans = word_match_spans(text@);
    let mut tokens: Vec<String> = Vec::new();
    let mut positions: Vec<TokenPosition> = Vec::new();
    let mut i: usize = 0;
    while i < matches.len()
        invariant
            i <= matches.len(),
            spans == word_match_spans(text@),
            matches@.len() == spans.len(),
            forall|k: int| 0 <= k < matches@.len() ==> ((#[trigger] matches@[k]).1, matches@[k].2) == spans[k],
            forall|k: int|
                0 <= k < matches@.len() ==> (#[trigger] matches@[k]).1 < matches@[k].2 <= encode_utf8(text@).len()
                    && encode_utf8(matches@[k].0@) == encode_utf8(text@).subrange(
                    matches@[k].1 as int,
                    matches@[k].2 as int,
                ),
            forall|k: int| 0 <= k < matches@.len() - 1 ==> (#[trigger] matches@[k]).2 <= matches@[k + 1].1,
            tokens@.len() == i,
            positions@.len() == i,
            forall|k: int| 0 <= k < i ==> (#[trigger] token_model(tokens@, positions@)[k]) == standard_tokens(text@)[k],
        decreases matches.len() - i,
    {
        let m = &matches[i];
        let ghost before = token_model(tokens@, positions@);
        tokens.push(m.0.clone());
        positions.push(TokenPosition { start: m.1, end: m.2 });
        proof {
            assert forall|k: int| 0 <= k < i + 1 implies (#[trigger] token_model(tokens@, positions@)[k]) == standard_tokens(text@)[k] by {
                if k < i {
                    assert(token_model(tokens@, positions@)[k] == before[k]);
                }
            }
        }
        i += 1;
    }
    assert(token_model(tokens@, positions@) =~= standard_tokens(text@));
    proof {
        let m = standard_tokens(text@);
        assert forall|k: int| 0 <= k < m.len() implies 0 <= (#[trigger] m[k]).1 < m[k].2
            <= encode_utf8(text@).len() && encode_utf8(m[k].0) == encode_utf8(text@).subrange(
            m[k].1,
            m[k].2,
        ) by {
            assert((matches@[k].1, matches@[k].2) == spans[k]);
            assert(decode_utf8(encode_utf8(matches@[k].0@)) == matches@[k].0@);
        }
        assert forall|k: int| 0 <= k < m.len() - 1 implies (#[trigger] m[k]).2 <= m[k + 1].1 by {
            assert(matches@[k].2 <= matches@[k + 1].1);
        }
    }
    (tokens, positions)
}

/// Cuts `text` into the words of `language`, each with its byte span in the
/// text. Languages are told apart by their tag, in any case.
pub fn tokenize_text(text: &str, language: &str) -> (r: Result<TokenizeResponse, String>)
    requires
        encode_utf8(text@).len() <= usize::MAX,
    ensures
        match r {
            Ok(resp) => {
                &&& resp.text@ == text@
                &&& resp.language@ == language@
                &&& resp.tokens@.len() == resp.positions@.len()
                &&& token_model(resp.tokens@, resp.positions@) == tokenization(text@, language@)
                &&& well_placed(text@, tokenization(text@, language@))
            },
            Err(_) => false,
        },
{
    let language_lower = lowercase(language);
    let (tokens, positions) = if is_cjk_language(language_lower.as_str()) {
        tokenize_cjk(text)
    } else {
        tokenize_standard(text)
    };
    Ok(
        TokenizeResponse {
            text: String::from_str(text),
            language: String::from_str(language),
            tokens,
            positions,
        },
    )
}

/// On the cluster path, the tokens are the clusters that are not white space
/// alone, each once and in order; blank clusters give no token.
pub proof fn lemma_cluster_tokens_are_nonblank_clusters(clusters: Seq<Seq<char>>, offset: int)
    ensures
        cjk_tokens(clusters, offset).map_values(|t: TokenSpec| t.0) == clusters.filter(
            |g: Seq<char>| !is_blank(g),
        ),
    decreases clusters.len(),
{
    let p = |g: Seq<char>| !is_blank(g);
    clusters.lemma_filter_eq_filter_alt(p);
    if clusters.len() > 0 {
        let g = clusters[0];
        let next = offset + encode_utf8(g).len();
        lemma_cluster_tokens_are_nonblank_clusters(clusters.drop_first(), next);
        let rest = cjk_tokens(clusters.drop_first(), next);
        if !is_blank(g) {
            assert((seq![(g, offset, next)] + rest).map_values(|t: TokenSpec| t.0) =~= seq![g]
                + rest.map_values(|t: TokenSpec| t.0));
        }
    } else {
        assert(cjk_tokens(clusters, offset).map_values(|t: TokenSpec| t.0) =~= seq![]);
    }
}

/// Tokenizes each request in turn. Tokenizing never fails, so no request is
/// dropped: response `i` is the tokenization of request `i`.
pub fn batch_tokenize(requests: &Vec<TokenizeRequest>) -> (r: Vec<TokenizeResponse>)
    requires
        forall|i: int|
            0 <= i < requests@.len() ==> encode_utf8((#[trigger] requests@[i]).text@).len()
                <= usize::MAX,
    ensures
        r@.len() == requests@.len(),
        forall|i: int|
            0 <= i < r@.len() ==> {
                &&& (#[trigger] r@[i]).text@ == requests@[i].text@
                &&& r@[i].language@ == requests@[i].language@
                &&& r@[i].tokens@.len() == r@[i].positions@.len()
                &&& token_model(r@[i].tokens@, r@[i].positions@) == tokenization(
                    requests@[i].text@,
                    requests@[i].language@,
                )
            },
{
    let mut responses: Vec<TokenizeResponse> = Vec::new();
    let mut i: usize = 0;
    while i < requests.len()
        invariant
            i <= requests@.len(),
            forall|k: int|
                0 <= k < requests@.len() ==> encode_utf8((#[trigger] requests@[k]).text@).len()
                    <= usize::MAX,
            responses@.len() == i,
            forall|k: int|
                0 <= k < i ==> {
                    &&& (#[trigger] responses@[k]).text@ == requests@[k].text@
                    &&& responses@[k].language@ == requests@[k].language@
                    &&& responses@[k].tokens@.len() == responses@[k].positions@.len()
                    &&& token_model(responses@[k].tokens@, responses@[k].positions@)
                        == tokenization(requests@[k].text@, requests@[k].language@)
                },
        decreases requests@.len() - i,
    {
        let item = &requests[i];
        match tokenize_text(item.text.as_str(), item.language.as_str()) {
            Ok(response) => responses.push(response),
            Err(_) => {},
        }
        i += 1;
    }
    responses
}

} // verus!
