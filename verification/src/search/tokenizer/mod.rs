//! The tokenizers of the index: their tokens are computed here, and handed
//! to the search engine by its tokenizer interface.

pub mod code;
pub mod filename;
pub mod jieba;

use vstd::prelude::*;
use crate::text::owned;

verus! {

/// A token: the byte range of the text that it comes from, its position
/// among the tokens, its text and how many positions it spans.
#[derive(Debug, Clone, PartialEq, Eq)]
pub struct TokenPiece {
    pub offset_from: usize,
    pub offset_to: usize,
    pub position: usize,
    pub text: String,
    pub position_length: usize,
}

/// A token as plain values.
pub struct TokenView {
    pub offset_from: nat,
    pub offset_to: nat,
    pub position: nat,
    pub text: Seq<char>,
    pub position_length: nat,
}

/// The views of tokens.
pub open spec fn pieces_view(ts: Seq<TokenPiece>) -> Seq<TokenView> {
    ts.map_values(|t: TokenPiece| TokenView {
        offset_from: t.offset_from as nat,
        offset_to: t.offset_to as nat,
        position: t.position as nat,
        text: t.text@,
        position_length: t.position_length as nat,
    })
}

/// The number of bytes of the UTF-8 encoding of `s`, as `str::len` gives
/// it.
pub open spec fn byte_len(s: Seq<char>) -> nat {
    (vstd::utf8::encode_utf8(s).len() as usize) as nat
}

/// The tokens of the words `ws` when every token is given the range from
/// the start to the length of its word, and the next position.
pub open spec fn word_pieces(ws: Seq<Seq<char>>) -> Seq<TokenView> {
    Seq::new(ws.len(), |k: int| TokenView {
        offset_from: 0,
        offset_to: byte_len(ws[k]),
        position: k as nat,
        text: ws[k],
        position_length: 1,
    })
}

/// Turns words into tokens as `word_pieces` does.
pub fn pieces_of_words(words: Vec<String>) -> (res: Vec<TokenPiece>)
    ensures
        pieces_view(res@) == word_pieces(words@.map_values(|w: String| w@)),
{
    let ghost ws = words@.map_values(|w: String| w@);
    let mut out: Vec<TokenPiece> = Vec::new();
    let mut i: usize = 0;
    while i < words.len()
        invariant
            0 <= i <= words@.len(),
            ws == words@.map_values(|w: String| w@),
            out@.len() == i,
            forall|k: int| 0 <= k < i ==> #[trigger] pieces_view(out@)[k] == word_pieces(ws)[k],
        decreases words@.len() - i,
    {
        let w = words[i].clone();
        let n = w.as_str().len();
        let ghost before = out@;
        out.push(TokenPiece { offset_from: 0, offset_to: n, position: i, text: w, position_length: 1 });
        assert forall|k: int| 0 <= k < i + 1 implies #[trigger] pieces_view(out@)[k] == word_pieces(ws)[k] by {
            if k < i {
                assert(out@[k] == before[k]);
                assert(pieces_view(before)[k] == word_pieces(ws)[k]);
            }
        }
        i = i + 1;
    }
    assert(pieces_view(out@) =~= word_pieces(ws));
    out
}

/// The English stop words that the default analyzer removes.
pub open spec fn stop_word_list() -> Seq<Seq<char>> {
    seq![
        "a"@, "an"@, "and"@, "are"@, "as"@, "at"@, "be"@, "but"@, "by"@, "for"@, "if"@, "in"@,
        "into"@, "is"@, "it"@, "no"@, "not"@, "of"@, "on"@, "or"@, "such"@, "that"@, "the"@,
        "their"@, "then"@, "there"@, "these"@, "they"@, "this"@, "to"@, "was"@, "will"@, "with"@,
    ]
}

/// The English stop words that the default analyzer removes.
pub fn english_stop_words() -> (res: Vec<String>)
    ensures
        res@.map_values(|w: String| w@) == stop_word_list(),
{
    let words: [&str; 33] = [
        "a", "an", "and", "are", "as", "at", "be", "but", "by", "for", "if", "in", "into", "is",
        "it", "no", "not", "of", "on", "or", "such", "that", "the", "their", "then", "there",
        "these", "they", "this", "to", "was", "will", "with",
    ];
    let mut out: Vec<String> = Vec::new();
    let mut i: usize = 0;
    while i < 33
        invariant
            0 <= i <= 33,
            words@.map_values(|w: &str| w@) == stop_word_list(),
            out@.map_values(|w: String| w@) == words@.map_values(|w: &str| w@).take(i as int),
        decreases 33 - i,
    {
        let ghost before = out@.map_values(|w: String| w@);
        let w = owned(words[i]);
        assert(w@ == words@.map_values(|w: &str| w@)[i as int]);
        out.push(w);
        assert(out@.map_values(|w: String| w@) =~= before.push(w@));
        assert(words@.map_values(|w: &str| w@).take(i + 1) =~= words@.map_values(|w: &str| w@).take(i as int).push(w@));
        i = i + 1;
        assert(out@.map_values(|w: String| w@) =~= words@.map_values(|w: &str| w@).take(i as int));
    }
    assert(words@.map_values(|w: &str| w@).take(33) =~= words@.map_values(|w: &str| w@));
    out
}

} // verus!
