//! The Chinese tokenizer, on the jieba segmenter: the text is cut into
//! words, and every word that is not all whitespace becomes a token with its
//! byte range in the text.

use vstd::prelude::*;
use std::sync::Arc;
use jieba_rs::Jieba;
use crate::search::tokenizer::{TokenPiece, TokenView, pieces_view};
use crate::text::{chars_of, is_whitespace, whitespace_char};

verus! {

#[verifier::external_type_specification]
#[verifier::external_body]
pub struct ExJieba(Jieba);

/// The characters of the words `ws`, one after another.
pub open spec fn concat_all(ws: Seq<Seq<char>>) -> Seq<char>
    decreases ws.len(),
{
    if ws.len() == 0 {
        Seq::empty()
    } else {
        ws[0] + concat_all(ws.skip(1))
    }
}

/// Name for what `Jieba::cut` (with the HMM for unknown words) gives on a
/// text with the characters `text`, with the default dictionary.
pub uninterp spec fn jieba_words(text: Seq<char>) -> Seq<Seq<char>>;

/// `Jieba::new`: the segmenter with its default dictionary.
#[verifier::external_body]
fn default_segmenter() -> Jieba {
    Jieba::new()
}

/// `Jieba::cut` with the HMM on, by the segmenter of `tokenizer`, each word
/// copied into a string. That segmenter is always the one with the default
/// dictionary: `JiebaTokenizer::new` alone makes a tokenizer, and its field
/// is private. So the words are what `jieba_words` names for the text.
/// They are slices of the text that follow one another and cover it: the
/// source cuts the text into the blocks that its patterns match and the
/// blocks between them, and cuts each block along a route through its
/// characters, so that the words put together give the text back. That is
/// stated; which words come out is only named.
#[verifier::external_body]
fn cut_words(tokenizer: &JiebaTokenizer, text: &str) -> (res: Vec<String>)
    ensures
        res@.map_values(|w: String| w@) == jieba_words(text@),
        concat_all(res@.map_values(|w: String| w@)) == text@,
{
    tokenizer.jieba.cut(text, true).into_iter().map(|w| w.to_string()).collect()
}

/// The number of bytes of the UTF-8 encoding of `s`.
pub open spec fn utf8_size(s: Seq<char>) -> nat {
    vstd::utf8::encode_utf8(s).len()
}

/// Whether every character of `w` is whitespace (so that `w.trim()` is
/// empty).
pub open spec fn all_whitespace(w: Seq<char>) -> bool {
    forall|i: int| 0 <= i < w.len() ==> whitespace_char(#[trigger] w[i])
}

/// The tokens of the words `ws`, the first of which starts at byte `offset`
/// of the text, and the first token of which takes position `position`:
/// words that are all whitespace are skipped, the others become tokens with
/// their byte ranges.
pub open spec fn word_tokens(ws: Seq<Seq<char>>, offset: nat, position: nat) -> Seq<TokenView>
    decreases ws.len(),
{
    if ws.len() == 0 {
        Seq::empty()
    } else {
        let w = ws[0];
        let end = offset + utf8_size(w);
        if all_whitespace(w) {
            word_tokens(ws.skip(1), end, position)
        } else {
            seq![TokenView { offset_from: offset, offset_to: end, position, text: w, position_length: 1 }]
                + word_tokens(ws.skip(1), end, position + 1)
        }
    }
}

proof fn lemma_encode_concat(a: Seq<char>, b: Seq<char>)
    ensures
        vstd::utf8::encode_utf8(a + b) == vstd::utf8::encode_utf8(a) + vstd::utf8::encode_utf8(b),
    decreases a.len(),
{
    if a.len() > 0 {
        lemma_encode_concat(a.drop_first(), b);
        assert((a + b).drop_first() =~= a.drop_first() + b);
        assert((a + b)[0] == a[0]);
        assert(vstd::utf8::encode_scalar(a[0] as u32) + (vstd::utf8::encode_utf8(a.drop_first()) + vstd::utf8::encode_utf8(b))
            =~= (vstd::utf8::encode_scalar(a[0] as u32) + vstd::utf8::encode_utf8(a.drop_first())) + vstd::utf8::encode_utf8(b));
    } else {
        assert(a + b =~= b);
        assert(vstd::utf8::encode_utf8(a) =~= Seq::<u8>::empty());
        assert(Seq::<u8>::empty() + vstd::utf8::encode_utf8(b) =~= vstd::utf8::encode_utf8(b));
    }
}

/// Whether every character of `w` is whitespace, computed.
fn is_blank(w: &str) -> (res: bool)
    ensures
        res == all_whitespace(w@),
{
    let cs = chars_of(w);
    let mut i: usize = 0;
    while i < cs.len()
        invariant
            0 <= i <= cs@.len(),
            cs@ == w@,
            forall|j: int| 0 <= j < i ==> whitespace_char(#[trigger] cs@[j]),
        decreases cs@.len() - i,
    {
        if !is_whitespace(cs[i]) {
            return false;
        }
        i = i + 1;
    }
    true
}

/// The tokens of `text` cut into the words `words`, which put together give
/// the text: every word that is not all whitespace, with its byte range.
pub fn tokens_of_words(text: &str, words: &Vec<String>) -> (res: Vec<TokenPiece>)
    requires
        concat_all(words@.map_values(|w: String| w@)) == text@,
    ensures
        pieces_view(res@) == word_tokens(words@.map_values(|w: String| w@), 0, 0),
        forall|k: int| 0 <= k < res@.len() ==> (#[trigger] res@[k]).offset_from <= res@[k].offset_to
            && vstd::utf8::encode_utf8(text@).subrange(res@[k].offset_from as int, res@[k].offset_to as int)
                == vstd::utf8::encode_utf8(res@[k].text@),
{
    let ghost ws = words@.map_values(|w: String| w@);
    let total = text.as_bytes().len();
    let mut tokens: Vec<TokenPiece> = Vec::new();
    let mut offset: usize = 0;
    let mut position: usize = 0;
    let mut i: usize = 0;
    assert(ws.skip(0) =~= ws);
    assert(pieces_view(tokens@) + word_tokens(ws.skip(0), 0, 0) =~= word_tokens(ws, 0, 0));
    while i < words.len()
        invariant
            0 <= i <= words@.len(),
            ws == words@.map_values(|w: String| w@),
            position <= i,
            offset + utf8_size(concat_all(ws.skip(i as int))) == total,
            pieces_view(tokens@) + word_tokens(ws.skip(i as int), offset as nat, position as nat)
                == word_tokens(ws, 0, 0),
        decreases words@.len() - i,
    {
        let w = &words[i];
        let ghost rest = ws.skip(i as int);
        assert(rest[0] == w@);
        assert(rest.skip(1) =~= ws.skip(i + 1));
        proof {
            lemma_encode_concat(w@, concat_all(ws.skip(i + 1)));
        }
        let n = w.as_str().len();
        let end = offset + n;
        if is_blank(w.as_str()) {
            offset = end;
        } else {
            let ghost before = pieces_view(tokens@);
            tokens.push(TokenPiece {
                offset_from: offset,
                offset_to: end,
                position,
                text: w.clone(),
                position_length: 1,
            });
            assert(pieces_view(tokens@) =~= before + seq![
                TokenView {
                    offset_from: offset as nat,
                    offset_to: end as nat,
                    position: position as nat,
                    text: w@,
                    position_length: 1,
                },
            ]);
            offset = end;
            position = position + 1;
        }
        i = i + 1;
    }
    proof {
        lemma_word_tokens_in_text(ws);
        let pv = pieces_view(tokens@);
        assert forall|k: int| 0 <= k < tokens@.len() implies (#[trigger] tokens@[k]).offset_from <= tokens@[k].offset_to
            && vstd::utf8::encode_utf8(text@).subrange(tokens@[k].offset_from as int, tokens@[k].offset_to as int)
                == vstd::utf8::encode_utf8(tokens@[k].text@) by {
            assert(pv[k] == word_tokens(ws, 0, 0)[k]);
        }
    }
    tokens
}

/// Every token of the Chinese tokenizer spans exactly the bytes of its
/// text, holds a character that is not whitespace, takes the next position,
/// and starts where the text before it ends.
pub proof fn lemma_word_tokens_spans(ws: Seq<Seq<char>>, offset: nat, position: nat)
    ensures
        forall|k: int| 0 <= k < word_tokens(ws, offset, position).len() ==> {
            let t = #[trigger] word_tokens(ws, offset, position)[k];
            &&& t.offset_to == t.offset_from + utf8_size(t.text)
            &&& !all_whitespace(t.text)
            &&& t.position == position + k
            &&& t.offset_from >= offset
        },
    decreases ws.len(),
{
    if ws.len() > 0 {
        let w = ws[0];
        let end = offset + utf8_size(w);
        let all = word_tokens(ws, offset, position);
        if all_whitespace(w) {
            lemma_word_tokens_spans(ws.skip(1), end, position);
            let tail = word_tokens(ws.skip(1), end, position);
            assert(all == tail);
            assert forall|k: int| 0 <= k < all.len() implies {
                let t = #[trigger] all[k];
                &&& t.offset_to == t.offset_from + utf8_size(t.text)
                &&& !all_whitespace(t.text)
                &&& t.position == position + k
                &&& t.offset_from >= offset
            } by {
                assert(all[k] == tail[k]);
            }
        } else {
            lemma_word_tokens_spans(ws.skip(1), end, position + 1);
            let tail = word_tokens(ws.skip(1), end, position + 1);
            assert forall|k: int| 0 <= k < all.len() implies {
                let t = #[trigger] all[k];
                &&& t.offset_to == t.offset_from + utf8_size(t.text)
                &&& !all_whitespace(t.text)
                &&& t.position == position + k
                &&& t.offset_from >= offset
            } by {
                let first = TokenView { offset_from: offset, offset_to: end, position, text: w, position_length: 1 };
                assert(all == seq![first] + tail);
                if k > 0 {
                    assert(all[k] == tail[k - 1]);
                } else {
                    assert(all[k] == first);
                }
            }
        }
    }
}

/// The words `ws` split at `j`: the words before it put together, then
/// the words from it on.
proof fn lemma_concat_all_split(ws: Seq<Seq<char>>, j: int)
    requires
        0 <= j <= ws.len(),
    ensures
        concat_all(ws) == concat_all(ws.take(j)) + concat_all(ws.skip(j)),
    decreases j,
{
    if j == 0 {
        assert(ws.take(0) =~= Seq::<Seq<char>>::empty());
        assert(ws.skip(0) =~= ws);
        assert(Seq::<char>::empty() + concat_all(ws) =~= concat_all(ws));
    } else {
        lemma_concat_all_split(ws.skip(1), j - 1);
        assert(ws.skip(1).take(j - 1) =~= ws.take(j).skip(1));
        assert(ws.skip(1).skip(j - 1) =~= ws.skip(j));
        assert(ws.take(j)[0] == ws[0]);
        assert(ws[0] + (concat_all(ws.skip(1).take(j - 1)) + concat_all(ws.skip(j)))
            =~= (ws[0] + concat_all(ws.skip(1).take(j - 1))) + concat_all(ws.skip(j)));
    }
}

/// Every token of the words `ws`, the first of which starts at byte
/// `offset`, is one of the words, and starts where the words before that
/// one end.
pub proof fn lemma_word_tokens_are_words(ws: Seq<Seq<char>>, offset: nat, position: nat)
    ensures
        forall|k: int| 0 <= k < word_tokens(ws, offset, position).len() ==> exists|j: int| 0 <= j < ws.len()
            && (#[trigger] word_tokens(ws, offset, position)[k]).text == ws[j]
            && word_tokens(ws, offset, position)[k].offset_from == offset + utf8_size(concat_all(ws.take(j))),
    decreases ws.len(),
{
    if ws.len() > 0 {
        let w = ws[0];
        let end = offset + utf8_size(w);
        let all = word_tokens(ws, offset, position);
        let next_position = if all_whitespace(w) { position } else { position + 1 };
        lemma_word_tokens_are_words(ws.skip(1), end, next_position);
        let tail = word_tokens(ws.skip(1), end, next_position);
        assert forall|k: int| 0 <= k < all.len() implies exists|j: int| 0 <= j < ws.len()
            && (#[trigger] all[k]).text == ws[j]
            && all[k].offset_from == offset + utf8_size(concat_all(ws.take(j))) by {
            let t = all[k];
            if !all_whitespace(w) && k == 0 {
                assert(ws.take(0) =~= Seq::<Seq<char>>::empty());
                assert(concat_all(ws.take(0)) =~= Seq::<char>::empty());
                assert(vstd::utf8::encode_utf8(Seq::<char>::empty()) =~= Seq::<u8>::empty());
                assert(t.text == ws[0]);
            } else {
                let kt = if all_whitespace(w) { k } else { k - 1 };
                assert(t == tail[kt]);
                let j = choose|j: int| 0 <= j < ws.skip(1).len() && tail[kt].text == ws.skip(1)[j]
                    && tail[kt].offset_from == end + utf8_size(concat_all(ws.skip(1).take(j)));
                assert(ws.take(j + 1).skip(1) =~= ws.skip(1).take(j));
                assert(ws.take(j + 1)[0] == w);
                assert(concat_all(ws.take(j + 1)) == w + concat_all(ws.skip(1).take(j)));
                lemma_encode_concat(w, concat_all(ws.skip(1).take(j)));
                assert(ws[j + 1] == ws.skip(1)[j]);
            }
        }
    }
}

/// Every word of `ws` that is not all whitespace becomes a token, which
/// starts where the words before it end.
pub proof fn lemma_word_tokens_cover_words(ws: Seq<Seq<char>>, offset: nat, position: nat)
    ensures
        forall|j: int| 0 <= j < ws.len() && !all_whitespace(#[trigger] ws[j]) ==> exists|k: int|
            0 <= k < word_tokens(ws, offset, position).len()
            && word_tokens(ws, offset, position)[k].text == ws[j]
            && word_tokens(ws, offset, position)[k].offset_from == offset + utf8_size(concat_all(ws.take(j))),
    decreases ws.len(),
{
    if ws.len() > 0 {
        let w = ws[0];
        let end = offset + utf8_size(w);
        let all = word_tokens(ws, offset, position);
        let next_position = if all_whitespace(w) { position } else { position + 1 };
        lemma_word_tokens_cover_words(ws.skip(1), end, next_position);
        let tail = word_tokens(ws.skip(1), end, next_position);
        assert forall|j: int| 0 <= j < ws.len() && !all_whitespace(#[trigger] ws[j]) implies exists|k: int|
            0 <= k < all.len() && all[k].text == ws[j] && all[k].offset_from == offset + utf8_size(concat_all(ws.take(j))) by {
            if j == 0 {
                assert(ws.take(0) =~= Seq::<Seq<char>>::empty());
                assert(concat_all(ws.take(0)) =~= Seq::<char>::empty());
                assert(vstd::utf8::encode_utf8(Seq::<char>::empty()) =~= Seq::<u8>::empty());
                assert(all[0].text == ws[0]);
            } else {
                assert(ws.skip(1)[j - 1] == ws[j]);
                let kt = choose|kt: int| 0 <= kt < tail.len() && tail[kt].text == ws.skip(1)[j - 1]
                    && tail[kt].offset_from == end + utf8_size(concat_all(ws.skip(1).take(j - 1)));
                let k = if all_whitespace(w) { kt } else { kt + 1 };
                assert(all[k] == tail[kt]);
                assert(ws.take(j).skip(1) =~= ws.skip(1).take(j - 1));
                assert(ws.take(j)[0] == w);
                assert(concat_all(ws.take(j)) == w + concat_all(ws.skip(1).take(j - 1)));
                lemma_encode_concat(w, concat_all(ws.skip(1).take(j - 1)));
            }
        }
    }
}

/// Each token of the Chinese tokenizer lies in the text where its byte
/// range says: the UTF-8 bytes of the words put together, cut at the
/// token's range, are the bytes of the token's text.
pub proof fn lemma_word_tokens_in_text(ws: Seq<Seq<char>>)
    ensures
        forall|k: int| 0 <= k < word_tokens(ws, 0, 0).len() ==> {
            let t = #[trigger] word_tokens(ws, 0, 0)[k];
            &&& t.offset_from <= t.offset_to <= vstd::utf8::encode_utf8(concat_all(ws)).len()
            &&& vstd::utf8::encode_utf8(concat_all(ws)).subrange(t.offset_from as int, t.offset_to as int)
                == vstd::utf8::encode_utf8(t.text)
        },
{
    lemma_word_tokens_are_words(ws, 0, 0);
    lemma_word_tokens_spans(ws, 0, 0);
    let all = word_tokens(ws, 0, 0);
    assert forall|k: int| 0 <= k < all.len() implies {
        let t = #[trigger] all[k];
        &&& t.offset_from <= t.offset_to <= vstd::utf8::encode_utf8(concat_all(ws)).len()
        &&& vstd::utf8::encode_utf8(concat_all(ws)).subrange(t.offset_from as int, t.offset_to as int)
            == vstd::utf8::encode_utf8(t.text)
    } by {
        let t = all[k];
        let j = choose|j: int| 0 <= j < ws.len() && all[k].text == ws[j]
            && all[k].offset_from == 0 + utf8_size(concat_all(ws.take(j)));
        let pre = concat_all(ws.take(j));
        let post = concat_all(ws.skip(j + 1));
        lemma_concat_all_split(ws, j);
        assert(ws.skip(j)[0] == ws[j]);
        assert(ws.skip(j).skip(1) =~= ws.skip(j + 1));
        assert(concat_all(ws.skip(j)) == ws[j] + post);
        lemma_encode_concat(pre, ws[j] + post);
        lemma_encode_concat(ws[j], post);
        let e = vstd::utf8::encode_utf8(concat_all(ws));
        let ep = vstd::utf8::encode_utf8(pre);
        let ew = vstd::utf8::encode_utf8(ws[j]);
        let eq = vstd::utf8::encode_utf8(post);
        assert(concat_all(ws) == pre + (ws[j] + post));
        assert(e == ep + (ew + eq));
        assert(e.subrange(ep.len() as int, (ep.len() + ew.len()) as int) =~= ew);
    }
}

/// The Chinese tokenizer, on the segmenter with the default dictionary.
#[derive(Clone)]
pub struct JiebaTokenizer {
    jieba: Arc<Jieba>,
}

impl JiebaTokenizer {
    /// The tokenizer with the default dictionary.
    pub fn new() -> JiebaTokenizer {
        JiebaTokenizer { jieba: Arc::new(default_segmenter()) }
    }

    /// The words of `text`, as the segmenter cuts them.
    pub fn words(&self, text: &str) -> (res: Vec<String>)
        ensures
            res@.map_values(|w: String| w@) == jieba_words(text@),
            concat_all(jieba_words(text@)) == text@,
    {
        cut_words(self, text)
    }

    /// The tokens of `text`: the words that the segmenter cuts it into and
    /// that are not all whitespace, each with its byte range in the text.
    pub fn tokens(&self, text: &str) -> (res: Vec<TokenPiece>)
        ensures
            pieces_view(res@) == word_tokens(jieba_words(text@), 0, 0),
            forall|k: int| 0 <= k < res@.len() ==> (#[trigger] res@[k]).offset_from <= res@[k].offset_to
                && vstd::utf8::encode_utf8(text@).subrange(res@[k].offset_from as int, res@[k].offset_to as int)
                    == vstd::utf8::encode_utf8(res@[k].text@),
    {
        let words = self.words(text);
        tokens_of_words(text, &words)
    }
}

impl Default for JiebaTokenizer {
    fn default() -> JiebaTokenizer {
        JiebaTokenizer::new()
    }
}

} // verus!
