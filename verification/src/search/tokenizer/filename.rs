//! The file-name tokenizer: names split at `-`, `_` and `.`.

use vstd::prelude::*;
use crate::search::tokenizer::{TokenPiece, pieces_of_words, pieces_view, word_pieces};
use crate::search::tokenizer::code::nonempty_words;
use crate::text::{chars_of, split_by, split_chars, string_of};

verus! {

/// The words of a file name: its non-empty parts between `-`, `_` and `.`.
pub open spec fn filename_words(text: Seq<char>) -> Seq<Seq<char>> {
    nonempty_words(split_by(text, seq!['-', '_', '.']))
}

/// No word of a file name is empty or holds a separator.
pub proof fn lemma_filename_words(text: Seq<char>)
    ensures
        forall|k: int, i: int| 0 <= k < filename_words(text).len() && 0 <= i < filename_words(text)[k].len() ==> {
            let c = #[trigger] filename_words(text)[k][i];
            c != '-' && c != '_' && c != '.'
        },
        forall|k: int| 0 <= k < filename_words(text).len() ==> (#[trigger] filename_words(text)[k]).len() > 0,
{
    let seps = seq!['-', '_', '.'];
    let parts = split_by(text, seps);
    crate::text::lemma_split_by_pieces(text, seps);
    crate::search::tokenizer::code::lemma_nonempty_words(parts);
    let w = filename_words(text);
    assert forall|k: int, i: int| 0 <= k < w.len() && 0 <= i < w[k].len() implies {
        let c = #[trigger] w[k][i];
        c != '-' && c != '_' && c != '.'
    } by {
        let j = choose|j: int| 0 <= j < parts.len() && parts[j] == w[k];
        assert(!seps.contains(parts[j][i]));
        assert(seps[0] == '-' && seps[1] == '_' && seps[2] == '.');
    }
}

/// The tokenizer for file names.
#[derive(Debug, Clone, Copy, Default)]
pub struct FilenameTokenizer;

impl FilenameTokenizer {
    pub fn new() -> FilenameTokenizer {
        FilenameTokenizer
    }

    /// The words of `text`, as `filename_words` gives them.
    pub fn words(&self, text: &str) -> (res: Vec<String>)
        ensures
            res@.map_values(|w: String| w@) == filename_words(text@),
    {
        let chars = chars_of(text);
        let parts = split_chars(&chars, &['-', '_', '.']);
        assert(seq!['-', '_', '.'] =~= ['-', '_', '.']@);
        let ghost ps = parts@.map_values(|p: Vec<char>| p@);
        let mut words: Vec<String> = Vec::new();
        let mut i: usize = 0;
        while i < parts.len()
            invariant
                0 <= i <= parts@.len(),
                ps == parts@.map_values(|p: Vec<char>| p@),
                ps == split_by(text@, seq!['-', '_', '.']),
                words@.map_values(|w: String| w@) == nonempty_words(ps.take(i as int)),
            decreases parts@.len() - i,
        {
            assert(ps.take(i + 1).drop_last() =~= ps.take(i as int));
            assert(ps.take(i + 1).last() == parts@[i as int]@);
            if parts[i].len() > 0 {
                let ghost before = words@.map_values(|w: String| w@);
                words.push(string_of(&parts[i]));
                assert(words@.map_values(|w: String| w@) =~= before.push(parts@[i as int]@));
            }
            i = i + 1;
        }
        assert(ps.take(i as int) =~= ps);
        words
    }

    /// The tokens of `text`: its words, each with the byte range from 0 to
    /// its length, at consecutive positions.
    pub fn tokens(&self, text: &str) -> (res: Vec<TokenPiece>)
        ensures
            pieces_view(res@) == word_pieces(filename_words(text@)),
    {
        pieces_of_words(self.words(text))
    }
}

} // verus!
