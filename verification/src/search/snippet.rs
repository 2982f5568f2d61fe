//! Snippets of search hits: the highlighted fragment that the engine
//! renders gets the builder's highlight tags and is cut to its length.

use vstd::prelude::*;
use crate::text::{chars_of, owned, string_of};

verus! {

/// `s` with every occurrence of `pat` replaced by `rep`, scanning from the
/// left; a replaced occurrence is not scanned again.
pub open spec fn replace_all(s: Seq<char>, pat: Seq<char>, rep: Seq<char>) -> Seq<char>
    decreases s.len(),
{
    if s.len() == 0 {
        Seq::empty()
    } else if pat.len() > 0 && pat.is_prefix_of(s) {
        rep + replace_all(s.skip(pat.len() as int), pat, rep)
    } else {
        seq![s[0]] + replace_all(s.skip(1), pat, rep)
    }
}

/// The first `max` characters of `s` (all of them if it has fewer).
pub open spec fn first_chars(s: Seq<char>, max: nat) -> Seq<char> {
    if s.len() <= max { s } else { s.take(max as int) }
}

/// The snippet that a builder makes of the fragment `html` that the engine
/// rendered with `<b>` and `</b>` around the matches.
pub open spec fn snippet_text(html: Seq<char>, open: Seq<char>, close: Seq<char>, max: nat) -> Seq<char> {
    first_chars(replace_all(replace_all(html, "<b>"@, open), "</b>"@, close), max)
}

/// Replaces every occurrence of `pat` in `s` by `rep`, from the left.
pub fn replace_text(s: &[char], pat: &[char], rep: &[char]) -> (res: Vec<char>)
    ensures
        res@ == replace_all(s@, pat@, rep@),
{
    let mut out: Vec<char> = Vec::new();
    let mut i: usize = 0;
    let n: usize = s.len();
    assert(s@.skip(0) =~= s@);
    while i < n
        invariant
            0 <= i <= s@.len(),
            n == s@.len(),
            out@ + replace_all(s@.skip(i as int), pat@, rep@) == replace_all(s@, pat@, rep@),
        decreases s@.len() - i,
    {
        let ghost rest = s@.skip(i as int);
        let mut matches = pat.len() > 0 && pat.len() <= n - i;
        let mut k: usize = 0;
        while matches && k < pat.len()
            invariant
                0 <= k <= pat@.len(),
                i < s@.len(),
                n == s@.len(),
                matches ==> pat@.len() <= s@.len() - i,
                matches ==> forall|j: int| 0 <= j < k ==> pat@[j] == s@[i + j],
                matches == (pat@.len() > 0 && pat@.len() <= s@.len() - i && forall|j: int| 0 <= j < k ==> pat@[j] == s@[i + j]),
            decreases pat@.len() - k,
        {
            if pat[k] != s[i + k] {
                matches = false;
            }
            k = k + 1;
        }
        let ghost before = out@;
        if matches {
            assert(pat@.is_prefix_of(rest)) by {
                assert forall|j: int| 0 <= j < pat@.len() implies pat@[j] == rest[j] by {
                    assert(pat@[j] == s@[i + j]);
                }
            }
            let mut r: usize = 0;
            while r < rep.len()
                invariant
                    0 <= r <= rep@.len(),
                    out@ == before + rep@.take(r as int),
                decreases rep@.len() - r,
            {
                out.push(rep[r]);
                r = r + 1;
                assert(out@ =~= before + rep@.take(r as int));
            }
            assert(rep@.take(r as int) =~= rep@);
            assert(rest.skip(pat@.len() as int) =~= s@.skip(i + pat@.len()));
            i = i + pat.len();
        } else {
            assert(!(pat@.len() > 0 && pat@.is_prefix_of(rest))) by {
                if pat@.len() > 0 && pat@.is_prefix_of(rest) {
                    assert(pat@.len() <= s@.len() - i);
                    if k < pat@.len() {
                        let j = choose|j: int| 0 <= j < k && pat@[j] != s@[i + j];
                        assert(rest[j] == s@[i + j]);
                    } else {
                        let j = choose|j: int| 0 <= j < k && pat@[j] != s@[i + j];
                        assert(rest[j] == s@[i + j]);
                    }
                }
            }
            out.push(s[i]);
            assert(rest.skip(1) =~= s@.skip(i + 1));
            assert(out@ =~= before + seq![s@[i as int]]);
            i = i + 1;
        }
    }
    assert(s@.skip(i as int) =~= Seq::<char>::empty());
    assert(out@ + Seq::<char>::empty() =~= out@);
    out
}

/// Builds the snippets of search hits.
#[derive(Debug)]
pub struct SnippetBuilder {
    max_fragment_chars: usize,
    highlight_open: String,
    highlight_close: String,
}

impl SnippetBuilder {
    /// The greatest number of characters of a snippet.
    pub closed spec fn max_chars(&self) -> nat {
        self.max_fragment_chars as nat
    }

    /// The text put before a match.
    pub closed spec fn open_tag(&self) -> Seq<char> {
        self.highlight_open@
    }

    /// The text put after a match.
    pub closed spec fn close_tag(&self) -> Seq<char> {
        self.highlight_close@
    }

    /// A builder of snippets of at most `max_fragment_chars` characters,
    /// with matches between `<em>` and `</em>`.
    pub fn new(max_fragment_chars: usize) -> (res: SnippetBuilder)
        ensures
            res.max_chars() == max_fragment_chars,
            res.open_tag() == "<em>"@,
            res.close_tag() == "</em>"@,
    {
        SnippetBuilder {
            max_fragment_chars,
            highlight_open: owned("<em>"),
            highlight_close: owned("</em>"),
        }
    }

    /// The builder with matches between `open` and `close`.
    pub fn with_highlights(self, open: &str, close: &str) -> (res: SnippetBuilder)
        ensures
            res.max_chars() == self.max_chars(),
            res.open_tag() == open@,
            res.close_tag() == close@,
    {
        SnippetBuilder {
            max_fragment_chars: self.max_fragment_chars,
            highlight_open: owned(open),
            highlight_close: owned(close),
        }
    }

    /// The greatest number of characters of a snippet.
    pub fn max_fragment_chars(&self) -> (res: usize)
        ensures
            res == self.max_chars(),
    {
        self.max_fragment_chars
    }

    /// The snippet made of the fragment `html` that the engine rendered
    /// with `<b>` and `</b>` around the matches: those tags become the
    /// builder's, and the text is cut to the builder's number of
    /// characters.
    pub fn finish(&self, html: &str) -> (res: String)
        ensures
            res@ == snippet_text(html@, self.open_tag(), self.close_tag(), self.max_chars()),
            res@.len() <= self.max_chars(),
    {
        let chars = chars_of(html);
        let b_open = chars_of("<b>");
        let b_close = chars_of("</b>");
        let open = chars_of(self.highlight_open.as_str());
        let close = chars_of(self.highlight_close.as_str());
        let first = replace_text(&chars, &b_open, &open);
        let second = replace_text(&first, &b_close, &close);
        let mut out: Vec<char> = Vec::new();
        let mut i: usize = 0;
        while i < second.len() && i < self.max_fragment_chars
            invariant
                0 <= i <= second@.len(),
                i <= self.max_fragment_chars,
                out@ == second@.take(i as int),
            decreases second@.len() - i,
        {
            out.push(second[i]);
            i = i + 1;
            assert(out@ =~= second@.take(i as int));
        }
        proof {
            if second@.len() <= self.max_fragment_chars as nat {
                assert(second@.take(i as int) =~= second@);
            }
        }
        string_of(&out)
    }
}

/// Replacing a tag by itself changes nothing.
pub proof fn lemma_replace_same(s: Seq<char>, pat: Seq<char>)
    ensures
        replace_all(s, pat, pat) == s,
    decreases s.len(),
{
    if s.len() > 0 {
        if pat.len() > 0 && pat.is_prefix_of(s) {
            lemma_replace_same(s.skip(pat.len() as int), pat);
            assert(pat + s.skip(pat.len() as int) =~= s);
        } else {
            lemma_replace_same(s.skip(1), pat);
            assert(seq![s[0]] + s.skip(1) =~= s);
        }
    }
}

/// With the engine's own tags as highlights, a snippet is the rendered
/// fragment cut to length.
pub proof fn lemma_engine_tags_kept(html: Seq<char>, max: nat)
    ensures
        snippet_text(html, "<b>"@, "</b>"@, max) == first_chars(html, max),
{
    lemma_replace_same(html, "<b>"@);
    lemma_replace_same(html, "</b>"@);
}

} // verus!
