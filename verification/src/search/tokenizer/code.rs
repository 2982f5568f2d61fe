//! The source-code tokenizer: identifiers split at underscores and at the
//! capitals of camelCase and PascalCase.

use vstd::prelude::*;
use crate::search::tokenizer::{TokenPiece, pieces_of_words, pieces_view, word_pieces};
use crate::text::{chars_of, is_uppercase, split_by, split_chars, string_of, uppercase_char};

verus! {

/// The words of `s`, scanned from a state in which `cur` has been read of
/// the current word: an uppercase character starts a new word unless the
/// current one is empty.
pub open spec fn camel_scan(s: Seq<char>, cur: Seq<char>) -> Seq<Seq<char>>
    decreases s.len(),
{
    if s.len() == 0 {
        if cur.len() > 0 { seq![cur] } else { Seq::empty() }
    } else if uppercase_char(s[0]) && cur.len() > 0 {
        seq![cur] + camel_scan(s.skip(1), seq![s[0]])
    } else {
        camel_scan(s.skip(1), cur.push(s[0]))
    }
}

/// The camelCase words of `s`.
pub open spec fn camel_words(s: Seq<char>) -> Seq<Seq<char>> {
    camel_scan(s, Seq::empty())
}

/// The texts of `ws` with the empty ones left out.
pub open spec fn nonempty_words(ws: Seq<Seq<char>>) -> Seq<Seq<char>>
    decreases ws.len(),
{
    if ws.len() == 0 {
        Seq::empty()
    } else if ws.last().len() > 0 {
        nonempty_words(ws.drop_last()).push(ws.last())
    } else {
        nonempty_words(ws.drop_last())
    }
}

/// The words kept are words of `ws`, and none is empty.
pub proof fn lemma_nonempty_words(ws: Seq<Seq<char>>)
    ensures
        forall|k: int| 0 <= k < nonempty_words(ws).len() ==> (#[trigger] nonempty_words(ws)[k]).len() > 0 && ws.contains(nonempty_words(ws)[k]),
    decreases ws.len(),
{
    if ws.len() > 0 {
        let init = ws.drop_last();
        lemma_nonempty_words(init);
        let r = nonempty_words(ws);
        assert forall|k: int| 0 <= k < r.len() implies (#[trigger] r[k]).len() > 0 && ws.contains(r[k]) by {
            if k < nonempty_words(init).len() {
                assert(r[k] == nonempty_words(init)[k]);
                let j = choose|j: int| 0 <= j < init.len() && init[j] == r[k];
                assert(ws[j] == init[j]);
            } else {
                assert(r[k] == ws[ws.len() - 1]);
            }
        }
    }
}

/// The words of the underscore-separated parts `parts`.
pub open spec fn words_of_parts(parts: Seq<Seq<char>>) -> Seq<Seq<char>>
    decreases parts.len(),
{
    if parts.len() == 0 {
        Seq::empty()
    } else if parts.last().len() == 0 {
        words_of_parts(parts.drop_last())
    } else {
        words_of_parts(parts.drop_last()) + nonempty_words(camel_words(parts.last()))
    }
}

/// The words of an identifier: its non-empty parts between underscores,
/// each split into camelCase words.
pub open spec fn code_words(text: Seq<char>) -> Seq<Seq<char>> {
    words_of_parts(split_by(text, seq!['_']))
}

proof fn lemma_step(s: Seq<char>, i: int)
    requires
        0 <= i < s.len(),
    ensures
        s.skip(i)[0] == s[i],
        s.skip(i).skip(1) =~= s.skip(i + 1),
{
}

/// Splits `s` into camelCase words: a new word starts at every uppercase
/// character that does not start the text.
pub fn split_camel_case(s: &[char]) -> (res: Vec<String>)
    ensures
        res@.map_values(|w: String| w@) == camel_words(s@),
{
    let mut words: Vec<String> = Vec::new();
    let mut current: Vec<char> = Vec::new();
    let mut i: usize = 0;
    assert(s@.skip(0) =~= s@);
    while i < s.len()
        invariant
            0 <= i <= s@.len(),
            words@.map_values(|w: String| w@) + camel_scan(s@.skip(i as int), current@) == camel_words(s@),
        decreases s@.len() - i,
    {
        let c = s[i];
        proof {
            lemma_step(s@, i as int);
        }
        if is_uppercase(c) && current.len() > 0 {
            let ghost before = words@.map_values(|w: String| w@);
            let w = string_of(&current);
            words.push(w);
            assert(words@.map_values(|w: String| w@) =~= before + seq![current@]);
            current = Vec::new();
            current.push(c);
            assert(current@ =~= seq![c]);
        } else {
            current.push(c);
        }
        i = i + 1;
    }
    let ghost before = words@.map_values(|w: String| w@);
    if current.len() > 0 {
        let w = string_of(&current);
        words.push(w);
        assert(words@.map_values(|w: String| w@) =~= before + seq![current@]);
    } else {
        assert(words@.map_values(|w: String| w@) =~= before + Seq::<Seq<char>>::empty());
    }
    words
}

/// The tokenizer for identifiers.
#[derive(Debug, Clone, Copy, Default)]
pub struct CodeTokenizer;

impl CodeTokenizer {
    pub fn new() -> CodeTokenizer {
        CodeTokenizer
    }

    /// The words of `text`, as `code_words` gives them.
    pub fn words(&self, text: &str) -> (res: Vec<String>)
        ensures
            res@.map_values(|w: String| w@) == code_words(text@),
    {
        let chars = chars_of(text);
        let parts = split_chars(&chars, &['_']);
        assert(seq!['_'] =~= ['_']@);
        let ghost ps = parts@.map_values(|p: Vec<char>| p@);
        let mut words: Vec<String> = Vec::new();
        let mut i: usize = 0;
        while i < parts.len()
            invariant
                0 <= i <= parts@.len(),
                ps == parts@.map_values(|p: Vec<char>| p@),
                ps == split_by(text@, seq!['_']),
                words@.map_values(|w: String| w@) == words_of_parts(ps.take(i as int)),
            decreases parts@.len() - i,
        {
            assert(ps.take(i + 1).drop_last() =~= ps.take(i as int));
            assert(ps.take(i + 1).last() == parts@[i as int]@);
            if parts[i].len() > 0 {
                let camel = split_camel_case(&parts[i]);
                let ghost cw = camel@.map_values(|w: String| w@);
                let ghost base = words@.map_values(|w: String| w@);
                let mut k: usize = 0;
                while k < camel.len()
                    invariant
                        0 <= k <= camel@.len(),
                        cw == camel@.map_values(|w: String| w@),
                        words@.map_values(|w: String| w@) == base + nonempty_words(cw.take(k as int)),
                    decreases camel@.len() - k,
                {
                    assert(cw.take(k + 1).drop_last() =~= cw.take(k as int));
                    assert(cw.take(k + 1).last() == camel@[k as int]@);
                    if camel[k].as_str().is_empty() {
                    } else {
                        let ghost before = words@.map_values(|w: String| w@);
                        words.push(camel[k].clone());
                        assert(words@.map_values(|w: String| w@) =~= before.push(camel@[k as int]@));
                    }
                    k = k + 1;
                }
                assert(cw.take(k as int) =~= cw);
            }
            i = i + 1;
        }
        assert(ps.take(i as int) =~= ps);
        words
    }

    /// The tokens of `text`: its words, each with the byte range from 0 to
    /// its length, at consecutive positions.
    pub fn tokens(&self, text: &str) -> (res: Vec<TokenPiece>)
        ensures
            pieces_view(res@) == word_pieces(code_words(text@)),
    {
        pieces_of_words(self.words(text))
    }
}

/// The camelCase words of a text, put together again, give the text back.
pub proof fn lemma_camel_words_concat(s: Seq<char>)
    ensures
        camel_words(s).fold_left(Seq::<char>::empty(), |acc: Seq<char>, w: Seq<char>| acc + w) == s,
{
    lemma_camel_scan_concat(s, Seq::empty());
    assert(Seq::<char>::empty() + s =~= s);
}

proof fn lemma_fold_concat_prefix(ws: Seq<Seq<char>>, pre: Seq<char>)
    ensures
        ws.fold_left(pre, |acc: Seq<char>, w: Seq<char>| acc + w) == pre + ws.fold_left(
            Seq::<char>::empty(),
            |acc: Seq<char>, w: Seq<char>| acc + w,
        ),
    decreases ws.len(),
{
    let f = |acc: Seq<char>, w: Seq<char>| acc + w;
    if ws.len() == 0 {
        assert(pre + Seq::<char>::empty() =~= pre);
    } else {
        ws.lemma_fold_left_alt(pre, f);
        ws.lemma_fold_left_alt(Seq::<char>::empty(), f);
        lemma_fold_concat_prefix(ws.drop_last(), pre);
        assert(ws.fold_left(pre, f) == f(ws.drop_last().fold_left(pre, f), ws.last()));
        assert(ws.fold_left(Seq::<char>::empty(), f) == f(ws.drop_last().fold_left(Seq::<char>::empty(), f), ws.last()));
        assert(pre + (ws.drop_last().fold_left(Seq::<char>::empty(), f) + ws.last()) =~= (pre + ws.drop_last().fold_left(Seq::<char>::empty(), f)) + ws.last());
    }
}

proof fn lemma_camel_scan_concat(s: Seq<char>, cur: Seq<char>)
    ensures
        camel_scan(s, cur).fold_left(Seq::<char>::empty(), |acc: Seq<char>, w: Seq<char>| acc + w) == cur + s,
    decreases s.len(),
{
    let f = |acc: Seq<char>, w: Seq<char>| acc + w;
    if s.len() == 0 {
        if cur.len() > 0 {
            reveal_with_fuel(Seq::fold_left, 2);
            assert(Seq::<char>::empty() + cur =~= cur);
        }
        assert(cur + s =~= cur);
    } else if uppercase_char(s[0]) && cur.len() > 0 {
        lemma_camel_scan_concat(s.skip(1), seq![s[0]]);
        let rest = camel_scan(s.skip(1), seq![s[0]]);
        assert(camel_scan(s, cur) == seq![cur] + rest);
        (seq![cur] + rest).lemma_fold_left_split(Seq::<char>::empty(), f, 1);
        assert((seq![cur] + rest).subrange(0, 1) =~= seq![cur]);
        assert((seq![cur] + rest).subrange(1, (seq![cur] + rest).len() as int) =~= rest);
        reveal_with_fuel(Seq::fold_left, 2);
        assert(seq![cur].fold_left(Seq::<char>::empty(), f) == Seq::<char>::empty() + cur);
        assert(Seq::<char>::empty() + cur =~= cur);
        lemma_fold_concat_prefix(rest, cur);
        assert(cur + (seq![s[0]] + s.skip(1)) =~= cur + s);
    } else {
        lemma_camel_scan_concat(s.skip(1), cur.push(s[0]));
        assert(cur.push(s[0]) + s.skip(1) =~= cur + s);
    }
}

/// Whether no character of `w` but the first is uppercase.
pub open spec fn no_inner_capital(w: Seq<char>) -> bool {
    forall|j: int| 1 <= j < w.len() ==> !uppercase_char(#[trigger] w[j])
}

proof fn lemma_camel_scan_shape(s: Seq<char>, cur: Seq<char>)
    requires
        no_inner_capital(cur),
    ensures
        forall|k: int| 0 <= k < camel_scan(s, cur).len() ==> (#[trigger] camel_scan(s, cur)[k]).len() > 0,
        forall|k: int| 0 <= k < camel_scan(s, cur).len() ==> no_inner_capital(#[trigger] camel_scan(s, cur)[k]),
        forall|k: int| 0 < k < camel_scan(s, cur).len() ==> uppercase_char((#[trigger] camel_scan(s, cur)[k])[0]),
        cur.len() > 0 ==> camel_scan(s, cur).len() > 0 && camel_scan(s, cur)[0][0] == cur[0],
        cur.len() == 0 && s.len() > 0 ==> camel_scan(s, cur).len() > 0 && camel_scan(s, cur)[0][0] == s[0],
    decreases s.len(),
{
    let r = camel_scan(s, cur);
    if s.len() == 0 {
    } else if uppercase_char(s[0]) && cur.len() > 0 {
        let next = seq![s[0]];
        assert(no_inner_capital(next));
        lemma_camel_scan_shape(s.skip(1), next);
        let rest = camel_scan(s.skip(1), next);
        assert(r == seq![cur] + rest);
        assert forall|k: int| 0 <= k < r.len() implies (#[trigger] r[k]).len() > 0 && no_inner_capital(r[k])
            && (k > 0 ==> uppercase_char(r[k][0])) by {
            if k > 0 {
                assert(r[k] == rest[k - 1]);
            }
        }
    } else {
        let next = cur.push(s[0]);
        assert(no_inner_capital(next)) by {
            assert forall|j: int| 1 <= j < next.len() implies !uppercase_char(#[trigger] next[j]) by {
                if j < cur.len() {
                    assert(next[j] == cur[j]);
                }
            }
        }
        lemma_camel_scan_shape(s.skip(1), next);
    }
}

/// The camelCase words of a text: none is empty, no character of a word
/// but its first is uppercase, every word after the first starts with an
/// uppercase character, and the first starts with the first character of
/// the text. So a new word starts exactly at each uppercase character that
/// does not start the text (with the words put together giving the text
/// back, `lemma_camel_words_concat`).
pub proof fn lemma_camel_words_shape(s: Seq<char>)
    ensures
        forall|k: int| 0 <= k < camel_words(s).len() ==> (#[trigger] camel_words(s)[k]).len() > 0,
        forall|k: int| 0 <= k < camel_words(s).len() ==> no_inner_capital(#[trigger] camel_words(s)[k]),
        forall|k: int| 0 < k < camel_words(s).len() ==> uppercase_char((#[trigger] camel_words(s)[k])[0]),
        s.len() > 0 ==> camel_words(s).len() > 0 && camel_words(s)[0][0] == s[0],
{
    lemma_camel_scan_shape(s, Seq::empty());
}

/// The words `ws` put together.
pub open spec fn put_together(ws: Seq<Seq<char>>) -> Seq<char> {
    ws.fold_left(Seq::<char>::empty(), |acc: Seq<char>, w: Seq<char>| acc + w)
}

proof fn lemma_put_together_push(ws: Seq<Seq<char>>, w: Seq<char>)
    ensures
        put_together(ws.push(w)) == put_together(ws) + w,
{
    let f = |acc: Seq<char>, w: Seq<char>| acc + w;
    assert(ws.push(w).drop_last() =~= ws);
    assert(ws.push(w).fold_left(Seq::<char>::empty(), f) == f(ws.fold_left(Seq::<char>::empty(), f), w));
}

proof fn lemma_put_together_append(a: Seq<Seq<char>>, b: Seq<Seq<char>>)
    ensures
        put_together(a + b) == put_together(a) + put_together(b),
    decreases b.len(),
{
    if b.len() == 0 {
        assert(a + b =~= a);
        assert(put_together(a) + Seq::<char>::empty() =~= put_together(a));
    } else {
        lemma_put_together_append(a, b.drop_last());
        assert(a + b =~= (a + b.drop_last()).push(b.last()));
        assert(b =~= b.drop_last().push(b.last()));
        lemma_put_together_push(a + b.drop_last(), b.last());
        lemma_put_together_push(b.drop_last(), b.last());
        assert((put_together(a) + put_together(b.drop_last())) + b.last() =~= put_together(a) + (put_together(b.drop_last()) + b.last()));
    }
}

proof fn lemma_nonempty_words_put_together(ws: Seq<Seq<char>>)
    ensures
        put_together(nonempty_words(ws)) == put_together(ws),
    decreases ws.len(),
{
    if ws.len() > 0 {
        let init = ws.drop_last();
        lemma_nonempty_words_put_together(init);
        assert(ws =~= init.push(ws.last()));
        lemma_put_together_push(init, ws.last());
        if ws.last().len() > 0 {
            lemma_put_together_push(nonempty_words(init), ws.last());
        } else {
            assert(put_together(init) + ws.last() =~= put_together(init));
        }
    }
}

proof fn lemma_words_of_parts_shape(parts: Seq<Seq<char>>)
    ensures
        put_together(words_of_parts(parts)) == put_together(parts),
        forall|k: int| 0 <= k < words_of_parts(parts).len() ==> (#[trigger] words_of_parts(parts)[k]).len() > 0
            && no_inner_capital(words_of_parts(parts)[k]),
    decreases parts.len(),
{
    if parts.len() > 0 {
        let init = parts.drop_last();
        let last = parts.last();
        lemma_words_of_parts_shape(init);
        assert(parts =~= init.push(last));
        lemma_put_together_push(init, last);
        if last.len() == 0 {
            assert(put_together(init) + last =~= put_together(init));
        } else {
            let cw = camel_words(last);
            let nw = nonempty_words(cw);
            lemma_put_together_append(words_of_parts(init), nw);
            lemma_nonempty_words_put_together(cw);
            lemma_camel_words_concat(last);
            lemma_camel_words_shape(last);
            lemma_nonempty_words(cw);
            let r = words_of_parts(parts);
            assert forall|k: int| 0 <= k < r.len() implies (#[trigger] r[k]).len() > 0 && no_inner_capital(r[k]) by {
                let wi = words_of_parts(init);
                if k < wi.len() {
                    assert(r[k] == wi[k]);
                } else {
                    assert(r[k] == nw[k - wi.len()]);
                    let j = choose|j: int| 0 <= j < cw.len() && cw[j] == nw[k - wi.len()];
                }
            }
        }
    }
}

proof fn lemma_split_by_put_together(s: Seq<char>, seps: Seq<char>)
    ensures
        put_together(split_by(s, seps)) == s.filter(|c: char| !seps.contains(c)),
    decreases s.len(),
{
    reveal_with_fuel(Seq::filter, 1);
    let p = |c: char| !seps.contains(c);
    if s.len() == 0 {
        reveal_with_fuel(Seq::fold_left, 2);
        assert(Seq::<char>::empty() + Seq::<char>::empty() =~= Seq::<char>::empty());
    } else {
        let init = s.drop_last();
        let c = s.last();
        lemma_split_by_put_together(init, seps);
        crate::text::lemma_split_by_nonempty(init, seps);
        let pi = split_by(init, seps);
        assert(s.filter(p) == if p(c) { init.filter(p).push(c) } else { init.filter(p) });
        if seps.contains(c) {
            lemma_put_together_push(pi, Seq::<char>::empty());
            assert(put_together(pi) + Seq::<char>::empty() =~= put_together(pi));
        } else {
            let n = pi.len() - 1;
            let updated = pi.update(n, pi.last().push(c));
            assert(pi =~= pi.drop_last().push(pi.last()));
            assert(updated =~= pi.drop_last().push(pi.last().push(c)));
            lemma_put_together_push(pi.drop_last(), pi.last());
            lemma_put_together_push(pi.drop_last(), pi.last().push(c));
            assert(put_together(pi.drop_last()) + pi.last().push(c) =~= (put_together(pi.drop_last()) + pi.last()).push(c));
        }
    }
}

/// The words of an identifier put together give the identifier without its
/// underscores; none is empty, and no character of a word but its first is
/// uppercase.
pub proof fn lemma_code_words_shape(text: Seq<char>)
    ensures
        put_together(code_words(text)) == text.filter(|c: char| c != '_'),
        forall|k: int| 0 <= k < code_words(text).len() ==> (#[trigger] code_words(text)[k]).len() > 0
            && no_inner_capital(code_words(text)[k]),
{
    lemma_words_of_parts_shape(split_by(text, seq!['_']));
    lemma_split_by_put_together(text, seq!['_']);
    assert((|c: char| !seq!['_'].contains(c)) =~= (|c: char| c != '_')) by {
        assert forall|c: char| (!seq!['_'].contains(c)) == (c != '_') by {
            if c == '_' {
                assert(seq!['_'][0] == c);
            }
        }
    }
}

proof fn lemma_split_by_join(a: Seq<char>, b: Seq<char>, seps: Seq<char>, sep: char)
    requires
        seps.contains(sep),
    ensures
        split_by(a.push(sep) + b, seps) == split_by(a, seps) + split_by(b, seps),
    decreases b.len(),
{
    if b.len() == 0 {
        assert(a.push(sep) + b =~= a.push(sep));
        assert(a.push(sep).drop_last() =~= a);
        assert(split_by(a, seps).push(Seq::<char>::empty()) =~= split_by(a, seps) + seq![Seq::<char>::empty()]);
    } else {
        let b0 = b.drop_last();
        let c = b.last();
        lemma_split_by_join(a, b0, seps, sep);
        crate::text::lemma_split_by_nonempty(b0, seps);
        assert((a.push(sep) + b).drop_last() =~= a.push(sep) + b0);
        assert((a.push(sep) + b).last() == c);
        let sa = split_by(a, seps);
        let sb = split_by(b0, seps);
        if seps.contains(c) {
            assert((sa + sb).push(Seq::<char>::empty()) =~= sa + sb.push(Seq::<char>::empty()));
        } else {
            let n = (sa + sb).len() - 1;
            assert((sa + sb).last() == sb.last());
            assert((sa + sb).update(n, (sa + sb).last().push(c)) =~= sa + sb.update(sb.len() - 1, sb.last().push(c)));
        }
    }
}

proof fn lemma_words_of_parts_join(p: Seq<Seq<char>>, q: Seq<Seq<char>>)
    ensures
        words_of_parts(p + q) == words_of_parts(p) + words_of_parts(q),
    decreases q.len(),
{
    if q.len() == 0 {
        assert(p + q =~= p);
        assert(words_of_parts(p) + Seq::<Seq<char>>::empty() =~= words_of_parts(p));
    } else {
        lemma_words_of_parts_join(p, q.drop_last());
        assert((p + q).drop_last() =~= p + q.drop_last());
        assert((p + q).last() == q.last());
        let x = words_of_parts(p);
        let y = words_of_parts(q.drop_last());
        let z = nonempty_words(camel_words(q.last()));
        assert((x + y) + z =~= x + (y + z));
    }
}

proof fn lemma_nonempty_words_keep(ws: Seq<Seq<char>>)
    requires
        forall|k: int| 0 <= k < ws.len() ==> (#[trigger] ws[k]).len() > 0,
    ensures
        nonempty_words(ws) == ws,
    decreases ws.len(),
{
    if ws.len() > 0 {
        assert(ws.last() == ws[ws.len() - 1]);
        lemma_nonempty_words_keep(ws.drop_last());
        assert(ws.drop_last().push(ws.last()) =~= ws);
    }
}

proof fn lemma_split_by_none(s: Seq<char>, seps: Seq<char>)
    requires
        forall|i: int| 0 <= i < s.len() ==> !seps.contains(#[trigger] s[i]),
    ensures
        split_by(s, seps) == seq![s],
    decreases s.len(),
{
    if s.len() > 0 {
        lemma_split_by_none(s.drop_last(), seps);
        assert(s.last() == s[s.len() - 1]);
        assert(s.drop_last().push(s.last()) =~= s);
        let init = seq![s.drop_last()];
        assert(init.len() - 1 == 0 && init.last() == s.drop_last());
        assert(init.update(0, s.drop_last().push(s.last())) =~= seq![s]);
    } else {
        assert(s =~= Seq::<char>::empty());
    }
}

/// An underscore cuts an identifier in two: the words of `a`, an
/// underscore and `b` are the words of `a`, then those of `b`.
pub proof fn lemma_code_words_underscore(a: Seq<char>, b: Seq<char>)
    ensures
        code_words(a.push('_') + b) == code_words(a) + code_words(b),
{
    assert(seq!['_'].contains('_')) by {
        assert(seq!['_'][0] == '_');
    }
    lemma_split_by_join(a, b, seq!['_'], '_');
    lemma_words_of_parts_join(split_by(a, seq!['_']), split_by(b, seq!['_']));
}

/// Without an underscore, the words of an identifier are its camelCase
/// words.
pub proof fn lemma_code_words_plain(s: Seq<char>)
    requires
        !s.contains('_'),
    ensures
        code_words(s) == camel_words(s),
{
    assert forall|i: int| 0 <= i < s.len() implies !seq!['_'].contains(#[trigger] s[i]) by {
        if seq!['_'].contains(s[i]) {
            let j = choose|j: int| 0 <= j < 1 && seq!['_'][j] == s[i];
            assert(s.contains(s[i]));
        }
    }
    lemma_split_by_none(s, seq!['_']);
    let ps = seq![s];
    assert(ps.drop_last() =~= Seq::<Seq<char>>::empty());
    assert(ps.last() == s);
    assert(code_words(s) == words_of_parts(ps));
    assert(words_of_parts(Seq::<Seq<char>>::empty()) == Seq::<Seq<char>>::empty());
    lemma_camel_words_shape(s);
    if s.len() == 0 {
        reveal_with_fuel(camel_scan, 1);
        assert(camel_words(s) =~= Seq::<Seq<char>>::empty());
    } else {
        lemma_nonempty_words_keep(camel_words(s));
        assert(Seq::<Seq<char>>::empty() + camel_words(s) =~= camel_words(s));
    }
}

} // verus!
