//! The query language: free text, quoted phrases and the filters `ext:`,
//! `path:`, `size:>N` and `modified:>YYYY-MM-DD`. A query string is planned
//! here into the text handed to the full-text parser and the filters that
//! restrict its hits.

use vstd::prelude::*;
use crate::number::{parse_u64, u64_text};
use crate::search::date::{date_overflows, date_seconds, parse_date};
use crate::text::{chars_of, has_prefix, is_whitespace, string_of, suffix_from, whitespace_char};

verus! {

/// The token that `cur` makes when it ends: none if it is empty.
pub open spec fn flush(cur: Seq<char>) -> Seq<Seq<char>> {
    if cur.len() > 0 { seq![cur] } else { Seq::empty() }
}

/// The tokens of `s`, scanned from a state in which `cur` has been read of
/// the current token and `in_phrase` tells whether that token is a quoted
/// phrase. Outside a phrase, whitespace ends a token and a quote starts a
/// phrase; inside one, everything up to and with the closing quote belongs
/// to it, and an unclosed phrase runs to the end of the input.
pub open spec fn scan_tokens(s: Seq<char>, cur: Seq<char>, in_phrase: bool) -> Seq<Seq<char>>
    decreases s.len(),
{
    if s.len() == 0 {
        flush(cur)
    } else {
        let c = s[0];
        let rest = s.skip(1);
        if in_phrase {
            if c == '"' {
                seq![cur.push(c)] + scan_tokens(rest, Seq::empty(), false)
            } else {
                scan_tokens(rest, cur.push(c), true)
            }
        } else if c == '"' {
            flush(cur) + scan_tokens(rest, seq!['"'], true)
        } else if whitespace_char(c) {
            flush(cur) + scan_tokens(rest, Seq::empty(), false)
        } else {
            scan_tokens(rest, cur.push(c), false)
        }
    }
}

/// The tokens of the query `s`: words split at whitespace, with quoted
/// phrases kept whole, quotes included.
pub open spec fn input_tokens(s: Seq<char>) -> Seq<Seq<char>> {
    scan_tokens(s, Seq::empty(), false)
}

/// The views of a vector of strings.
pub open spec fn string_views(v: Seq<String>) -> Seq<Seq<char>> {
    v.map_values(|t: String| t@)
}

proof fn lemma_skip_step(s: Seq<char>, i: int)
    requires
        0 <= i < s.len(),
    ensures
        s.skip(i)[0] == s[i],
        s.skip(i).skip(1) =~= s.skip(i + 1),
        s.skip(i).len() > 0,
{
}

/// Splits the query into tokens, keeping quoted phrases whole.
pub fn tokenize_input(input: &str) -> (res: Vec<String>)
    ensures
        string_views(res@) == input_tokens(input@),
{
    let s = chars_of(input);
    let mut tokens: Vec<String> = Vec::new();
    let mut cur: Vec<char> = Vec::new();
    let mut in_phrase = false;
    let mut i: usize = 0;
    assert(s@.skip(0) =~= s@);
    while i < s.len()
        invariant
            0 <= i <= s@.len(),
            s@ == input@,
            in_phrase ==> cur@.len() > 0,
            string_views(tokens@) + scan_tokens(s@.skip(i as int), cur@, in_phrase)
                == input_tokens(input@),
        decreases s@.len() - i,
    {
        let c = s[i];
        proof {
            lemma_skip_step(s@, i as int);
        }
        let ghost before = string_views(tokens@);
        if in_phrase {
            cur.push(c);
            if c == '"' {
                let t = string_of(&cur);
                tokens.push(t);
                cur = Vec::new();
                in_phrase = false;
                assert(string_views(tokens@) =~= before + seq![t@]);
            }
        } else if c == '"' {
            if cur.len() > 0 {
                let t = string_of(&cur);
                tokens.push(t);
                assert(string_views(tokens@) =~= before + seq![t@]);
            } else {
                assert(string_views(tokens@) =~= before + Seq::<Seq<char>>::empty());
            }
            cur = Vec::new();
            cur.push(c);
            in_phrase = true;
            assert(cur@ =~= seq!['"']);
        } else if is_whitespace(c) {
            if cur.len() > 0 {
                let t = string_of(&cur);
                tokens.push(t);
                assert(string_views(tokens@) =~= before + seq![t@]);
            } else {
                assert(string_views(tokens@) =~= before + Seq::<Seq<char>>::empty());
            }
            cur = Vec::new();
        } else {
            cur.push(c);
        }
        i = i + 1;
    }
    let ghost before = string_views(tokens@);
    if cur.len() > 0 {
        let t = string_of(&cur);
        tokens.push(t);
        assert(string_views(tokens@) =~= before + seq![t@]);
    } else {
        assert(string_views(tokens@) =~= before + Seq::<Seq<char>>::empty());
    }
    tokens
}

proof fn lemma_scan_tokens_nonempty(s: Seq<char>, cur: Seq<char>, in_phrase: bool)
    requires
        in_phrase ==> cur.len() > 0,
    ensures
        forall|k: int| 0 <= k < scan_tokens(s, cur, in_phrase).len() ==> (#[trigger] scan_tokens(s, cur, in_phrase)[k]).len() > 0,
    decreases s.len(),
{
    if s.len() > 0 {
        let c = s[0];
        let rest = s.skip(1);
        let all = scan_tokens(s, cur, in_phrase);
        let (head, next_cur, next_phrase): (Seq<Seq<char>>, Seq<char>, bool) = if in_phrase {
            if c == '"' { (seq![cur.push(c)], Seq::empty(), false) } else { (Seq::empty(), cur.push(c), true) }
        } else if c == '"' {
            (flush(cur), seq!['"'], true)
        } else if whitespace_char(c) {
            (flush(cur), Seq::empty(), false)
        } else {
            (Seq::empty(), cur.push(c), false)
        };
        lemma_scan_tokens_nonempty(rest, next_cur, next_phrase);
        let tail = scan_tokens(rest, next_cur, next_phrase);
        assert(all =~= head + tail);
        assert forall|k: int| 0 <= k < all.len() implies (#[trigger] all[k]).len() > 0 by {
            if k < head.len() {
                assert(all[k] == head[k]);
            } else {
                assert(all[k] == tail[k - head.len()]);
            }
        }
    }
}

/// No token of a query is empty.
pub proof fn lemma_input_tokens_nonempty(s: Seq<char>)
    ensures
        forall|k: int| 0 <= k < input_tokens(s).len() ==> (#[trigger] input_tokens(s)[k]).len() > 0,
{
    lemma_scan_tokens_nonempty(s, Seq::empty(), false);
}

/// Whether `t` is a plain word: neither whitespace nor a quote in it.
pub open spec fn plain_word(t: Seq<char>) -> bool {
    forall|i: int| 0 <= i < t.len() ==> !whitespace_char(#[trigger] t[i]) && t[i] != '"'
}

proof fn lemma_scan_tokens_shape(s: Seq<char>, cur: Seq<char>, in_phrase: bool)
    requires
        in_phrase ==> cur.len() > 0 && cur[0] == '"',
        !in_phrase ==> plain_word(cur),
    ensures
        forall|k: int| 0 <= k < scan_tokens(s, cur, in_phrase).len() ==> {
            let t = #[trigger] scan_tokens(s, cur, in_phrase)[k];
            (t.len() > 0 && t[0] == '"') || plain_word(t)
        },
    decreases s.len(),
{
    if s.len() > 0 {
        let c = s[0];
        let rest = s.skip(1);
        let all = scan_tokens(s, cur, in_phrase);
        let (head, next_cur, next_phrase): (Seq<Seq<char>>, Seq<char>, bool) = if in_phrase {
            if c == '"' { (seq![cur.push(c)], Seq::empty(), false) } else { (Seq::empty(), cur.push(c), true) }
        } else if c == '"' {
            (flush(cur), seq!['"'], true)
        } else if whitespace_char(c) {
            (flush(cur), Seq::empty(), false)
        } else {
            (Seq::empty(), cur.push(c), false)
        };
        assert(!next_phrase ==> plain_word(next_cur)) by {
            if !next_phrase && !in_phrase && !(c == '"') && !whitespace_char(c) {
                assert forall|i: int| 0 <= i < next_cur.len() implies !whitespace_char(#[trigger] next_cur[i]) && next_cur[i] != '"' by {
                    if i < cur.len() {
                        assert(next_cur[i] == cur[i]);
                    }
                }
            }
        }
        lemma_scan_tokens_shape(rest, next_cur, next_phrase);
        let tail = scan_tokens(rest, next_cur, next_phrase);
        assert(all =~= head + tail);
        assert forall|k: int| 0 <= k < all.len() implies {
            let t = #[trigger] all[k];
            (t.len() > 0 && t[0] == '"') || plain_word(t)
        } by {
            if k < head.len() {
                assert(all[k] == head[k]);
            } else {
                assert(all[k] == tail[k - head.len()]);
            }
        }
    }
}

/// Every token of a query is a quoted phrase, starting with its quote, or a
/// plain word, with neither whitespace nor a quote in it.
pub proof fn lemma_input_tokens_shape(s: Seq<char>)
    ensures
        forall|k: int| 0 <= k < input_tokens(s).len() ==> {
            let t = #[trigger] input_tokens(s)[k];
            (t.len() > 0 && t[0] == '"') || plain_word(t)
        },
{
    lemma_scan_tokens_shape(s, Seq::empty(), false);
}

/// The characters that `escape_regex` escapes: the regular-expression
/// metacharacters and `/`.
pub open spec fn regex_special(c: char) -> bool {
    c == '\\' || c == '.' || c == '*' || c == '+' || c == '?' || c == '|' || c == '['
        || c == ']' || c == '{' || c == '}' || c == '(' || c == ')' || c == '^' || c == '$'
        || c == '/'
}

/// `s` with a backslash put before every special character.
pub open spec fn escaped(s: Seq<char>) -> Seq<char>
    decreases s.len(),
{
    if s.len() == 0 {
        Seq::empty()
    } else {
        (if regex_special(s[0]) { seq!['\\', s[0]] } else { seq![s[0]] }) + escaped(s.skip(1))
    }
}

/// Reading an escaped string back: a backslash stands for the character
/// after it.
pub open spec fn unescaped(s: Seq<char>) -> Seq<char>
    decreases s.len(),
{
    if s.len() == 0 {
        Seq::empty()
    } else if s[0] == '\\' && s.len() >= 2 {
        seq![s[1]] + unescaped(s.skip(2))
    } else {
        seq![s[0]] + unescaped(s.skip(1))
    }
}

/// Escaping loses nothing: reading the escaped text back gives the text.
pub proof fn lemma_unescape_escaped(s: Seq<char>)
    ensures
        unescaped(escaped(s)) == s,
    decreases s.len(),
{
    if s.len() > 0 {
        lemma_unescape_escaped(s.skip(1));
        let e = escaped(s);
        if regex_special(s[0]) {
            assert(e.skip(2) =~= escaped(s.skip(1)));
            assert(e[0] == '\\' && e[1] == s[0]);
        } else {
            assert(e.skip(1) =~= escaped(s.skip(1)));
            assert(e[0] == s[0]);
        }
        assert(s =~= seq![s[0]] + s.skip(1));
    }
}

/// Puts a backslash before every regular-expression metacharacter and `/`.
pub fn escape_regex(s: &[char]) -> (res: Vec<char>)
    ensures
        res@ == escaped(s@),
{
    let mut out: Vec<char> = Vec::new();
    let mut i: usize = 0;
    assert(s@.skip(0) =~= s@);
    while i < s.len()
        invariant
            0 <= i <= s@.len(),
            out@ + escaped(s@.skip(i as int)) == escaped(s@),
        decreases s@.len() - i,
    {
        let c = s[i];
        proof {
            lemma_skip_step(s@, i as int);
        }
        let ghost before = out@;
        let special = c == '\\' || c == '.' || c == '*' || c == '+' || c == '?' || c == '|'
            || c == '[' || c == ']' || c == '{' || c == '}' || c == '(' || c == ')' || c == '^'
            || c == '$' || c == '/';
        if special {
            out.push('\\');
            out.push(c);
            assert(out@ =~= before + seq!['\\', c]);
        } else {
            out.push(c);
            assert(out@ =~= before + seq![c]);
        }
        assert(before + escaped(s@.skip(i as int)) =~= out@ + escaped(s@.skip(i + 1)));
        i = i + 1;
    }
    assert(s@.skip(i as int) =~= Seq::<char>::empty());
    assert(out@ + Seq::<char>::empty() =~= out@);
    out
}

/// A filter of a planned query.
#[derive(Debug, Clone, PartialEq, Eq)]
pub enum QueryFilter {
    /// `ext:E`: the extension field holds exactly `E`.
    Extension(String),
    /// `path:P`: the path field matches this regular expression, which is
    /// `P` escaped and followed by `.*`.
    PathPattern(String),
    /// `size:>N`: the size in bytes is greater than `N`.
    SizeAbove(u64),
    /// `modified:>D`: the modification time, in seconds since the Unix
    /// epoch, is at least that of midnight starting day `D`.
    ModifiedSince(i64),
}

/// A filter as plain values.
pub enum FilterView {
    Extension(Seq<char>),
    PathPattern(Seq<char>),
    SizeAbove(u64),
    ModifiedSince(i64),
}

impl View for QueryFilter {
    type V = FilterView;

    open spec fn view(&self) -> FilterView {
        match self {
            QueryFilter::Extension(e) => FilterView::Extension(e@),
            QueryFilter::PathPattern(p) => FilterView::PathPattern(p@),
            QueryFilter::SizeAbove(n) => FilterView::SizeAbove(*n),
            QueryFilter::ModifiedSince(t) => FilterView::ModifiedSince(*t),
        }
    }
}

/// What a token of the query does in the plan.
pub enum TokenRole {
    /// It is handed on to the full-text parser.
    Text,
    /// It becomes this filter.
    Filter(FilterView),
    /// It is dropped: a size or date filter whose value does not read.
    Ignored,
}

/// The value of `size:` filters: `>` then a `u64`.
pub open spec fn size_bound(expr: Seq<char>) -> Option<u64> {
    if expr.len() > 0 && expr[0] == '>' { u64_text(expr.skip(1)) } else { None }
}

/// The value of `modified:` filters: `>` then a date.
pub open spec fn modified_bound(expr: Seq<char>) -> Option<i64> {
    if expr.len() > 0 && expr[0] == '>' { date_seconds(expr.skip(1)) } else { None }
}

/// The role of the token `t`, by its prefix, tried in the order `ext:`,
/// `path:`, `size:`, `modified:`.
pub open spec fn token_role(t: Seq<char>) -> TokenRole {
    if "ext:"@.is_prefix_of(t) {
        TokenRole::Filter(FilterView::Extension(t.skip("ext:"@.len() as int)))
    } else if "path:"@.is_prefix_of(t) {
        TokenRole::Filter(
            FilterView::PathPattern(escaped(t.skip("path:"@.len() as int)) + ".*"@),
        )
    } else if "size:"@.is_prefix_of(t) {
        match size_bound(t.skip("size:"@.len() as int)) {
            Some(n) => TokenRole::Filter(FilterView::SizeAbove(n)),
            None => TokenRole::Ignored,
        }
    } else if "modified:"@.is_prefix_of(t) {
        match modified_bound(t.skip("modified:"@.len() as int)) {
            Some(ts) => TokenRole::Filter(FilterView::ModifiedSince(ts)),
            None => TokenRole::Ignored,
        }
    } else {
        TokenRole::Text
    }
}

/// Whether the token `t` is a `modified:` filter whose date overflows.
pub open spec fn token_overflows(t: Seq<char>) -> bool {
    &&& !"ext:"@.is_prefix_of(t)
    &&& !"path:"@.is_prefix_of(t)
    &&& !"size:"@.is_prefix_of(t)
    &&& "modified:"@.is_prefix_of(t)
    &&& {
        let expr = t.skip("modified:"@.len() as int);
        expr.len() > 0 && expr[0] == '>' && date_overflows(expr.skip(1))
    }
}

/// Whether planning `input` overflows: one of its tokens is a date filter
/// for day 0 of March.
pub open spec fn plan_overflows(input: Seq<char>) -> bool {
    exists|i: int| 0 <= i < input_tokens(input).len() && token_overflows(#[trigger] input_tokens(input)[i])
}

/// The tokens of `ts` that go to the full-text parser, in order.
pub open spec fn text_tokens(ts: Seq<Seq<char>>) -> Seq<Seq<char>>
    decreases ts.len(),
{
    if ts.len() == 0 {
        Seq::empty()
    } else {
        let init = text_tokens(ts.drop_last());
        match token_role(ts.last()) {
            TokenRole::Text => init.push(ts.last()),
            _ => init,
        }
    }
}

/// The filters that the tokens `ts` make, in order.
pub open spec fn filter_views(ts: Seq<Seq<char>>) -> Seq<FilterView>
    decreases ts.len(),
{
    if ts.len() == 0 {
        Seq::empty()
    } else {
        let init = filter_views(ts.drop_last());
        match token_role(ts.last()) {
            TokenRole::Filter(f) => init.push(f),
            _ => init,
        }
    }
}

/// The words `ws` joined by single spaces.
pub open spec fn join_words(ws: Seq<Seq<char>>) -> Seq<char>
    decreases ws.len(),
{
    if ws.len() == 0 {
        Seq::empty()
    } else if ws.len() == 1 {
        ws[0]
    } else {
        join_words(ws.drop_last()) + seq![' '] + ws.last()
    }
}

/// A query without filter tokens is all text: every token goes to the
/// full-text parser, in order, and there is no filter.
pub proof fn lemma_text_only_query(ts: Seq<Seq<char>>)
    requires
        forall|k: int| 0 <= k < ts.len() ==> (token_role(#[trigger] ts[k]) is Text),
    ensures
        text_tokens(ts) == ts,
        filter_views(ts) == Seq::<FilterView>::empty(),
    decreases ts.len(),
{
    if ts.len() > 0 {
        let init = ts.drop_last();
        assert forall|k: int| 0 <= k < init.len() implies (token_role(#[trigger] init[k]) is Text) by {
            assert(init[k] == ts[k]);
        }
        lemma_text_only_query(init);
        assert(token_role(ts[ts.len() - 1]) is Text);
        assert(init.push(ts.last()) =~= ts);
    }
}

/// A size or date filter whose value does not read adds nothing to the
/// plan: dropping such a token from the query's tokens leaves the text
/// tokens and the filters as they were.
pub proof fn lemma_ignored_token_changes_nothing(ts: Seq<Seq<char>>, k: int)
    requires
        0 <= k < ts.len(),
        token_role(ts[k]) is Ignored,
    ensures
        text_tokens(ts.remove(k)) == text_tokens(ts),
        filter_views(ts.remove(k)) == filter_views(ts),
    decreases ts.len(),
{
    let n = ts.len() - 1;
    if k == n {
        assert(ts.remove(k) =~= ts.drop_last());
    } else {
        let r = ts.remove(k);
        assert(r.drop_last() =~= ts.drop_last().remove(k));
        assert(r.last() == ts.last());
        assert(ts.drop_last()[k] == ts[k]);
        lemma_ignored_token_changes_nothing(ts.drop_last(), k);
    }
}

/// Whether `path` matches the pattern of a `path:P` filter, which is `P`
/// escaped and followed by `.*`, matched against the whole path: the path
/// starts with `P` and no line break follows (`.` does not match one). The
/// library reads a path pattern as the plans write it: one of another form
/// admits no path here.
pub open spec fn path_pattern_admits(pattern: Seq<char>, path: Seq<char>) -> bool {
    exists|p: Seq<char>| #![trigger escaped(p)]
        pattern == escaped(p) + ".*"@ && p.is_prefix_of(path) && !path.skip(p.len() as int).contains('\n')
}

/// Whether a document with this extension, path, size in bytes and
/// modification time (seconds since the Unix epoch) passes the filter `f`:
/// the extension is exactly `E`; the path matches the pattern; the size is
/// greater than `N`; the modification time is that of `D` or later.
pub open spec fn filter_admits(f: FilterView, extension: Seq<char>, path: Seq<char>, size_bytes: u64, modified_at: i64) -> bool {
    match f {
        FilterView::Extension(e) => extension == e,
        FilterView::PathPattern(q) => path_pattern_admits(q, path),
        FilterView::SizeAbove(n) => size_bytes > n,
        FilterView::ModifiedSince(t) => modified_at >= t,
    }
}

/// Reads escaped text back (see `unescaped`).
fn unescape_regex(s: &[char]) -> (res: Vec<char>)
    ensures
        res@ == unescaped(s@),
{
    let mut out: Vec<char> = Vec::new();
    let mut i: usize = 0;
    assert(s@.skip(0) =~= s@);
    assert(out@ + unescaped(s@) =~= unescaped(s@));
    while i < s.len()
        invariant
            0 <= i <= s@.len(),
            unescaped(s@) == out@ + unescaped(s@.skip(i as int)),
        decreases s@.len() - i,
    {
        let ghost rest = s@.skip(i as int);
        if s[i] == '\\' && i + 1 < s.len() {
            assert(rest.skip(2) =~= s@.skip(i + 2));
            assert(unescaped(rest) == seq![s@[i + 1]] + unescaped(rest.skip(2)));
            out.push(s[i + 1]);
            i = i + 2;
        } else {
            assert(rest.skip(1) =~= s@.skip(i + 1));
            assert(unescaped(rest) == seq![s@[i as int]] + unescaped(rest.skip(1)));
            out.push(s[i]);
            i = i + 1;
        }
        assert(unescaped(s@) =~= out@ + unescaped(s@.skip(i as int)));
    }
    assert(s@.skip(i as int) =~= Seq::<char>::empty());
    assert(out@ + Seq::<char>::empty() =~= out@);
    out
}

/// Whether `c` occurs in `v` from index `start` on.
fn occurs_from(v: &[char], start: usize, c: char) -> (res: bool)
    requires
        start <= v@.len(),
    ensures
        res == v@.skip(start as int).contains(c),
{
    let mut i: usize = start;
    while i < v.len()
        invariant
            start <= i <= v@.len(),
            forall|j: int| start <= j < i ==> v@[j] != c,
        decreases v@.len() - i,
    {
        if v[i] == c {
            assert(v@.skip(start as int)[i - start] == c);
            return true;
        }
        i = i + 1;
    }
    assert forall|k: int| 0 <= k < v@.skip(start as int).len() implies v@.skip(start as int)[k] != c by {
        assert(v@.skip(start as int)[k] == v@[start + k]);
    }
    false
}

/// Whether `path` matches the path pattern `pattern` (see
/// `path_pattern_admits`).
fn path_pattern_matches(pattern: &[char], path: &[char]) -> (res: bool)
    ensures
        res == path_pattern_admits(pattern@, path@),
{
    let n = pattern.len();
    if n < 2 || pattern[n - 2] != '.' || pattern[n - 1] != '*' {
        proof {
            reveal_strlit(".*");
            if path_pattern_admits(pattern@, path@) {
                let p = choose|p: Seq<char>| #![trigger escaped(p)]
                    pattern@ == escaped(p) + ".*"@ && p.is_prefix_of(path@) && !path@.skip(p.len() as int).contains('\n');
                assert(pattern@[n - 2] == (escaped(p) + ".*"@)[escaped(p).len() as int]);
            }
        }
        return false;
    }
    let mut body: Vec<char> = Vec::new();
    let mut i: usize = 0;
    while i < n - 2
        invariant
            n == pattern@.len(),
            n >= 2,
            0 <= i <= n - 2,
            body@ == pattern@.take(i as int),
        decreases n - 2 - i,
    {
        body.push(pattern[i]);
        i = i + 1;
        assert(body@ =~= pattern@.take(i as int));
    }
    let p = unescape_regex(&body);
    let e = escape_regex(&p);
    proof {
        reveal_strlit(".*");
        assert(pattern@ =~= body@ + ".*"@);
    }
    if e.len() != body.len() || !has_prefix(&body, &e) {
        proof {
            if path_pattern_admits(pattern@, path@) {
                let q = choose|q: Seq<char>| #![trigger escaped(q)]
                    pattern@ == escaped(q) + ".*"@ && q.is_prefix_of(path@) && !path@.skip(q.len() as int).contains('\n');
                assert(escaped(q) =~= body@) by {
                    assert(pattern@.take(n - 2) =~= escaped(q));
                }
                lemma_unescape_escaped(q);
                assert(e@ =~= body@);
            }
        }
        return false;
    }
    assert(e@ =~= body@);
    let prefix_ok = has_prefix(path, &p);
    if !prefix_ok {
        proof {
            if path_pattern_admits(pattern@, path@) {
                let q = choose|q: Seq<char>| #![trigger escaped(q)]
                    pattern@ == escaped(q) + ".*"@ && q.is_prefix_of(path@) && !path@.skip(q.len() as int).contains('\n');
                assert(escaped(q) =~= body@) by {
                    assert(pattern@.take(n - 2) =~= escaped(q));
                }
                lemma_unescape_escaped(q);
            }
        }
        return false;
    }
    let broken = occurs_from(path, p.len(), '\n');
    proof {
        if broken {
            if path_pattern_admits(pattern@, path@) {
                let q = choose|q: Seq<char>| #![trigger escaped(q)]
                    pattern@ == escaped(q) + ".*"@ && q.is_prefix_of(path@) && !path@.skip(q.len() as int).contains('\n');
                assert(escaped(q) =~= body@) by {
                    assert(pattern@.take(n - 2) =~= escaped(q));
                }
                lemma_unescape_escaped(q);
            }
        } else {
            assert(pattern@ == escaped(p@) + ".*"@);
        }
    }
    !broken
}

impl QueryFilter {
    /// Whether a document with this extension, path, size in bytes and
    /// modification time passes the filter (see `filter_admits`).
    pub fn admits(&self, extension: &str, path: &str, size_bytes: u64, modified_at: i64) -> (res: bool)
        ensures
            res == filter_admits(self@, extension@, path@, size_bytes, modified_at),
    {
        match self {
            QueryFilter::Extension(e) => crate::text::same_text(extension, e.as_str()),
            QueryFilter::PathPattern(q) => path_pattern_matches(&chars_of(q.as_str()), &chars_of(path)),
            QueryFilter::SizeAbove(n) => size_bytes > *n,
            QueryFilter::ModifiedSince(t) => modified_at >= *t,
        }
    }
}

/// A query split into the text for the full-text parser and the filters
/// that every hit must also pass.
#[derive(Debug, Clone, PartialEq, Eq)]
pub struct QueryPlan {
    pub text: String,
    pub filters: Vec<QueryFilter>,
}

/// The filters of a plan as plain values.
pub open spec fn filters_view(fs: Seq<QueryFilter>) -> Seq<FilterView> {
    fs.map_values(|f: QueryFilter| f@)
}

/// Reads the value of a `size:` filter.
fn parse_size_bound(expr: &[char]) -> (res: Option<u64>)
    ensures
        res == size_bound(expr@),
{
    if expr.len() > 0 && expr[0] == '>' {
        parse_u64(&suffix_from(expr, 1))
    } else {
        None
    }
}

/// Whether the date after `>` in a `modified:` filter overflows.
fn modified_overflows(expr: &[char]) -> (res: bool)
    ensures
        res == (expr@.len() > 0 && expr@[0] == '>' && date_overflows(expr@.skip(1))),
{
    if expr.len() > 0 && expr[0] == '>' {
        crate::search::date::date_overflow_check(&suffix_from(expr, 1))
    } else {
        false
    }
}

/// Reads the value of a `modified:` filter.
fn parse_modified_bound(expr: &[char]) -> (res: Option<i64>)
    requires
        !(expr@.len() > 0 && expr@[0] == '>' && date_overflows(expr@.skip(1))),
    ensures
        res == modified_bound(expr@),
{
    if expr.len() > 0 && expr[0] == '>' {
        parse_date(&suffix_from(expr, 1))
    } else {
        None
    }
}

/// The role of one token, computed.
fn classify(t: &[char]) -> (res: Option<QueryFilter>)
    requires
        !token_overflows(t@),
    ensures
        match token_role(t@) {
            TokenRole::Text => res is None,
            TokenRole::Filter(f) => res matches Some(q) && q@ == f,
            TokenRole::Ignored => res is None,
        },
{
    let ext = chars_of("ext:");
    let path = chars_of("path:");
    let size = chars_of("size:");
    let modified = chars_of("modified:");
    if has_prefix(t, &ext) {
        Some(QueryFilter::Extension(string_of(&suffix_from(t, ext.len()))))
    } else if has_prefix(t, &path) {
        let mut pattern = escape_regex(&suffix_from(t, path.len()));
        let ghost before = pattern@;
        pattern.push('.');
        pattern.push('*');
        proof {
            reveal_strlit(".*");
        }
        assert(pattern@ =~= before + ".*"@);
        Some(QueryFilter::PathPattern(string_of(&pattern)))
    } else if has_prefix(t, &size) {
        match parse_size_bound(&suffix_from(t, size.len())) {
            Some(n) => Some(QueryFilter::SizeAbove(n)),
            None => None,
        }
    } else if has_prefix(t, &modified) {
        match parse_modified_bound(&suffix_from(t, modified.len())) {
            Some(ts) => Some(QueryFilter::ModifiedSince(ts)),
            None => None,
        }
    } else {
        None
    }
}

/// Whether `t` is a text token, computed.
fn is_text_token(t: &[char]) -> (res: bool)
    ensures
        res == (token_role(t@) is Text),
{
    let ext = chars_of("ext:");
    let path = chars_of("path:");
    let size = chars_of("size:");
    let modified = chars_of("modified:");
    !(has_prefix(t, &ext) || has_prefix(t, &path) || has_prefix(t, &size) || has_prefix(
        t,
        &modified,
    ))
}

/// Whether `t` overflows, computed.
fn token_overflow_check(t: &[char]) -> (res: bool)
    ensures
        res == token_overflows(t@),
{
    let ext = chars_of("ext:");
    let path = chars_of("path:");
    let size = chars_of("size:");
    let modified = chars_of("modified:");
    if has_prefix(t, &ext) || has_prefix(t, &path) || has_prefix(t, &size) {
        false
    } else if has_prefix(t, &modified) {
        modified_overflows(&suffix_from(t, modified.len()))
    } else {
        false
    }
}

/// Whether planning `input` would overflow (see `plan_overflows`).
pub fn query_overflows(input: &str) -> (res: bool)
    ensures
        res == plan_overflows(input@),
{
    let tokens = tokenize_input(input);
    let mut i: usize = 0;
    while i < tokens.len()
        invariant
            0 <= i <= tokens@.len(),
            string_views(tokens@) == input_tokens(input@),
            forall|j: int| 0 <= j < i ==> !token_overflows(#[trigger] input_tokens(input@)[j]),
        decreases tokens@.len() - i,
    {
        let t = chars_of(tokens[i].as_str());
        assert(string_views(tokens@)[i as int] == tokens@[i as int]@);
        if token_overflow_check(&t) {
            return true;
        }
        i = i + 1;
    }
    false
}

impl QueryPlan {
    /// Plans the query `input`: every `ext:`, `path:`, `size:` and
    /// `modified:` token becomes a filter (or is dropped when its value does
    /// not read), and the other tokens, joined by spaces, make the text.
    pub fn parse(input: &str) -> (res: QueryPlan)
        requires
            !plan_overflows(input@),
        ensures
            res.text@ == join_words(text_tokens(input_tokens(input@))),
            filters_view(res.filters@) == filter_views(input_tokens(input@)),
    {
        let tokens = tokenize_input(input);
        let ghost ts = input_tokens(input@);
        let mut text: Vec<char> = Vec::new();
        let mut n_text: usize = 0;
        let mut filters: Vec<QueryFilter> = Vec::new();
        let mut i: usize = 0;
        while i < tokens.len()
            invariant
                0 <= i <= tokens@.len(),
                string_views(tokens@) == ts,
                ts == input_tokens(input@),
                !plan_overflows(input@),
                text@ == join_words(text_tokens(ts.take(i as int))),
                n_text == text_tokens(ts.take(i as int)).len(),
                n_text <= i,
                filters_view(filters@) == filter_views(ts.take(i as int)),
            decreases tokens@.len() - i,
        {
            let t = chars_of(tokens[i].as_str());
            assert(string_views(tokens@)[i as int] == tokens@[i as int]@);
            assert(ts.take(i + 1).drop_last() =~= ts.take(i as int));
            assert(ts.take(i + 1).last() == t@);
            assert(!token_overflows(t@)) by {
                if token_overflows(t@) {
                    assert(token_overflows(input_tokens(input@)[i as int]));
                }
            }
            if is_text_token(&t) {
                let ghost before = text@;
                let ghost words = text_tokens(ts.take(i as int));
                if n_text > 0 {
                    text.push(' ');
                }
                let mut k: usize = 0;
                let ghost mid = text@;
                while k < t.len()
                    invariant
                        0 <= k <= t@.len(),
                        text@ == mid + t@.take(k as int),
                    decreases t@.len() - k,
                {
                    text.push(t[k]);
                    k = k + 1;
                    assert(text@ =~= mid + t@.take(k as int));
                }
                assert(t@.take(t@.len() as int) =~= t@);
                assert(words.push(t@).drop_last() =~= words);
                if n_text == 0 {
                    assert(before =~= Seq::<char>::empty());
                    assert(text@ =~= t@);
                }
                n_text = n_text + 1;
            } else {
                let f = classify(&t);
                match f {
                    Some(q) => {
                        let ghost before = filters_view(filters@);
                        filters.push(q);
                        assert(filters_view(filters@) =~= before.push(q@));
                    },
                    None => {},
                }
            }
            i = i + 1;
        }
        assert(ts.take(i as int) =~= ts);
        QueryPlan { text: string_of(&text), filters }
    }
}

} // verus!
