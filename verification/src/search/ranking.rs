//! What the ranking reads of a file name: how many query tokens its stem
//! contains, and whether the stem is the query itself. The weighting of
//! these counts into a score is done in floating point by the caller.

use vstd::prelude::*;
use crate::text::{chars_of, lowercase, split_by, split_chars, to_lowercase};

verus! {

/// Whether `needle` occurs in `hay` (the empty text occurs everywhere).
pub open spec fn occurs_in(hay: Seq<char>, needle: Seq<char>) -> bool {
    exists|i: int| 0 <= i && i + needle.len() <= hay.len() && #[trigger] hay.subrange(i, i + needle.len()) == needle
}

/// The stem of a file name: its lowercase form up to the first `.`.
pub open spec fn name_stem(filename: Seq<char>) -> Seq<char> {
    split_by(lowercase(filename), seq!['.'])[0]
}

/// How many of the tokens `ts` occur, in lowercase, in `stem`.
pub open spec fn count_in_stem(ts: Seq<Seq<char>>, stem: Seq<char>) -> nat
    decreases ts.len(),
{
    if ts.len() == 0 {
        0
    } else {
        count_in_stem(ts.drop_last(), stem) + if occurs_in(stem, lowercase(ts.last())) { 1nat } else { 0nat }
    }
}

/// The tokens `ts` put together.
pub open spec fn joined(ts: Seq<Seq<char>>) -> Seq<char>
    decreases ts.len(),
{
    if ts.len() == 0 { Seq::empty() } else { joined(ts.drop_last()) + ts.last() }
}

/// What a file name offers a query: the number of query tokens, how many
/// of them its stem contains, and whether the stem is the query tokens put
/// together (with at least one match).
#[derive(Debug, Clone, Copy, PartialEq, Eq, Structural)]
pub struct FilenameMatch {
    pub matched: usize,
    pub total: usize,
    pub exact: bool,
}

/// Whether `needle` occurs in `hay`, computed.
pub fn contains_text(hay: &[char], needle: &[char]) -> (res: bool)
    ensures
        res == occurs_in(hay@, needle@),
{
    if needle.len() > hay.len() {
        proof {
            if occurs_in(hay@, needle@) {
                let i = choose|i: int| 0 <= i && i + needle@.len() <= hay@.len() && #[trigger] hay@.subrange(i, i + needle@.len()) == needle@;
            }
        }
        return false;
    }
    let n: usize = hay.len();
    let last = n - needle.len();
    let mut i: usize = 0;
    while i <= last
        invariant
            last == hay@.len() - needle@.len(),
            n == hay@.len(),
            needle@.len() <= hay@.len(),
            forall|j: int| 0 <= j < i ==> #[trigger] hay@.subrange(j, j + needle@.len()) != needle@,
        decreases last + 1 - i,
    {
        let mut k: usize = 0;
        let mut same = true;
        while k < needle.len()
            invariant
                0 <= k <= needle@.len(),
                i <= last,
                n == hay@.len(),
                last == hay@.len() - needle@.len(),
                same == forall|j: int| 0 <= j < k ==> needle@[j] == hay@[i + j],
            decreases needle@.len() - k,
        {
            if needle[k] != hay[i + k] {
                same = false;
            }
            k = k + 1;
        }
        if same {
            assert(hay@.subrange(i as int, i + needle@.len()) =~= needle@);
            return true;
        }
        proof {
            let j = choose|j: int| 0 <= j < k && needle@[j] != hay@[i + j];
            assert(hay@.subrange(i as int, i + needle@.len())[j] == hay@[i + j]);
        }
        if i == last {
            proof {
                if occurs_in(hay@, needle@) {
                    let j = choose|j: int| 0 <= j && j + needle@.len() <= hay@.len() && #[trigger] hay@.subrange(j, j + needle@.len()) == needle@;
                    assert(j <= i);
                }
            }
            return false;
        }
        i = i + 1;
    }
    false
}

/// What the file name `filename` offers the query tokens `query_tokens`.
pub fn filename_match(query_tokens: &[&str], filename: &str) -> (res: FilenameMatch)
    ensures
        res.total == query_tokens@.len(),
        res.matched == count_in_stem(query_tokens@.map_values(|t: &str| t@), name_stem(filename@)),
        res.exact == (res.matched > 0 && name_stem(filename@) == joined(query_tokens@.map_values(|t: &str| t@))),
{
    let ghost ts = query_tokens@.map_values(|t: &str| t@);
    let lower = to_lowercase(filename);
    let lower_chars = chars_of(lower.as_str());
    let pieces = split_chars(&lower_chars, &['.']);
    assert(seq!['.'] =~= ['.']@);
    proof {
        crate::text::lemma_split_by_nonempty(lower@, seq!['.']);
    }
    let stem = &pieces[0];
    assert(stem@ == name_stem(filename@));
    let mut matched: usize = 0;
    let mut all: Vec<char> = Vec::new();
    let mut i: usize = 0;
    while i < query_tokens.len()
        invariant
            0 <= i <= query_tokens@.len(),
            ts == query_tokens@.map_values(|t: &str| t@),
            stem@ == name_stem(filename@),
            matched == count_in_stem(ts.take(i as int), stem@),
            matched <= i,
            all@ == joined(ts.take(i as int)),
        decreases query_tokens@.len() - i,
    {
        assert(ts.take(i + 1).drop_last() =~= ts.take(i as int));
        assert(ts.take(i + 1).last() == query_tokens@[i as int]@);
        let token = query_tokens[i];
        let token_lower = to_lowercase(token);
        if contains_text(stem, &chars_of(token_lower.as_str())) {
            matched = matched + 1;
        }
        let token_chars = chars_of(token);
        let ghost before = all@;
        let mut k: usize = 0;
        while k < token_chars.len()
            invariant
                0 <= k <= token_chars@.len(),
                all@ == before + token_chars@.take(k as int),
            decreases token_chars@.len() - k,
        {
            all.push(token_chars[k]);
            k = k + 1;
            assert(all@ =~= before + token_chars@.take(k as int));
        }
        assert(token_chars@.take(k as int) =~= token_chars@);
        i = i + 1;
    }
    assert(ts.take(i as int) =~= ts);
    let exact = matched > 0 && crate::text::same_text(string_of_chars(stem).as_str(), string_of_chars(&all).as_str());
    FilenameMatch { matched, total: query_tokens.len(), exact }
}

fn string_of_chars(v: &[char]) -> (res: String)
    ensures
        res@ == v@,
{
    crate::text::string_of(v)
}

/// No more tokens match than there are.
pub proof fn lemma_matched_at_most_total(ts: Seq<Seq<char>>, stem: Seq<char>)
    ensures
        count_in_stem(ts, stem) <= ts.len(),
    decreases ts.len(),
{
    if ts.len() > 0 {
        lemma_matched_at_most_total(ts.drop_last(), stem);
    }
}

/// Putting together two runs of tokens puts their texts together.
pub proof fn lemma_joined_concat(a: Seq<Seq<char>>, b: Seq<Seq<char>>)
    ensures
        joined(a + b) == joined(a) + joined(b),
    decreases b.len(),
{
    if b.len() == 0 {
        assert(a + b =~= a);
        assert(joined(a) + Seq::<char>::empty() =~= joined(a));
    } else {
        lemma_joined_concat(a, b.drop_last());
        assert((a + b).drop_last() =~= a + b.drop_last());
        assert((a + b).last() == b.last());
        assert((joined(a) + joined(b.drop_last())) + b.last() =~= joined(a) + (joined(b.drop_last()) + b.last()));
    }
}

/// One token put together is itself.
pub proof fn lemma_joined_single(t: Seq<char>)
    ensures
        joined(seq![t]) == t,
{
    reveal_with_fuel(joined, 2);
    assert(seq![t].drop_last() =~= Seq::<Seq<char>>::empty());
    assert(seq![t].last() == t);
    assert(Seq::<char>::empty() + t =~= t);
}

/// The tokens put together hold every token, in order: the characters of
/// the `k`-th token stand right after those of the tokens before it.
pub proof fn lemma_joined_places(ts: Seq<Seq<char>>)
    ensures
        forall|k: int| 0 <= k < ts.len() ==> joined(ts).subrange(
            joined(ts.take(k)).len() as int,
            (joined(ts.take(k)).len() + (#[trigger] ts[k]).len()) as int,
        ) == ts[k],
{
    assert forall|k: int| 0 <= k < ts.len() implies joined(ts).subrange(
        joined(ts.take(k)).len() as int,
        (joined(ts.take(k)).len() + (#[trigger] ts[k]).len()) as int,
    ) == ts[k] by {
        assert(ts =~= ts.take(k) + (seq![ts[k]] + ts.skip(k + 1)));
        lemma_joined_concat(ts.take(k), seq![ts[k]] + ts.skip(k + 1));
        lemma_joined_concat(seq![ts[k]], ts.skip(k + 1));
        lemma_joined_single(ts[k]);
        let p = joined(ts.take(k));
        let q = joined(ts.skip(k + 1));
        assert(joined(ts) == p + (ts[k] + q));
        assert((p + (ts[k] + q)).subrange(p.len() as int, (p.len() + ts[k].len()) as int) =~= ts[k]);
    }
}

} // verus!
