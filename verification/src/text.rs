//! String helpers shared by the modules of the crate: conversions between
//! strings and character vectors, splitting, prefixes and decimal numbers.

use vstd::prelude::*;

verus! {

/// Builds an owned string holding the characters of `s`.
pub fn owned(s: &str) -> (res: String)
    ensures
        res@ == s@,
{
    s.to_string()
}

/// The characters of `s`, in order (`str::chars`, collected).
#[verifier::external_body]
pub(crate) fn chars_of(s: &str) -> (res: Vec<char>)
    ensures
        res@ == s@,
{
    s.chars().collect()
}

/// The string made of the characters of `v`, in order (collected from an
/// iterator over the slice).
#[verifier::external_body]
pub(crate) fn string_of(v: &[char]) -> (res: String)
    ensures
        res@ == v@,
{
    v.iter().collect()
}

/// Concatenation of `a` and `b` into a new string.
pub fn concat(a: &str, b: &str) -> (res: String)
    ensures
        res@ == a@ + b@,
{
    let mut r = owned(a);
    r.append(b);
    r
}

/// Whether `a` and `b` hold the same characters.
pub fn same_text(a: &str, b: &str) -> (res: bool)
    ensures
        res == (a@ == b@),
{
    let x = chars_of(a);
    let y = chars_of(b);
    if x.len() != y.len() {
        return false;
    }
    let mut i: usize = 0;
    while i < x.len()
        invariant
            0 <= i <= x@.len(),
            x@.len() == y@.len(),
            x@ == a@,
            y@ == b@,
            forall|j: int| 0 <= j < i ==> x@[j] == y@[j],
        decreases x@.len() - i,
    {
        if x[i] != y[i] {
            assert(x@[i as int] != y@[i as int]);
            return false;
        }
        i = i + 1;
    }
    assert(x@ =~= y@);
    true
}

/// Whether `c` has the Unicode `White_Space` property, which holds of
/// tab, line feed, vertical tab, form feed, carriage return, space, next
/// line, no-break space, ogham space mark, the spaces from en quad to hair
/// space, line and paragraph separator, narrow no-break space, medium
/// mathematical space and ideographic space.
pub open spec fn whitespace_char(c: char) -> bool {
    let n = c as u32;
    ||| 0x09 <= n <= 0x0D
    ||| n == 0x20
    ||| n == 0x85
    ||| n == 0xA0
    ||| n == 0x1680
    ||| 0x2000 <= n <= 0x200A
    ||| n == 0x2028
    ||| n == 0x2029
    ||| n == 0x202F
    ||| n == 0x205F
    ||| n == 0x3000
}

/// Whether `c` has the `White_Space` property, which is what
/// `char::is_whitespace` tells.
pub(crate) fn is_whitespace(c: char) -> (res: bool)
    ensures
        res == whitespace_char(c),
{
    let n = c as u32;
    (0x09 <= n && n <= 0x0D) || n == 0x20 || n == 0x85 || n == 0xA0 || n == 0x1680
        || (0x2000 <= n && n <= 0x200A) || n == 0x2028 || n == 0x2029 || n == 0x202F
        || n == 0x205F || n == 0x3000
}

/// Name for what `char::is_uppercase` returns: whether `c` has the Unicode
/// `Uppercase` property.
pub uninterp spec fn uppercase_char(c: char) -> bool;

/// `char::is_uppercase`. The contract ties the result to `uppercase_char`,
/// and states the ASCII part of the `Uppercase` property.
#[verifier::external_body]
pub(crate) fn is_uppercase(c: char) -> (res: bool)
    ensures
        res == uppercase_char(c),
        ('A' <= c <= 'Z') ==> res,
        ('a' <= c <= 'z') || ('0' <= c <= '9') || c == '_' || c == '-' || c == '.' ==> !res,
{
    c.is_uppercase()
}

/// Name for what `str::to_lowercase` returns on a string with the
/// characters `s`.
pub uninterp spec fn lowercase(s: Seq<char>) -> Seq<char>;

/// Whether all the characters of `s` are ASCII.
pub open spec fn all_ascii(s: Seq<char>) -> bool {
    forall|i: int| 0 <= i < s.len() ==> (#[trigger] s[i] as u32) < 0x80
}

/// The ASCII lowercase of `c`: `A` to `Z` become `a` to `z`, the other
/// characters stay.
pub open spec fn ascii_lower(c: char) -> char {
    if 'A' <= c && c <= 'Z' { ((c as u32) + 0x20) as char } else { c }
}

/// `str::to_lowercase`: the string mapped to lowercase by the Unicode
/// `Lowercase` mapping, named by `lowercase`. Of the mapping, the contract
/// states the ASCII part: on an ASCII string it lowercases `A` to `Z` and
/// keeps the other characters. The rest of the mapping is not stated.
#[verifier::external_body]
pub(crate) fn to_lowercase(s: &str) -> (res: String)
    ensures
        res@ == lowercase(s@),
        all_ascii(s@) ==> res@ == s@.map_values(|c: char| ascii_lower(c)),
{
    s.to_lowercase()
}

/// Whether `p` is a prefix of `t`, computed.
pub fn has_prefix(t: &[char], p: &[char]) -> (res: bool)
    ensures
        res == p@.is_prefix_of(t@),
{
    if p.len() > t.len() {
        return false;
    }
    let mut i: usize = 0;
    while i < p.len()
        invariant
            p@.len() <= t@.len(),
            0 <= i <= p@.len(),
            forall|j: int| 0 <= j < i ==> p@[j] == t@[j],
        decreases p@.len() - i,
    {
        if p[i] != t[i] {
            return false;
        }
        i = i + 1;
    }
    true
}

/// The characters of `v` from index `start` on.
pub fn suffix_from(v: &[char], start: usize) -> (res: Vec<char>)
    requires
        start <= v@.len(),
    ensures
        res@ == v@.skip(start as int),
{
    let mut r: Vec<char> = Vec::new();
    let mut i: usize = start;
    while i < v.len()
        invariant
            start <= i <= v@.len(),
            r@ == v@.subrange(start as int, i as int),
        decreases v@.len() - i,
    {
        r.push(v[i]);
        i = i + 1;
    }
    r
}

/// Whether `c` occurs among `seps`.
pub fn is_one_of(c: char, seps: &[char]) -> (res: bool)
    ensures
        res == seps@.contains(c),
{
    let mut i: usize = 0;
    while i < seps.len()
        invariant
            0 <= i <= seps@.len(),
            forall|j: int| 0 <= j < i ==> seps@[j] != c,
        decreases seps@.len() - i,
    {
        if seps[i] == c {
            return true;
        }
        i = i + 1;
    }
    false
}

/// The pieces of `s` between the characters that occur in `seps`, as
/// `str::split` yields them: there is always at least one piece, and two
/// adjacent separators give an empty piece between them.
pub open spec fn split_by(s: Seq<char>, seps: Seq<char>) -> Seq<Seq<char>>
    decreases s.len(),
{
    if s.len() == 0 {
        seq![Seq::<char>::empty()]
    } else {
        let init = split_by(s.drop_last(), seps);
        if seps.contains(s.last()) {
            init.push(Seq::<char>::empty())
        } else {
            init.update(init.len() - 1, init.last().push(s.last()))
        }
    }
}

/// `split_by` yields at least one piece.
pub proof fn lemma_split_by_nonempty(s: Seq<char>, seps: Seq<char>)
    ensures
        split_by(s, seps).len() >= 1,
    decreases s.len(),
{
    if s.len() > 0 {
        lemma_split_by_nonempty(s.drop_last(), seps);
    }
}

/// No piece of `split_by` holds a separator.
pub proof fn lemma_split_by_pieces(s: Seq<char>, seps: Seq<char>)
    ensures
        forall|k: int, i: int| 0 <= k < split_by(s, seps).len() && 0 <= i < split_by(s, seps)[k].len()
            ==> !seps.contains(#[trigger] split_by(s, seps)[k][i]),
    decreases s.len(),
{
    if s.len() > 0 {
        let init = split_by(s.drop_last(), seps);
        lemma_split_by_pieces(s.drop_last(), seps);
        lemma_split_by_nonempty(s.drop_last(), seps);
        let all = split_by(s, seps);
        assert forall|k: int, i: int| 0 <= k < all.len() && 0 <= i < all[k].len() implies !seps.contains(#[trigger] all[k][i]) by {
            if !seps.contains(s.last()) && k == init.len() - 1 {
                if i < init.last().len() {
                    assert(all[k][i] == init[k][i]);
                }
            } else if k < init.len() {
                assert(all[k] == init[k]);
            }
        }
    }
}

/// Splits `s` at every character that occurs in `seps`.
pub fn split_chars(s: &[char], seps: &[char]) -> (res: Vec<Vec<char>>)
    ensures
        res@.map_values(|p: Vec<char>| p@) == split_by(s@, seps@),
{
    let mut parts: Vec<Vec<char>> = Vec::new();
    let mut cur: Vec<char> = Vec::new();
    let mut i: usize = 0;
    while i < s.len()
        invariant
            0 <= i <= s@.len(),
            parts@.map_values(|p: Vec<char>| p@).push(cur@) == split_by(s@.take(i as int), seps@),
        decreases s@.len() - i,
    {
        let c = s[i];
        proof {
            lemma_split_by_nonempty(s@.take(i as int), seps@);
            assert(s@.take(i + 1).drop_last() =~= s@.take(i as int));
            assert(s@.take(i + 1).last() == c);
        }
        if is_one_of(c, seps) {
            let done = cur;
            parts.push(done);
            cur = Vec::new();
            assert(parts@.map_values(|p: Vec<char>| p@) =~= split_by(s@.take(i as int), seps@));
        } else {
            let ghost before = cur@;
            cur.push(c);
            assert(parts@.map_values(|p: Vec<char>| p@).push(cur@) =~= split_by(
                s@.take(i as int),
                seps@,
            ).update(split_by(s@.take(i as int), seps@).len() - 1, before.push(c)));
        }
        i = i + 1;
    }
    assert(s@.take(s@.len() as int) =~= s@);
    parts.push(cur);
    parts
}

} // verus!
