//! Paths compared as the file system reads them: by their components, with
//! `/` as the separator, so that `a/b`, `a//b`, `a/./b` and `a/b/` name
//! one path.

use vstd::prelude::*;
use crate::path_set::{lemma_text_less_asymmetric, lemma_text_less_total, lemma_text_less_transitive, text_less};
use crate::text::{chars_of, has_prefix, split_by, split_chars, lemma_split_by_nonempty};

verus! {

/// The pieces of `pieces` that name something: those other than empty
/// pieces and `.`, in order.
pub open spec fn named_pieces(pieces: Seq<Seq<char>>) -> Seq<Seq<char>>
    decreases pieces.len(),
{
    if pieces.len() == 0 {
        Seq::empty()
    } else {
        let init = named_pieces(pieces.drop_last());
        if pieces.last().len() == 0 || pieces.last() == seq!['.'] { init } else { init.push(pieces.last()) }
    }
}

/// What stands before the named pieces of the path `s`: the root `/` if
/// `s` starts with one; else `.` if the first piece of `s` is `.`; else
/// nothing.
pub open spec fn path_head(s: Seq<char>) -> Seq<Seq<char>> {
    if s.len() > 0 && s[0] == '/' {
        seq![seq!['/']]
    } else if split_by(s, seq!['/'])[0] == seq!['.'] {
        seq![seq!['.']]
    } else {
        Seq::empty()
    }
}

/// The components of the path `s`: the root or a leading `.`, then every
/// piece between separators but empty ones and `.` (`..` stays).
pub open spec fn path_components(s: Seq<char>) -> Seq<Seq<char>> {
    path_head(s) + named_pieces(split_by(s, seq!['/']))
}

/// The components of the path `s` (see `path_components`).
pub fn components_of(s: &str) -> (res: Vec<Vec<char>>)
    ensures
        res@.map_values(|c: Vec<char>| c@) == path_components(s@),
{
    let chars = chars_of(s);
    let mut seps: Vec<char> = Vec::new();
    seps.push('/');
    assert(seps@ =~= seq!['/']);
    let pieces = split_chars(&chars, &seps);
    let ghost pv = pieces@.map_values(|p: Vec<char>| p@);
    proof {
        lemma_split_by_nonempty(s@, seq!['/']);
    }
    let mut out: Vec<Vec<char>> = Vec::new();
    if chars.len() > 0 && chars[0] == '/' {
        let mut root: Vec<char> = Vec::new();
        root.push('/');
        out.push(root);
    } else {
        assert(pv[0] == pieces@[0]@);
        let first = &pieces[0];
        if first.len() == 1 && first[0] == '.' {
            let mut dot: Vec<char> = Vec::new();
            dot.push('.');
            out.push(dot);
            assert(pieces@[0]@ =~= seq!['.']);
        } else {
            assert(pieces@[0]@ != seq!['.']) by {
                if pieces@[0]@ == seq!['.'] {
                    assert(pieces@[0]@[0] == '.');
                }
            }
        }
    }
    let ghost head = out@.map_values(|c: Vec<char>| c@);
    assert(head =~= path_head(s@));
    let mut i: usize = 0;
    while i < pieces.len()
        invariant
            0 <= i <= pieces@.len(),
            pv == pieces@.map_values(|p: Vec<char>| p@),
            pv == split_by(s@, seq!['/']),
            out@.map_values(|c: Vec<char>| c@) == head + named_pieces(pv.take(i as int)),
        decreases pieces@.len() - i,
    {
        let piece = &pieces[i];
        assert(pv[i as int] == pieces@[i as int]@);
        assert(pv.take(i + 1).drop_last() =~= pv.take(i as int));
        assert(pv.take(i + 1).last() == pieces@[i as int]@);
        let skip = piece.len() == 0 || (piece.len() == 1 && piece[0] == '.');
        if skip {
            assert(piece@.len() == 0 || piece@ =~= seq!['.']);
        } else {
            assert(piece@ != seq!['.']) by {
                if piece@ == seq!['.'] {
                    assert(piece@[0] == '.');
                }
            }
            let ghost before = out@.map_values(|c: Vec<char>| c@);
            out.push(piece.clone());
            assert(out@.map_values(|c: Vec<char>| c@) =~= before.push(piece@));
        }
        i = i + 1;
    }
    assert(pv.take(i as int) =~= pv);
    out
}

/// Whether `a` and `b` name the same path: they have the same components.
pub fn same_path(a: &str, b: &str) -> (res: bool)
    ensures
        res == (path_components(a@) == path_components(b@)),
{
    let x = components_of(a);
    let y = components_of(b);
    let ghost xv = x@.map_values(|c: Vec<char>| c@);
    let ghost yv = y@.map_values(|c: Vec<char>| c@);
    if x.len() != y.len() {
        assert(xv.len() != yv.len());
        return false;
    }
    let mut i: usize = 0;
    while i < x.len()
        invariant
            0 <= i <= x@.len(),
            x@.len() == y@.len(),
            xv == x@.map_values(|c: Vec<char>| c@),
            yv == y@.map_values(|c: Vec<char>| c@),
            xv == path_components(a@),
            yv == path_components(b@),
            forall|j: int| 0 <= j < i ==> xv[j] == yv[j],
        decreases x@.len() - i,
    {
        assert(xv[i as int] == x@[i as int]@);
        assert(yv[i as int] == y@[i as int]@);
        if x[i].len() != y[i].len() || !has_prefix(&x[i], &y[i]) {
            assert(xv[i as int] != yv[i as int]) by {
                if x@[i as int]@ == y@[i as int]@ {
                    assert(y@[i as int]@.is_prefix_of(x@[i as int]@));
                }
            }
            return false;
        }
        assert(x@[i as int]@ =~= y@[i as int]@);
        i = i + 1;
    }
    assert(xv =~= yv);
    true
}

/// The rank of a component in the order of paths: the root first, then
/// `.`, then `..`, then the named components.
pub open spec fn component_rank(c: Seq<char>) -> int {
    if c == seq!['/'] {
        0
    } else if c == seq!['.'] {
        1
    } else if c == seq!['.', '.'] {
        2
    } else {
        3
    }
}

/// Whether the component `a` comes before `b`: by rank, and named
/// components by their characters.
pub open spec fn component_less(a: Seq<char>, b: Seq<char>) -> bool {
    component_rank(a) < component_rank(b) || (component_rank(a) == 3 && component_rank(b) == 3 && text_less(a, b))
}

/// Whether the components `a` come before `b`, component by component: a
/// proper prefix comes first.
pub open spec fn components_less(a: Seq<Seq<char>>, b: Seq<Seq<char>>) -> bool
    decreases a.len(),
{
    if a.len() == 0 {
        b.len() > 0
    } else if b.len() == 0 {
        false
    } else if a[0] != b[0] {
        component_less(a[0], b[0])
    } else {
        components_less(a.skip(1), b.skip(1))
    }
}

/// Whether the path `a` comes before `b`: by their components, as paths
/// are ordered.
pub open spec fn path_less(a: Seq<char>, b: Seq<char>) -> bool {
    components_less(path_components(a), path_components(b))
}

proof fn lemma_component_less_order(a: Seq<char>, b: Seq<char>, c: Seq<char>)
    ensures
        !(component_less(a, b) && component_less(b, a)),
        a != b ==> component_less(a, b) || component_less(b, a),
        component_less(a, b) && component_less(b, c) ==> component_less(a, c),
{
    lemma_text_less_asymmetric(a, b);
    if a != b && component_rank(a) == 3 && component_rank(b) == 3 {
        lemma_text_less_total(a, b);
    }
    if component_less(a, b) && component_less(b, c) && component_rank(a) == 3 && component_rank(c) == 3 {
        lemma_text_less_transitive(a, b, c);
    }
}

/// No list of components comes before itself, and of two at most one
/// comes first.
pub proof fn lemma_components_less_asymmetric(a: Seq<Seq<char>>, b: Seq<Seq<char>>)
    ensures
        !(components_less(a, b) && components_less(b, a)),
        !components_less(a, a),
    decreases a.len(),
{
    if a.len() > 0 && b.len() > 0 {
        lemma_components_less_asymmetric(a.skip(1), b.skip(1));
        lemma_component_less_order(a[0], b[0], a[0]);
    }
    if a.len() > 0 {
        lemma_components_less_asymmetric(a.skip(1), a.skip(1));
    }
}

/// Of two different lists of components, one comes first.
pub proof fn lemma_components_less_total(a: Seq<Seq<char>>, b: Seq<Seq<char>>)
    requires
        a != b,
    ensures
        components_less(a, b) || components_less(b, a),
    decreases a.len(),
{
    if a.len() > 0 && b.len() > 0 && a[0] == b[0] {
        if a.skip(1) == b.skip(1) {
            assert(a =~= seq![a[0]] + a.skip(1));
            assert(b =~= seq![b[0]] + b.skip(1));
        }
        lemma_components_less_total(a.skip(1), b.skip(1));
    } else if a.len() == 0 && b.len() == 0 {
        assert(a =~= b);
    } else if a.len() > 0 && b.len() > 0 {
        lemma_component_less_order(a[0], b[0], a[0]);
    }
}

/// The order of lists of components is transitive.
pub proof fn lemma_components_less_transitive(a: Seq<Seq<char>>, b: Seq<Seq<char>>, c: Seq<Seq<char>>)
    requires
        components_less(a, b),
        components_less(b, c),
    ensures
        components_less(a, c),
    decreases a.len(),
{
    if a.len() > 0 && b.len() > 0 && c.len() > 0 {
        lemma_component_less_order(a[0], b[0], c[0]);
        lemma_component_less_order(a[0], c[0], b[0]);
        if a[0] == b[0] && b[0] == c[0] {
            lemma_components_less_transitive(a.skip(1), b.skip(1), c.skip(1));
        }
    }
}

/// Whether the path `a` comes before `b` (see `path_less`), computed.
pub fn path_precedes(a: &str, b: &str) -> (res: bool)
    ensures
        res == path_less(a@, b@),
{
    let x = components_of(a);
    let y = components_of(b);
    let ghost xv = x@.map_values(|c: Vec<char>| c@);
    let ghost yv = y@.map_values(|c: Vec<char>| c@);
    let mut i: usize = 0;
    assert(xv.skip(0) =~= xv && yv.skip(0) =~= yv);
    while i < x.len() && i < y.len() && same_chars(&x[i], &y[i])
        invariant
            0 <= i <= x@.len(),
            i <= y@.len(),
            xv == x@.map_values(|c: Vec<char>| c@),
            yv == y@.map_values(|c: Vec<char>| c@),
            components_less(xv, yv) == components_less(xv.skip(i as int), yv.skip(i as int)),
        decreases x@.len() - i,
    {
        assert(xv[i as int] == x@[i as int]@ && yv[i as int] == y@[i as int]@);
        assert(xv.skip(i as int).skip(1) =~= xv.skip(i + 1));
        assert(yv.skip(i as int).skip(1) =~= yv.skip(i + 1));
        i = i + 1;
    }
    if i == x.len() {
        i < y.len()
    } else if i == y.len() {
        false
    } else {
        assert(xv[i as int] == x@[i as int]@ && yv[i as int] == y@[i as int]@);
        assert(xv.skip(i as int)[0] == xv[i as int] && yv.skip(i as int)[0] == yv[i as int]);
        component_precedes(&x[i], &y[i])
    }
}

/// Whether `a` and `b` hold the same characters.
fn same_chars(a: &Vec<char>, b: &Vec<char>) -> (res: bool)
    ensures
        res == (a@ == b@),
{
    if a.len() != b.len() {
        return false;
    }
    let r = has_prefix(a, b);
    proof {
        if r {
            assert(a@ =~= b@);
        } else if a@ == b@ {
            assert(b@.is_prefix_of(a@));
        }
    }
    r
}

/// The rank of a component (see `component_rank`), computed.
fn rank_of(c: &Vec<char>) -> (res: u8)
    ensures
        res == component_rank(c@),
{
    if c.len() == 1 && c[0] == '/' {
        assert(c@ =~= seq!['/']);
        0
    } else if c.len() == 1 && c[0] == '.' {
        assert(c@ =~= seq!['.']);
        1
    } else if c.len() == 2 && c[0] == '.' && c[1] == '.' {
        assert(c@ =~= seq!['.', '.']);
        2
    } else {
        proof {
            if c@ == seq!['/'] || c@ == seq!['.'] {
                assert(c@[0] == c[0]);
            }
            if c@ == seq!['.', '.'] {
                assert(c@[0] == c[0] && c@[1] == c[1]);
            }
        }
        3
    }
}

/// Whether the component `a` comes before `b` (see `component_less`),
/// computed.
fn component_precedes(a: &Vec<char>, b: &Vec<char>) -> (res: bool)
    ensures
        res == component_less(a@, b@),
{
    let ra = rank_of(a);
    let rb = rank_of(b);
    if ra != rb {
        ra < rb
    } else if ra < 3 {
        false
    } else {
        text_precedes(a, b)
    }
}

/// Whether the characters of `x` come before those of `y` (see
/// `text_less`), computed.
fn text_precedes(x: &Vec<char>, y: &Vec<char>) -> (res: bool)
    ensures
        res == text_less(x@, y@),
{
    let mut i: usize = 0;
    assert(x@.skip(0) =~= x@ && y@.skip(0) =~= y@);
    while i < x.len() && i < y.len() && x[i] == y[i]
        invariant
            0 <= i <= x@.len(),
            i <= y@.len(),
            text_less(x@, y@) == text_less(x@.skip(i as int), y@.skip(i as int)),
        decreases x@.len() - i,
    {
        assert(x@.skip(i as int).skip(1) =~= x@.skip(i + 1));
        assert(y@.skip(i as int).skip(1) =~= y@.skip(i + 1));
        i = i + 1;
    }
    if i == x.len() {
        i < y.len()
    } else if i == y.len() {
        false
    } else {
        x[i] < y[i]
    }
}

} // verus!
