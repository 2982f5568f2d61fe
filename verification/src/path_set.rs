//! An ordered set of paths, kept as a sorted vector of strings: what a
//! `BTreeSet` of paths holds, with paths compared and ordered by their
//! components (see `watcher::path`).

use vstd::prelude::*;
use crate::watcher::path::{
    components_less, lemma_components_less_asymmetric, lemma_components_less_total,
    lemma_components_less_transitive, path_components, path_less, path_precedes, same_path,
};

verus! {

/// Whether `a` comes before `b` in the lexicographic order of their
/// characters (by code point, which is also the order of their UTF-8
/// bytes): a proper prefix comes first.
pub open spec fn text_less(a: Seq<char>, b: Seq<char>) -> bool
    decreases a.len(),
{
    if a.len() == 0 {
        b.len() > 0
    } else if b.len() == 0 {
        false
    } else if a[0] != b[0] {
        a[0] < b[0]
    } else {
        text_less(a.skip(1), b.skip(1))
    }
}

/// No text comes before itself, and of two texts at most one comes first.
pub proof fn lemma_text_less_asymmetric(a: Seq<char>, b: Seq<char>)
    ensures
        !(text_less(a, b) && text_less(b, a)),
        !text_less(a, a),
    decreases a.len(),
{
    if a.len() > 0 && b.len() > 0 {
        lemma_text_less_asymmetric(a.skip(1), b.skip(1));
    }
    if a.len() > 0 {
        lemma_text_less_asymmetric(a.skip(1), a.skip(1));
    }
}

/// Of two different texts, one comes first.
pub proof fn lemma_text_less_total(a: Seq<char>, b: Seq<char>)
    requires
        a != b,
    ensures
        text_less(a, b) || text_less(b, a),
    decreases a.len(),
{
    if a.len() > 0 && b.len() > 0 && a[0] == b[0] {
        if a.skip(1) == b.skip(1) {
            assert(a =~= seq![a[0]] + a.skip(1));
            assert(b =~= seq![b[0]] + b.skip(1));
        }
        lemma_text_less_total(a.skip(1), b.skip(1));
    } else if a.len() == 0 && b.len() == 0 {
        assert(a =~= b);
    } else if a.len() > 0 && b.len() > 0 {
    }
}

/// The order is transitive.
pub proof fn lemma_text_less_transitive(a: Seq<char>, b: Seq<char>, c: Seq<char>)
    requires
        text_less(a, b),
        text_less(b, c),
    ensures
        text_less(a, c),
    decreases a.len(),
{
    if a.len() > 0 && b.len() > 0 && c.len() > 0 && a[0] == b[0] && b[0] == c[0] {
        lemma_text_less_transitive(a.skip(1), b.skip(1), c.skip(1));
    }
}

/// The views of a vector of strings.
pub open spec fn views(v: Seq<String>) -> Seq<Seq<char>> {
    v.map_values(|s: String| s@)
}

/// The components of each of the paths `v`.
pub open spec fn components_each(v: Seq<Seq<char>>) -> Seq<Seq<Seq<char>>> {
    v.map_values(|t: Seq<char>| path_components(t))
}

/// Whether the paths `s` are in strictly increasing order.
pub open spec fn strictly_sorted(s: Seq<Seq<char>>) -> bool {
    forall|i: int, j: int| 0 <= i < j < s.len() ==> path_less(#[trigger] s[i], #[trigger] s[j])
}

/// No path comes before itself, and of two paths at most one comes first.
proof fn lemma_path_less_asymmetric(a: Seq<char>, b: Seq<char>)
    ensures
        !(path_less(a, b) && path_less(b, a)),
        !path_less(a, a),
        path_less(a, b) ==> path_components(a) != path_components(b),
{
    lemma_components_less_asymmetric(path_components(a), path_components(b));
    lemma_components_less_asymmetric(path_components(a), path_components(a));
}

/// A set of paths, iterated in increasing order; two spellings of one path
/// are one member, kept with the spelling it was first given.
#[derive(Debug, PartialEq, Eq)]
pub struct PathSet {
    items: Vec<String>,
}

impl Default for PathSet {
    fn default() -> (res: PathSet)
        ensures
            res.sorted_view() == Seq::<Seq<char>>::empty(),
            res.view() == Set::<Seq<Seq<char>>>::empty(),
            res.spellings() == Set::<Seq<char>>::empty(),
    {
        PathSet::new()
    }
}

impl PathSet {
    /// The spellings of the paths, in increasing order, each path once.
    pub closed spec fn sorted_view(&self) -> Seq<Seq<char>> {
        views(self.items@)
    }

    /// The paths, by their components.
    pub closed spec fn view(&self) -> Set<Seq<Seq<char>>> {
        components_each(views(self.items@)).to_set()
    }

    /// The spellings that the set keeps.
    pub closed spec fn spellings(&self) -> Set<Seq<char>> {
        views(self.items@).to_set()
    }

    #[verifier::type_invariant]
    closed spec fn sorted(&self) -> bool {
        strictly_sorted(views(self.items@))
    }

    /// The empty set.
    pub fn new() -> (res: PathSet)
        ensures
            res.sorted_view() == Seq::<Seq<char>>::empty(),
            res.view() == Set::<Seq<Seq<char>>>::empty(),
            res.spellings() == Set::<Seq<char>>::empty(),
    {
        let res = PathSet { items: Vec::new() };
        assert(views(res.items@) =~= Seq::<Seq<char>>::empty());
        assert(components_each(views(res.items@)) =~= Seq::<Seq<Seq<char>>>::empty());
        assert(res.view() =~= Set::<Seq<Seq<char>>>::empty());
        assert(res.spellings() =~= Set::<Seq<char>>::empty());
        res
    }

    /// The number of paths.
    pub fn len(&self) -> (res: usize)
        ensures
            res == self.sorted_view().len(),
    {
        self.items.len()
    }

    /// Whether the set is empty.
    pub fn is_empty(&self) -> (res: bool)
        ensures
            res == (self.view() == Set::<Seq<Seq<char>>>::empty()),
    {
        proof {
            let c = components_each(views(self.items@));
            if self.items@.len() > 0 {
                assert(self.view().contains(c[0]));
            } else {
                assert(c =~= Seq::<Seq<Seq<char>>>::empty());
                assert(self.view() =~= Set::<Seq<Seq<char>>>::empty());
            }
        }
        self.items.len() == 0
    }

    /// Whether the path `path`, under any spelling, is in the set.
    pub fn contains(&self, path: &str) -> (res: bool)
        ensures
            res == self.view().contains(path_components(path@)),
    {
        let ghost c = components_each(views(self.items@));
        let mut i: usize = 0;
        while i < self.items.len()
            invariant
                0 <= i <= self.items@.len(),
                c == components_each(views(self.items@)),
                forall|j: int| 0 <= j < i ==> path_components(self.items@[j]@) != path_components(path@),
            decreases self.items@.len() - i,
        {
            if same_path(self.items[i].as_str(), path) {
                assert(c[i as int] == path_components(path@));
                return true;
            }
            i = i + 1;
        }
        proof {
            if self.view().contains(path_components(path@)) {
                let k = choose|k: int| 0 <= k < c.len() && c[k] == path_components(path@);
                assert(c[k] == path_components(self.items@[k]@));
            }
        }
        false
    }

    /// The spellings of the paths, in increasing order, each path once.
    pub fn to_vec(&self) -> (res: Vec<String>)
        ensures
            views(res@) == self.sorted_view(),
            strictly_sorted(views(res@)),
            views(res@).to_set() == self.spellings(),
            components_each(views(res@)).to_set() == self.view(),
            components_each(views(res@)).no_duplicates(),
    {
        proof {
            use_type_invariant(self);
            let s = self.sorted_view();
            let c = components_each(s);
            assert forall|i: int, j: int| 0 <= i < c.len() && 0 <= j < c.len() && i != j implies c[i] != c[j] by {
                if i < j {
                    lemma_path_less_asymmetric(s[i], s[j]);
                } else {
                    lemma_path_less_asymmetric(s[j], s[i]);
                }
            }
        }
        let res = self.items.clone();
        assert(res@ =~= self.items@);
        res
    }

    /// Adds the path `path`; tells whether it was not there before. A path
    /// already there keeps its spelling.
    pub fn insert(&mut self, path: String) -> (res: bool)
        ensures
            final(self).view() == old(self).view().insert(path_components(path@)),
            res == !old(self).view().contains(path_components(path@)),
            final(self).spellings() == (if res { old(self).spellings().insert(path@) } else { old(self).spellings() }),
    {
        proof {
            use_type_invariant(&*self);
        }
        let ghost old_items = views(self.items@);
        let ghost pc = path_components(path@);
        let ghost oc = components_each(old_items);
        let mut i: usize = 0;
        while i < self.items.len() && path_precedes(self.items[i].as_str(), path.as_str())
            invariant
                0 <= i <= self.items@.len(),
                old_items == views(self.items@),
                strictly_sorted(old_items),
                forall|j: int| 0 <= j < i ==> path_less(#[trigger] old_items[j], path@),
            decreases self.items@.len() - i,
        {
            i = i + 1;
        }
        if i < self.items.len() && same_path(self.items[i].as_str(), path.as_str()) {
            proof {
                assert(oc[i as int] == pc);
                assert(self.view().insert(pc) =~= self.view());
            }
            return false;
        }
        proof {
            if i < self.items@.len() {
                lemma_components_less_total(path_components(old_items[i as int]), pc);
            }
            assert forall|j: int| i <= j < old_items.len() implies path_less(path@, #[trigger] old_items[j]) by {
                if j > i {
                    lemma_components_less_transitive(pc, path_components(old_items[i as int]), path_components(old_items[j]));
                }
            }
            assert forall|j: int| 0 <= j < oc.len() implies oc[j] != pc by {
                assert(oc[j] == path_components(old_items[j]));
                lemma_components_less_asymmetric(pc, pc);
            }
        }
        let ghost pv = path@;
        let mut items: Vec<String> = Vec::new();
        std::mem::swap(&mut items, &mut self.items);
        items.insert(i, path);
        let ghost new_items = views(items@);
        assert(new_items =~= old_items.insert(i as int, pv));
        proof {
            assert forall|a: int, b: int| 0 <= a < b < new_items.len() implies path_less(
                #[trigger] new_items[a],
                #[trigger] new_items[b],
            ) by {
                if b < i {
                } else if a < i && b == i {
                } else if a < i && b > i {
                    assert(new_items[b] == old_items[b - 1]);
                } else if a == i {
                    assert(new_items[b] == old_items[b - 1]);
                } else {
                    assert(new_items[a] == old_items[a - 1]);
                    assert(new_items[b] == old_items[b - 1]);
                }
            }
            let nc = components_each(new_items);
            assert(nc =~= oc.insert(i as int, pc));
            assert(nc.to_set() =~= oc.to_set().insert(pc)) by {
                assert forall|x: Seq<Seq<char>>| nc.to_set().contains(x) <==> oc.to_set().insert(pc).contains(x) by {
                    if nc.to_set().contains(x) {
                        let k = choose|k: int| 0 <= k < nc.len() && nc[k] == x;
                        if k < i {
                            assert(oc[k] == x);
                        } else if k > i {
                            assert(oc[k - 1] == x);
                        }
                    }
                    if oc.to_set().contains(x) {
                        let k = choose|k: int| 0 <= k < oc.len() && oc[k] == x;
                        if k < i {
                            assert(nc[k] == x);
                        } else {
                            assert(nc[k + 1] == x);
                        }
                    }
                    if x == pc {
                        assert(nc[i as int] == x);
                    }
                }
            }
            assert(new_items.to_set() =~= old_items.to_set().insert(pv)) by {
                assert forall|x: Seq<char>| new_items.to_set().contains(x) <==> old_items.to_set().insert(pv).contains(x) by {
                    if new_items.to_set().contains(x) {
                        let k = choose|k: int| 0 <= k < new_items.len() && new_items[k] == x;
                        if k < i {
                            assert(old_items[k] == x);
                        } else if k > i {
                            assert(old_items[k - 1] == x);
                        }
                    }
                    if old_items.to_set().contains(x) {
                        let k = choose|k: int| 0 <= k < old_items.len() && old_items[k] == x;
                        if k < i {
                            assert(new_items[k] == x);
                        } else {
                            assert(new_items[k + 1] == x);
                        }
                    }
                    if x == pv {
                        assert(new_items[i as int] == x);
                    }
                }
            }
        }
        self.items = items;
        true
    }
}

} // verus!
