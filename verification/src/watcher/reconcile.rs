//! Reconciling the files on disk with the files that the index knows.
//! Paths are keys by their components (see `watcher::path`): two spellings
//! of one path are one key, and a map keeps the spelling it first saw.

use vstd::prelude::*;
use crate::path_set::PathSet;
use crate::text::owned;
use crate::watcher::path::{path_components, same_path};

verus! {

/// What is known of a file: its modification time, in nanoseconds since the
/// Unix epoch (negative before it), and its size in bytes.
#[derive(Debug, Clone, Copy, PartialEq, Eq, Structural)]
pub struct FileSnapshot {
    pub mtime: i128,
    pub size: u64,
}

/// The map from the paths of the pairs `s`, by their components, to their
/// snapshots, later pairs taking the place of earlier ones for one path.
pub open spec fn pairs_map(s: Seq<(String, FileSnapshot)>) -> Map<Seq<Seq<char>>, FileSnapshot>
    decreases s.len(),
{
    if s.len() == 0 {
        Map::empty()
    } else {
        pairs_map(s.drop_last()).insert(path_components(s.last().0@), s.last().1)
    }
}

/// The map from the paths of the pairs `s`, by their components, to their
/// spellings in `s`.
pub open spec fn pairs_spelling(s: Seq<(String, FileSnapshot)>) -> Map<Seq<Seq<char>>, Seq<char>>
    decreases s.len(),
{
    if s.len() == 0 {
        Map::empty()
    } else {
        pairs_spelling(s.drop_last()).insert(path_components(s.last().0@), s.last().0@)
    }
}

/// Whether no two pairs of `s` name the same path.
pub open spec fn distinct_paths(s: Seq<(String, FileSnapshot)>) -> bool {
    forall|i: int, j: int| 0 <= i < s.len() && 0 <= j < s.len() && i != j
        ==> path_components((#[trigger] s[i]).0@) != path_components((#[trigger] s[j]).0@)
}

/// With distinct paths, the maps hold exactly the pairs.
proof fn lemma_pairs_map(s: Seq<(String, FileSnapshot)>)
    requires
        distinct_paths(s),
    ensures
        forall|k: Seq<Seq<char>>| #[trigger] pairs_map(s).contains_key(k)
            <==> exists|i: int| 0 <= i < s.len() && path_components(s[i].0@) == k,
        forall|i: int| 0 <= i < s.len() ==> #[trigger] pairs_map(s)[path_components(s[i].0@)] == s[i].1,
        forall|i: int| 0 <= i < s.len() ==> #[trigger] pairs_spelling(s)[path_components(s[i].0@)] == s[i].0@,
        pairs_spelling(s).dom() == pairs_map(s).dom(),
        pairs_map(s).dom().finite(),
        pairs_map(s).dom().len() == s.len(),
    decreases s.len(),
{
    if s.len() > 0 {
        let init = s.drop_last();
        let n = s.len() - 1;
        assert(distinct_paths(init));
        lemma_pairs_map(init);
        assert forall|k: Seq<Seq<char>>| #[trigger] pairs_map(s).contains_key(k)
            <==> exists|i: int| 0 <= i < s.len() && path_components(s[i].0@) == k by {
            if pairs_map(s).contains_key(k) && k != path_components(s.last().0@) {
                let i = choose|i: int| 0 <= i < init.len() && path_components(init[i].0@) == k;
                assert(s[i] == init[i]);
            }
            if exists|i: int| 0 <= i < s.len() && path_components(s[i].0@) == k {
                let i = choose|i: int| 0 <= i < s.len() && path_components(s[i].0@) == k;
                if i < n {
                    assert(init[i] == s[i]);
                }
            }
        }
        assert forall|i: int| 0 <= i < s.len() implies #[trigger] pairs_map(s)[path_components(s[i].0@)] == s[i].1 by {
            if i < n {
                assert(init[i] == s[i]);
                assert(path_components(s[i].0@) != path_components(s[n].0@));
            }
        }
        assert forall|i: int| 0 <= i < s.len() implies #[trigger] pairs_spelling(s)[path_components(s[i].0@)] == s[i].0@ by {
            if i < n {
                assert(init[i] == s[i]);
                assert(path_components(s[i].0@) != path_components(s[n].0@));
            }
        }
        assert(pairs_spelling(s).dom() =~= pairs_map(s).dom());
        assert(!pairs_map(init).contains_key(path_components(s.last().0@))) by {
            if pairs_map(init).contains_key(path_components(s.last().0@)) {
                let i = choose|i: int| 0 <= i < init.len() && path_components(init[i].0@) == path_components(s.last().0@);
                assert(s[i] == init[i]);
            }
        }
    }
}

/// Where the path `path` stands among the pairs `entries`, if it does.
fn find_path(entries: &Vec<(String, FileSnapshot)>, path: &str) -> (res: Option<usize>)
    ensures
        match res {
            Some(i) => i < entries@.len() && path_components(entries@[i as int].0@) == path_components(path@),
            None => forall|i: int| 0 <= i < entries@.len() ==> path_components(entries@[i].0@) != path_components(path@),
        },
{
    let mut i: usize = 0;
    while i < entries.len()
        invariant
            0 <= i <= entries@.len(),
            forall|j: int| 0 <= j < i ==> path_components(entries@[j].0@) != path_components(path@),
        decreases entries@.len() - i,
    {
        if same_path(entries[i].0.as_str(), path) {
            return Some(i);
        }
        i = i + 1;
    }
    None
}

/// A map from paths to snapshots.
#[derive(Debug)]
pub struct SnapshotMap {
    entries: Vec<(String, FileSnapshot)>,
}

impl SnapshotMap {
    /// The map as plain values: from the components of each path to its
    /// snapshot.
    pub closed spec fn view(&self) -> Map<Seq<Seq<char>>, FileSnapshot> {
        pairs_map(self.entries@)
    }

    /// The spelling that the map keeps for each of its paths: the one it
    /// was first given.
    pub closed spec fn spelling(&self) -> Map<Seq<Seq<char>>, Seq<char>> {
        pairs_spelling(self.entries@)
    }

    #[verifier::type_invariant]
    closed spec fn distinct(&self) -> bool {
        distinct_paths(self.entries@)
    }

    /// The empty map.
    pub fn new() -> (res: SnapshotMap)
        ensures
            res@ == Map::<Seq<Seq<char>>, FileSnapshot>::empty(),
            res.spelling() == Map::<Seq<Seq<char>>, Seq<char>>::empty(),
    {
        SnapshotMap { entries: Vec::new() }
    }

    /// The number of paths in the map.
    pub fn len(&self) -> (res: usize)
        ensures
            res == self@.len(),
    {
        proof {
            use_type_invariant(self);
            lemma_pairs_map(self.entries@);
        }
        self.entries.len()
    }

    /// The snapshot of `path`, if the map holds it under any spelling.
    pub fn get(&self, path: &str) -> (res: Option<FileSnapshot>)
        ensures
            res == (if self@.contains_key(path_components(path@)) {
                Some(self@[path_components(path@)])
            } else {
                None::<FileSnapshot>
            }),
    {
        proof {
            use_type_invariant(self);
            lemma_pairs_map(self.entries@);
        }
        match find_path(&self.entries, path) {
            Some(i) => Some(self.entries[i].1),
            None => None,
        }
    }

    /// Whether the map holds `path`, under any spelling.
    pub fn contains_key(&self, path: &str) -> (res: bool)
        ensures
            res == self@.contains_key(path_components(path@)),
    {
        proof {
            use_type_invariant(self);
            lemma_pairs_map(self.entries@);
        }
        find_path(&self.entries, path).is_some()
    }

    /// Maps `path` to `snap`, keeping the spelling of a path that the map
    /// holds already; gives back the snapshot it replaced, if any.
    pub fn insert(&mut self, path: String, snap: FileSnapshot) -> (res: Option<FileSnapshot>)
        ensures
            final(self)@ == old(self)@.insert(path_components(path@), snap),
            final(self).spelling() == (if old(self)@.contains_key(path_components(path@)) {
                old(self).spelling()
            } else {
                old(self).spelling().insert(path_components(path@), path@)
            }),
            res == (if old(self)@.contains_key(path_components(path@)) {
                Some(old(self)@[path_components(path@)])
            } else {
                None::<FileSnapshot>
            }),
    {
        proof {
            use_type_invariant(&*self);
            lemma_pairs_map(self.entries@);
        }
        let ghost old_entries = self.entries@;
        let ghost key = path_components(path@);
        let mut entries: Vec<(String, FileSnapshot)> = Vec::new();
        std::mem::swap(&mut entries, &mut self.entries);
        match find_path(&entries, path.as_str()) {
            Some(i) => {
                let previous = entries[i].1;
                let kept = owned(entries[i].0.as_str());
                entries.set(i, (kept, snap));
                proof {
                    assert(entries@[i as int].0@ == old_entries[i as int].0@);
                    assert forall|a: int| 0 <= a < entries@.len() implies (#[trigger] entries@[a]).0@ == old_entries[a].0@ by {
                        if a != i {
                            assert(entries@[a] == old_entries[a]);
                        }
                    }
                    assert(distinct_paths(entries@)) by {
                        assert forall|a: int, b: int| 0 <= a < entries@.len() && 0 <= b < entries@.len() && a != b implies
                            path_components((#[trigger] entries@[a]).0@) != path_components((#[trigger] entries@[b]).0@) by {
                            assert(path_components(old_entries[a].0@) != path_components(old_entries[b].0@));
                        }
                    }
                    lemma_pairs_map(entries@);
                    assert(pairs_map(entries@) =~= pairs_map(old_entries).insert(key, snap)) by {
                        assert forall|k: Seq<Seq<char>>| #[trigger] pairs_map(entries@).contains_key(k)
                            <==> pairs_map(old_entries).insert(key, snap).contains_key(k) by {
                            if pairs_map(entries@).contains_key(k) {
                                let j = choose|j: int| 0 <= j < entries@.len() && path_components(entries@[j].0@) == k;
                                assert(old_entries[j].0@ == entries@[j].0@);
                            }
                            if pairs_map(old_entries).contains_key(k) {
                                let j = choose|j: int| 0 <= j < old_entries.len() && path_components(old_entries[j].0@) == k;
                                assert(old_entries[j].0@ == entries@[j].0@);
                            }
                        }
                        assert forall|k: Seq<Seq<char>>| #[trigger] pairs_map(entries@).contains_key(k)
                            implies pairs_map(entries@)[k] == pairs_map(old_entries).insert(key, snap)[k] by {
                            let j = choose|j: int| 0 <= j < entries@.len() && path_components(entries@[j].0@) == k;
                            assert(old_entries[j].0@ == entries@[j].0@);
                            if j != i {
                                assert(old_entries[j] == entries@[j]);
                            }
                        }
                    }
                    assert(pairs_spelling(entries@) =~= pairs_spelling(old_entries)) by {
                        assert forall|k: Seq<Seq<char>>| #[trigger] pairs_spelling(entries@).contains_key(k)
                            implies pairs_spelling(entries@)[k] == pairs_spelling(old_entries)[k] by {
                            assert(pairs_map(entries@).contains_key(k));
                            let j = choose|j: int| 0 <= j < entries@.len() && path_components(entries@[j].0@) == k;
                            assert(old_entries[j].0@ == entries@[j].0@);
                        }
                    }
                }
                self.entries = entries;
                Some(previous)
            },
            None => {
                let ghost pv = path@;
                entries.push((path, snap));
                proof {
                    assert(distinct_paths(entries@)) by {
                        assert forall|a: int, b: int| 0 <= a < entries@.len() && 0 <= b < entries@.len() && a != b implies
                            path_components((#[trigger] entries@[a]).0@) != path_components((#[trigger] entries@[b]).0@) by {
                            if a < old_entries.len() && b < old_entries.len() {
                                assert(path_components(old_entries[a].0@) != path_components(old_entries[b].0@));
                            }
                        }
                    }
                    assert(entries@.drop_last() =~= old_entries);
                    assert(!pairs_map(old_entries).contains_key(key)) by {
                        if pairs_map(old_entries).contains_key(key) {
                            let j = choose|j: int| 0 <= j < old_entries.len() && path_components(old_entries[j].0@) == key;
                        }
                    }
                }
                self.entries = entries;
                None
            },
        }
    }
}

/// The differences between the files on disk and those that the index
/// knows.
#[derive(Debug)]
pub struct ReconcileResult {
    /// On disk, not known.
    pub added: PathSet,
    /// Known, no longer on disk.
    pub removed: PathSet,
    /// On disk and known, with another snapshot.
    pub modified: PathSet,
}

impl Default for ReconcileResult {
    fn default() -> (res: ReconcileResult)
        ensures
            res.added@ == Set::<Seq<Seq<char>>>::empty(),
            res.removed@ == Set::<Seq<Seq<char>>>::empty(),
            res.modified@ == Set::<Seq<Seq<char>>>::empty(),
            res.added.spellings() == Set::<Seq<char>>::empty(),
            res.removed.spellings() == Set::<Seq<char>>::empty(),
            res.modified.spellings() == Set::<Seq<char>>::empty(),
    {
        ReconcileResult { added: PathSet::new(), removed: PathSet::new(), modified: PathSet::new() }
    }
}

/// The paths on disk that are not known.
pub open spec fn added_paths(disk: Map<Seq<Seq<char>>, FileSnapshot>, known: Map<Seq<Seq<char>>, FileSnapshot>) -> Set<Seq<Seq<char>>> {
    Set::new(|k: Seq<Seq<char>>| disk.contains_key(k) && !known.contains_key(k))
}

/// The known paths that are no longer on disk.
pub open spec fn removed_paths(disk: Map<Seq<Seq<char>>, FileSnapshot>, known: Map<Seq<Seq<char>>, FileSnapshot>) -> Set<Seq<Seq<char>>> {
    Set::new(|k: Seq<Seq<char>>| known.contains_key(k) && !disk.contains_key(k))
}

/// The paths on disk and known whose snapshots differ.
pub open spec fn modified_paths(disk: Map<Seq<Seq<char>>, FileSnapshot>, known: Map<Seq<Seq<char>>, FileSnapshot>) -> Set<Seq<Seq<char>>> {
    Set::new(|k: Seq<Seq<char>>| disk.contains_key(k) && known.contains_key(k) && disk[k] != known[k])
}

/// The spellings that `spelling` gives the paths `keys`.
pub open spec fn spelled(keys: Set<Seq<Seq<char>>>, spelling: Map<Seq<Seq<char>>, Seq<char>>) -> Set<Seq<char>> {
    keys.map(|k: Seq<Seq<char>>| spelling[k])
}

/// The spellings of the pairs `s` whose path meets `f`, among the first `n`.
spec fn spelled_where(s: Seq<(String, FileSnapshot)>, n: int, f: spec_fn(int) -> bool) -> Set<Seq<char>> {
    Set::new(|t: Seq<char>| exists|j: int| 0 <= j < n && s[j].0@ == t && #[trigger] f(j))
}

/// The paths of the pairs `s` that meet `f`, among the first `n`.
spec fn keys_where(s: Seq<(String, FileSnapshot)>, n: int, f: spec_fn(int) -> bool) -> Set<Seq<Seq<char>>> {
    Set::new(|k: Seq<Seq<char>>| exists|j: int| 0 <= j < n && path_components(s[j].0@) == k && #[trigger] f(j))
}

/// The paths of `s` that meet `f` are `keys`, and their spellings in `s`
/// are what `spelling` gives `keys`, when `f` picks the pairs whose path is
/// in `keys` and `keys` are paths of `s`.
proof fn lemma_spelled(s: Seq<(String, FileSnapshot)>, keys: Set<Seq<Seq<char>>>, f: spec_fn(int) -> bool)
    requires
        distinct_paths(s),
        forall|j: int| 0 <= j < s.len() ==> (#[trigger] f(j) <==> keys.contains(path_components(s[j].0@))),
        forall|k: Seq<Seq<char>>| keys.contains(k) ==> #[trigger] pairs_map(s).contains_key(k),
    ensures
        spelled_where(s, s.len() as int, f) == spelled(keys, pairs_spelling(s)),
        keys_where(s, s.len() as int, f) == keys,
{
    lemma_pairs_map(s);
    let l = spelled_where(s, s.len() as int, f);
    let r = spelled(keys, pairs_spelling(s));
    assert forall|t: Seq<char>| l.contains(t) <==> r.contains(t) by {
        if l.contains(t) {
            let j = choose|j: int| 0 <= j < s.len() && s[j].0@ == t && #[trigger] f(j);
            assert(pairs_spelling(s)[path_components(s[j].0@)] == s[j].0@);
            assert(keys.contains(path_components(s[j].0@)));
        }
        if r.contains(t) {
            let k = choose|k: Seq<Seq<char>>| keys.contains(k) && t == pairs_spelling(s)[k];
            assert(pairs_map(s).contains_key(k));
            let j = choose|j: int| 0 <= j < s.len() && path_components(s[j].0@) == k;
            assert(pairs_spelling(s)[path_components(s[j].0@)] == s[j].0@);
            assert(f(j));
        }
    }
    assert(l =~= r);
    let kw = keys_where(s, s.len() as int, f);
    assert forall|k: Seq<Seq<char>>| kw.contains(k) <==> keys.contains(k) by {
        if keys.contains(k) {
            assert(pairs_map(s).contains_key(k));
            let j = choose|j: int| 0 <= j < s.len() && path_components(s[j].0@) == k;
            assert(f(j));
        }
    }
    assert(kw =~= keys);
}

/// Adding the pair at `i` to what the first `i` pairs of `s` give, when it
/// meets `f`.
proof fn lemma_where_step(s: Seq<(String, FileSnapshot)>, i: int, f: spec_fn(int) -> bool)
    requires
        0 <= i < s.len(),
    ensures
        f(i) ==> spelled_where(s, i + 1, f) == spelled_where(s, i, f).insert(s[i].0@),
        f(i) ==> keys_where(s, i + 1, f) == keys_where(s, i, f).insert(path_components(s[i].0@)),
        !f(i) ==> spelled_where(s, i + 1, f) == spelled_where(s, i, f),
        !f(i) ==> keys_where(s, i + 1, f) == keys_where(s, i, f),
        distinct_paths(s) ==> !keys_where(s, i, f).contains(path_components(s[i].0@)),
{
    if f(i) {
        assert(spelled_where(s, i + 1, f) =~= spelled_where(s, i, f).insert(s[i].0@));
        assert(keys_where(s, i + 1, f) =~= keys_where(s, i, f).insert(path_components(s[i].0@)));
    } else {
        assert(spelled_where(s, i + 1, f) =~= spelled_where(s, i, f)) by {
            assert forall|t: Seq<char>| spelled_where(s, i + 1, f).contains(t) implies spelled_where(s, i, f).contains(t) by {
                let j = choose|j: int| 0 <= j < i + 1 && s[j].0@ == t && #[trigger] f(j);
                assert(j != i);
            }
        }
        assert(keys_where(s, i + 1, f) =~= keys_where(s, i, f)) by {
            assert forall|k: Seq<Seq<char>>| keys_where(s, i + 1, f).contains(k) implies keys_where(s, i, f).contains(k) by {
                let j = choose|j: int| 0 <= j < i + 1 && path_components(s[j].0@) == k && #[trigger] f(j);
                assert(j != i);
            }
        }
    }
    if distinct_paths(s) && keys_where(s, i, f).contains(path_components(s[i].0@)) {
        let j = choose|j: int| 0 <= j < i && path_components(s[j].0@) == path_components(s[i].0@) && #[trigger] f(j);
        assert(path_components(s[j].0@) != path_components(s[i].0@));
    }
}

/// Compares the state on disk with the known state and finds the
/// differences: the added and modified paths as the disk spells them, the
/// removed ones as the known state does.
pub fn reconcile(disk: &SnapshotMap, known: &SnapshotMap) -> (res: ReconcileResult)
    ensures
        res.added@ == added_paths(disk@, known@),
        res.removed@ == removed_paths(disk@, known@),
        res.modified@ == modified_paths(disk@, known@),
        res.added.spellings() == spelled(added_paths(disk@, known@), disk.spelling()),
        res.removed.spellings() == spelled(removed_paths(disk@, known@), known.spelling()),
        res.modified.spellings() == spelled(modified_paths(disk@, known@), disk.spelling()),
{
    proof {
        use_type_invariant(disk);
        use_type_invariant(known);
        lemma_pairs_map(disk.entries@);
        lemma_pairs_map(known.entries@);
    }
    let mut result = ReconcileResult::default();
    let ghost d = disk.entries@;
    let ghost kn = known.entries@;
    let ghost is_added = |j: int| !known@.contains_key(path_components(d[j].0@));
    let ghost is_modified = |j: int| known@.contains_key(path_components(d[j].0@)) && known@[path_components(d[j].0@)] != d[j].1;
    let ghost is_removed = |j: int| !disk@.contains_key(path_components(kn[j].0@));
    proof {
        assert(spelled_where(d, 0, is_added) =~= Set::<Seq<char>>::empty());
        assert(spelled_where(d, 0, is_modified) =~= Set::<Seq<char>>::empty());
        assert(keys_where(d, 0, is_added) =~= Set::<Seq<Seq<char>>>::empty());
        assert(keys_where(d, 0, is_modified) =~= Set::<Seq<Seq<char>>>::empty());
    }
    let mut i: usize = 0;
    while i < disk.entries.len()
        invariant
            0 <= i <= d.len(),
            d == disk.entries@,
            distinct_paths(d),
            forall|j: int| #[trigger] is_added(j) == !known@.contains_key(path_components(d[j].0@)),
            forall|j: int| #[trigger] is_modified(j) == (known@.contains_key(path_components(d[j].0@))
                && known@[path_components(d[j].0@)] != d[j].1),
            result.added@ == keys_where(d, i as int, is_added),
            result.added.spellings() == spelled_where(d, i as int, is_added),
            result.modified@ == keys_where(d, i as int, is_modified),
            result.modified.spellings() == spelled_where(d, i as int, is_modified),
            result.removed@ == Set::<Seq<Seq<char>>>::empty(),
            result.removed.spellings() == Set::<Seq<char>>::empty(),
        decreases d.len() - i,
    {
        let path = &disk.entries[i].0;
        let snap = disk.entries[i].1;
        proof {
            lemma_where_step(d, i as int, is_added);
            lemma_where_step(d, i as int, is_modified);
        }
        match known.get(path.as_str()) {
            None => {
                result.added.insert(path.clone());
            },
            Some(known_snap) => {
                if known_snap != snap {
                    result.modified.insert(path.clone());
                }
            },
        }
        i = i + 1;
    }
    proof {
        assert forall|k: Seq<Seq<char>>| added_paths(disk@, known@).contains(k) implies #[trigger] pairs_map(d).contains_key(k) by {}
        assert forall|k: Seq<Seq<char>>| modified_paths(disk@, known@).contains(k) implies #[trigger] pairs_map(d).contains_key(k) by {}
        assert forall|j: int| 0 <= j < d.len() implies (#[trigger] is_modified(j) <==> modified_paths(disk@, known@).contains(path_components(d[j].0@))) by {
            assert(pairs_map(d)[path_components(d[j].0@)] == d[j].1);
        }
        lemma_spelled(d, added_paths(disk@, known@), is_added);
        lemma_spelled(d, modified_paths(disk@, known@), is_modified);
        assert(spelled_where(kn, 0, is_removed) =~= Set::<Seq<char>>::empty());
        assert(keys_where(kn, 0, is_removed) =~= Set::<Seq<Seq<char>>>::empty());
    }
    let mut i: usize = 0;
    while i < known.entries.len()
        invariant
            0 <= i <= kn.len(),
            kn == known.entries@,
            distinct_paths(kn),
            forall|j: int| #[trigger] is_removed(j) == !disk@.contains_key(path_components(kn[j].0@)),
            result.added@ == added_paths(disk@, known@),
            result.modified@ == modified_paths(disk@, known@),
            result.added.spellings() == spelled(added_paths(disk@, known@), disk.spelling()),
            result.modified.spellings() == spelled(modified_paths(disk@, known@), disk.spelling()),
            result.removed@ == keys_where(kn, i as int, is_removed),
            result.removed.spellings() == spelled_where(kn, i as int, is_removed),
        decreases kn.len() - i,
    {
        let path = &known.entries[i].0;
        proof {
            lemma_where_step(kn, i as int, is_removed);
        }
        if !disk.contains_key(path.as_str()) {
            result.removed.insert(path.clone());
        }
        i = i + 1;
    }
    proof {
        assert forall|k: Seq<Seq<char>>| removed_paths(disk@, known@).contains(k) implies #[trigger] pairs_map(kn).contains_key(k) by {}
        lemma_spelled(kn, removed_paths(disk@, known@), is_removed);
    }
    result
}

/// Every path on disk or known falls in exactly one class: added, modified,
/// removed or unchanged; added and modified paths are on disk, removed ones
/// are not.
pub proof fn lemma_reconcile_partition(disk: Map<Seq<Seq<char>>, FileSnapshot>, known: Map<Seq<Seq<char>>, FileSnapshot>, k: Seq<Seq<char>>)
    ensures
        added_paths(disk, known).contains(k) ==> disk.contains_key(k) && !known.contains_key(k),
        modified_paths(disk, known).contains(k) ==> disk.contains_key(k) && known.contains_key(k),
        removed_paths(disk, known).contains(k) ==> !disk.contains_key(k) && known.contains_key(k),
        disk.contains_key(k) || known.contains_key(k) ==> {
            ||| added_paths(disk, known).contains(k)
            ||| modified_paths(disk, known).contains(k)
            ||| removed_paths(disk, known).contains(k)
            ||| disk[k] == known[k]
        },
{
}

/// Reconciling a state with itself finds no difference.
pub proof fn lemma_reconcile_same(state: Map<Seq<Seq<char>>, FileSnapshot>)
    ensures
        added_paths(state, state) == Set::<Seq<Seq<char>>>::empty(),
        removed_paths(state, state) == Set::<Seq<Seq<char>>>::empty(),
        modified_paths(state, state) == Set::<Seq<Seq<char>>>::empty(),
{
    assert(added_paths(state, state) =~= Set::<Seq<Seq<char>>>::empty());
    assert(removed_paths(state, state) =~= Set::<Seq<Seq<char>>>::empty());
    assert(modified_paths(state, state) =~= Set::<Seq<Seq<char>>>::empty());
}

/// The paths on disk are the known ones, less the removed ones, plus the
/// added ones.
pub proof fn lemma_reconcile_rebuilds_disk(disk: Map<Seq<Seq<char>>, FileSnapshot>, known: Map<Seq<Seq<char>>, FileSnapshot>)
    ensures
        disk.dom() == known.dom().difference(removed_paths(disk, known)).union(added_paths(disk, known)),
{
    assert(disk.dom() =~= known.dom().difference(removed_paths(disk, known)).union(added_paths(disk, known)));
}

} // verus!
