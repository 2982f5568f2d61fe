//! Collapsing bursts of file-system events: events on a path wait until a
//! window has passed since the first of them, and then leave as one event
//! with the latest operation; operations marked immediate leave at the next
//! drain. Times are held as nanoseconds since the debouncer was made.

use vstd::prelude::*;
use std::time::{Duration, Instant};
use crate::watcher::path::{path_components, same_path};
use crate::watcher::operation::OperationType;

verus! {

#[verifier::external_type_specification]
#[verifier::external_body]
pub struct ExInstant(Instant);

/// `Instant::now`: a reading of the monotonic clock. Nothing is stated of
/// it: it depends on the time.
#[verifier::external_body]
fn clock_now() -> Instant {
    Instant::now()
}

/// `Instant::duration_since`: the time from `earlier` to `now` (zero if
/// `earlier` is later). Nothing is stated of it: Verus sees no value inside
/// an `Instant`, and the instants come from the clock.
#[verifier::external_body]
fn time_between(now: &Instant, earlier: &Instant) -> Duration {
    now.duration_since(*earlier)
}

/// Name for what `Duration::as_nanos` returns: the length of `d` in
/// nanoseconds.
pub uninterp spec fn duration_nanos(d: Duration) -> nat;

/// `Duration::as_nanos`: the length of `d` in nanoseconds, named by
/// `duration_nanos`.
#[verifier::external_body]
fn nanos_of(d: &Duration) -> (res: u128)
    ensures
        res == duration_nanos(*d),
{
    d.as_nanos()
}

/// A path whose events have been collapsed, with its latest operation.
#[derive(Debug, Clone, PartialEq, Eq)]
pub struct DebouncedEvent {
    pub path: String,
    pub operation: OperationType,
}

/// The events of a path that wait to leave.
struct PendingEvent {
    path: String,
    operation: OperationType,
    first_seen: u128,
    immediate: bool,
}

/// A waiting path as plain values: the path, its latest operation, the
/// time of its first event, and whether an immediate operation was recorded
/// for it.
pub struct PendingView {
    pub path: Seq<char>,
    pub operation: OperationType,
    pub first_seen: nat,
    pub immediate: bool,
}

spec fn pending_view(e: PendingEvent) -> PendingView {
    PendingView { path: e.path@, operation: e.operation, first_seen: e.first_seen as nat, immediate: e.immediate }
}

/// Whether no two waiting entries name the same path.
pub open spec fn distinct_pending(p: Seq<PendingView>) -> bool {
    forall|i: int, j: int| 0 <= i < p.len() && 0 <= j < p.len() && i != j
        ==> path_components((#[trigger] p[i]).path) != path_components((#[trigger] p[j]).path)
}

/// Where the path `path` waits in `p`, if it does: the entry that names the
/// same path, whatever its spelling.
pub open spec fn pending_index(p: Seq<PendingView>, path: Seq<char>) -> Option<int> {
    if exists|i: int| 0 <= i < p.len() && path_components(p[i].path) == path_components(path) {
        Some(choose|i: int| 0 <= i < p.len() && path_components(p[i].path) == path_components(path))
    } else {
        None
    }
}

/// The waiting entries after an event `op` on `path` at time `now`, where
/// `immediate` tells whether `op` is an immediate operation: a waiting path
/// keeps its first spelling and the time of its first event, takes the
/// latest operation, and stays immediate once it was; a new path waits
/// behind the others, first seen at `now`.
pub open spec fn recorded(p: Seq<PendingView>, path: Seq<char>, op: OperationType, immediate: bool, now: nat) -> Seq<PendingView> {
    match pending_index(p, path) {
        Some(i) => p.update(i, PendingView { path: p[i].path, operation: op, first_seen: p[i].first_seen, immediate: p[i].immediate || immediate }),
        None => p.push(PendingView { path, operation: op, first_seen: now, immediate }),
    }
}

/// The time from `since` to `now`, or zero if `since` is later.
pub open spec fn waited(now: nat, since: nat) -> nat {
    if now >= since { (now - since) as nat } else { 0 }
}

/// For each entry of `p` in order, whether its window has passed at time
/// `now`: whether at least `window` has gone by since its first event.
pub open spec fn expired_at(p: Seq<PendingView>, now: nat, window: nat) -> Seq<bool> {
    Seq::new(p.len(), |i: int| waited(now, p[i].first_seen) >= window)
}

/// The entries of `p` that leave when `expired` tells which windows have
/// passed: the immediate ones and the expired ones, in order.
pub open spec fn leaving(p: Seq<PendingView>, expired: Seq<bool>) -> Seq<PendingView>
    decreases p.len(),
{
    if p.len() == 0 {
        Seq::empty()
    } else {
        let init = leaving(p.drop_last(), expired);
        if p.last().immediate || expired[p.len() - 1] { init.push(p.last()) } else { init }
    }
}

/// The entries of `p` that keep waiting, in order.
pub open spec fn staying(p: Seq<PendingView>, expired: Seq<bool>) -> Seq<PendingView>
    decreases p.len(),
{
    if p.len() == 0 {
        Seq::empty()
    } else {
        let init = staying(p.drop_last(), expired);
        if p.last().immediate || expired[p.len() - 1] { init } else { init.push(p.last()) }
    }
}

/// The events that leaving entries make.
pub open spec fn as_events(p: Seq<PendingView>) -> Seq<(Seq<char>, OperationType)> {
    p.map_values(|e: PendingView| (e.path, e.operation))
}

/// Whether no two of the events `es` name the same path.
pub open spec fn distinct_events(es: Seq<(Seq<char>, OperationType)>) -> bool {
    forall|i: int, j: int| 0 <= i < es.len() && 0 <= j < es.len() && i != j
        ==> path_components((#[trigger] es[i]).0) != path_components((#[trigger] es[j]).0)
}

/// Debounced events as plain values.
pub open spec fn debounced_view(es: Seq<DebouncedEvent>) -> Seq<(Seq<char>, OperationType)> {
    es.map_values(|e: DebouncedEvent| (e.path@, e.operation))
}

/// Collapses bursts of events per path.
pub struct Debouncer {
    window: u128,
    origin: Instant,
    pending: Vec<PendingEvent>,
    immediate_ops: Vec<OperationType>,
}

impl Debouncer {
    /// The waiting paths, in the order in which they were first recorded.
    pub closed spec fn pending(&self) -> Seq<PendingView> {
        self.pending@.map_values(|e: PendingEvent| pending_view(e))
    }

    /// The operations that leave at the next drain.
    pub closed spec fn immediate(&self) -> Set<OperationType> {
        self.immediate_ops@.to_set()
    }

    /// How long events on a path wait, in nanoseconds.
    pub closed spec fn window(&self) -> nat {
        self.window as nat
    }

    #[verifier::type_invariant]
    closed spec fn distinct(&self) -> bool {
        distinct_pending(self.pending())
    }

    /// A debouncer with the given window, for which deletions are
    /// immediate.
    pub fn new(window: Duration) -> (res: Debouncer)
        ensures
            res.pending() == Seq::<PendingView>::empty(),
            res.immediate() == set![OperationType::Delete],
            res.window() == duration_nanos(window),
            distinct_pending(res.pending()),
    {
        let mut immediate_ops: Vec<OperationType> = Vec::new();
        immediate_ops.push(OperationType::Delete);
        let res = Debouncer { window: nanos_of(&window), origin: clock_now(), pending: Vec::new(), immediate_ops };
        assert(res.pending() =~= Seq::<PendingView>::empty());
        assert(res.immediate() =~= set![OperationType::Delete]) by {
            assert(res.immediate_ops@ =~= seq![OperationType::Delete]);
            assert forall|o: OperationType| res.immediate().contains(o) <==> o == OperationType::Delete by {
                if o == OperationType::Delete {
                    assert(res.immediate_ops@[0] == o);
                }
            }
        }
        res
    }

    /// Sets which operations leave at the next drain.
    pub fn with_immediate_ops(self, ops: &[OperationType]) -> (res: Debouncer)
        ensures
            res.pending() == self.pending(),
            res.immediate() == ops@.to_set(),
            res.window() == self.window(),
            distinct_pending(res.pending()),
    {
        proof {
            use_type_invariant(&self);
        }
        let mut immediate_ops: Vec<OperationType> = Vec::new();
        let mut i: usize = 0;
        while i < ops.len()
            invariant
                0 <= i <= ops@.len(),
                immediate_ops@ == ops@.take(i as int),
            decreases ops@.len() - i,
        {
            immediate_ops.push(ops[i]);
            i = i + 1;
            assert(immediate_ops@ =~= ops@.take(i as int));
        }
        assert(ops@.take(i as int) =~= ops@);
        Debouncer { window: self.window, origin: self.origin, pending: self.pending, immediate_ops }
    }

    fn is_immediate(&self, op: OperationType) -> (res: bool)
        ensures
            res == self.immediate().contains(op),
    {
        let mut i: usize = 0;
        while i < self.immediate_ops.len()
            invariant
                0 <= i <= self.immediate_ops@.len(),
                forall|j: int| 0 <= j < i ==> self.immediate_ops@[j] != op,
            decreases self.immediate_ops@.len() - i,
        {
            if self.immediate_ops[i] == op {
                assert(self.immediate_ops@[i as int] == op);
                return true;
            }
            i = i + 1;
        }
        false
    }

    /// The time since the debouncer was made, in nanoseconds, as the clock
    /// reads it now.
    fn clock_reading(&self) -> u128 {
        nanos_of(&time_between(&clock_now(), &self.origin))
    }

    /// Records an event `operation` on `path`, as the clock reads it now: a
    /// waiting path keeps the time of its first event, a new one is first
    /// seen at the reading.
    pub fn record(&mut self, path: String, operation: OperationType)
        ensures
            exists|now: nat| #![trigger recorded(old(self).pending(), path@, operation, old(self).immediate().contains(operation), now)]
                final(self).pending() == recorded(old(self).pending(), path@, operation, old(self).immediate().contains(operation), now),
            final(self).immediate() == old(self).immediate(),
            final(self).window() == old(self).window(),
            distinct_pending(final(self).pending()),
    {
        let now = self.clock_reading();
        let ghost p = self.pending();
        let ghost pv = path@;
        self.record_at(path, operation, now);
        assert(self.pending() == recorded(p, pv, operation, old(self).immediate().contains(operation), now as nat));
    }

    /// Records an event `operation` on `path` at time `now`, in nanoseconds
    /// since the debouncer was made.
    pub fn record_at(&mut self, path: String, operation: OperationType, now: u128)
        ensures
            final(self).pending() == recorded(old(self).pending(), path@, operation, old(self).immediate().contains(operation), now as nat),
            distinct_pending(final(self).pending()),
            final(self).immediate() == old(self).immediate(),
            final(self).window() == old(self).window(),
    {
        proof {
            use_type_invariant(&*self);
        }
        let immediate = self.is_immediate(operation);
        let ghost p = self.pending();
        let mut pending: Vec<PendingEvent> = Vec::new();
        std::mem::swap(&mut pending, &mut self.pending);
        let found = find_pending(&pending, path.as_str());
        let i: usize = match found {
            Some(k) => k,
            None => pending.len(),
        };
        assert(p == pending@.map_values(|e: PendingEvent| pending_view(e)));
        if i < pending.len() {
            assert(path_components(p[i as int].path) == path_components(path@));
            proof {
                assert(pending_index(p, path@) == Some(i as int)) by {
                    let k = choose|k: int| 0 <= k < p.len() && path_components(p[k].path) == path_components(path@);
                    if k != i as int {
                        assert(path_components(p[k].path) != path_components(p[i as int].path));
                    }
                }
            }
            let old_entry = pending.remove(i);
            let entry = PendingEvent {
                path: old_entry.path,
                operation,
                first_seen: old_entry.first_seen,
                immediate: old_entry.immediate || immediate,
            };
            pending.insert(i, entry);
            assert(pending@.map_values(|e: PendingEvent| pending_view(e)) =~= recorded(p, path@, operation, immediate, now as nat));
        } else {
            assert(pending_index(p, path@) is None);
            let ghost pv = path@;
            pending.push(PendingEvent { path, operation, first_seen: now, immediate });
            assert(pending@.map_values(|e: PendingEvent| pending_view(e)) =~= recorded(p, pv, operation, immediate, now as nat));
            proof {
                assert forall|a: int, b: int| 0 <= a < pending@.len() && 0 <= b < pending@.len() && a != b implies
                    pending_view(pending@[a]).path != pending_view(pending@[b]).path by {
                    if a < p.len() && b < p.len() {
                        assert(p[a].path != p[b].path);
                    } else if a < p.len() {
                        assert(p[a].path != pv);
                    } else {
                        assert(p[b].path != pv);
                    }
                }
            }
        }
        proof {
            let q = pending@.map_values(|e: PendingEvent| pending_view(e));
            assert(distinct_pending(q)) by {
                assert forall|a: int, b: int| 0 <= a < q.len() && 0 <= b < q.len() && a != b implies (#[trigger] q[a]).path != (#[trigger] q[b]).path by {
                    assert(q[a] == pending_view(pending@[a]));
                    assert(q[b] == pending_view(pending@[b]));
                    if i < p.len() {
                        if a != i && b != i {
                            assert(p[a].path != p[b].path);
                        } else if a == i {
                            assert(p[b].path != p[i as int].path);
                        } else {
                            assert(p[a].path != p[i as int].path);
                        }
                    }
                }
            }
        }
        self.pending = pending;
    }

    /// The number of waiting paths.
    pub fn pending_count(&self) -> (res: usize)
        ensures
            res == self.pending().len(),
    {
        self.pending.len()
    }

    /// Takes out the waiting paths that leave when `expired` tells, for
    /// each waiting path in order, whether its window has passed: those
    /// marked immediate and those whose window has passed.
    pub fn drain_expired(&mut self, expired: &[bool]) -> (res: Vec<DebouncedEvent>)
        requires
            expired@.len() == old(self).pending().len(),
        ensures
            debounced_view(res@) == as_events(leaving(old(self).pending(), expired@)),
            final(self).pending() == staying(old(self).pending(), expired@),
            final(self).immediate() == old(self).immediate(),
            final(self).window() == old(self).window(),
            distinct_pending(final(self).pending()),
            distinct_events(debounced_view(res@)),
    {
        proof {
            use_type_invariant(&*self);
        }
        let ghost p = self.pending();
        let mut pending: Vec<PendingEvent> = Vec::new();
        std::mem::swap(&mut pending, &mut self.pending);
        let mut events: Vec<DebouncedEvent> = Vec::new();
        let mut kept: Vec<PendingEvent> = Vec::new();
        let mut i: usize = 0;
        let n = pending.len();
        while pending.len() > 0
            invariant
                n == p.len(),
                expired@.len() == n,
                i + pending@.len() == n,
                pending@.map_values(|e: PendingEvent| pending_view(e)) == p.skip(i as int),
                debounced_view(events@) == as_events(leaving(p.take(i as int), expired@)),
                kept@.map_values(|e: PendingEvent| pending_view(e)) == staying(p.take(i as int), expired@),
                distinct_pending(p),
            decreases pending@.len(),
        {
            let ghost before_pending = pending@;
            assert(before_pending.map_values(|e: PendingEvent| pending_view(e))[0] == pending_view(before_pending[0]));
            let e = pending.remove(0);
            let ghost ev = pending_view(e);
            assert(pending@ =~= before_pending.skip(1));
            assert(ev == p[i as int]);
            assert(p.take(i + 1).drop_last() =~= p.take(i as int));
            assert(p.take(i + 1).last() == ev);
            assert forall|k: int| 0 <= k < pending@.len() implies #[trigger] pending_view(pending@[k]) == p.skip(i + 1)[k] by {
                assert(pending@[k] == before_pending[k + 1]);
                assert(before_pending.map_values(|e: PendingEvent| pending_view(e))[k + 1] == pending_view(before_pending[k + 1]));
            }
            assert(pending@.map_values(|e: PendingEvent| pending_view(e)) =~= p.skip(i + 1));
            if e.immediate || expired[i] {
                let ghost before = debounced_view(events@);
                events.push(DebouncedEvent { path: e.path, operation: e.operation });
                assert(debounced_view(events@) =~= before.push((ev.path, ev.operation)));
                assert(as_events(leaving(p.take(i + 1), expired@)) =~= as_events(leaving(p.take(i as int), expired@)).push((ev.path, ev.operation)));
            } else {
                let ghost before = kept@.map_values(|e: PendingEvent| pending_view(e));
                kept.push(e);
                assert(kept@.map_values(|e: PendingEvent| pending_view(e)) =~= before.push(ev));
            }
            i = i + 1;
        }
        assert(p.take(i as int) =~= p);
        proof {
            lemma_staying_distinct(p, expired@);
            lemma_leaving_distinct(p, expired@);
            let l = leaving(p, expired@);
            let es = as_events(l);
            assert forall|a: int, b: int| 0 <= a < es.len() && 0 <= b < es.len() && a != b implies
                path_components((#[trigger] es[a]).0) != path_components((#[trigger] es[b]).0) by {
                assert(es[a].0 == l[a].path && es[b].0 == l[b].path);
            }
        }
        self.pending = kept;
        events
    }

    /// Takes out the waiting paths whose window has passed at time `now`,
    /// in nanoseconds since the debouncer was made, and those marked
    /// immediate.
    pub fn drain_at(&mut self, now: u128) -> (res: Vec<DebouncedEvent>)
        ensures
            debounced_view(res@) == as_events(leaving(old(self).pending(), expired_at(old(self).pending(), now as nat, old(self).window()))),
            final(self).pending() == staying(old(self).pending(), expired_at(old(self).pending(), now as nat, old(self).window())),
            final(self).immediate() == old(self).immediate(),
            final(self).window() == old(self).window(),
            distinct_pending(final(self).pending()),
            distinct_events(debounced_view(res@)),
    {
        let ghost flags = expired_at(self.pending(), now as nat, self.window());
        let mut expired: Vec<bool> = Vec::new();
        let mut i: usize = 0;
        while i < self.pending.len()
            invariant
                0 <= i <= self.pending@.len(),
                flags == expired_at(self.pending(), now as nat, self.window()),
                expired@ == flags.take(i as int),
            decreases self.pending@.len() - i,
        {
            let since = self.pending[i].first_seen;
            let waited: u128 = if now >= since { now - since } else { 0 };
            assert(self.pending()[i as int] == pending_view(self.pending@[i as int]));
            expired.push(waited >= self.window);
            i = i + 1;
            assert(expired@ =~= flags.take(i as int));
        }
        assert(expired@ =~= flags);
        self.drain_expired(&expired)
    }

    /// Takes out the waiting paths whose window has passed, and those
    /// marked immediate, as the clock reads it now: what is stated holds of
    /// the one reading that the drain takes.
    pub fn drain_ready(&mut self) -> (res: Vec<DebouncedEvent>)
        ensures
            exists|now: nat| #![trigger expired_at(old(self).pending(), now, old(self).window())]
                debounced_view(res@) == as_events(leaving(old(self).pending(), expired_at(old(self).pending(), now, old(self).window())))
                && final(self).pending() == staying(old(self).pending(), expired_at(old(self).pending(), now, old(self).window())),
            final(self).immediate() == old(self).immediate(),
            final(self).window() == old(self).window(),
            distinct_pending(final(self).pending()),
            distinct_events(debounced_view(res@)),
    {
        let now = self.clock_reading();
        self.drain_at(now)
    }
}

/// Where `path` waits among `pending`, if it does.
fn find_pending(pending: &Vec<PendingEvent>, path: &str) -> (res: Option<usize>)
    ensures
        match res {
            Some(i) => i < pending@.len() && path_components(pending@[i as int].path@) == path_components(path@),
            None => forall|j: int| 0 <= j < pending@.len() ==> path_components(pending@[j].path@) != path_components(path@),
        },
{
    let mut i: usize = 0;
    while i < pending.len()
        invariant
            0 <= i <= pending@.len(),
            forall|j: int| 0 <= j < i ==> path_components(pending@[j].path@) != path_components(path@),
        decreases pending@.len() - i,
    {
        if same_path(pending[i].path.as_str(), path) {
            return Some(i);
        }
        i = i + 1;
    }
    None
}

/// The paths that keep waiting are still distinct.
proof fn lemma_staying_distinct(p: Seq<PendingView>, expired: Seq<bool>)
    requires
        distinct_pending(p),
    ensures
        distinct_pending(staying(p, expired)),
        forall|k: int| 0 <= k < staying(p, expired).len() ==> p.contains(#[trigger] staying(p, expired)[k]),
    decreases p.len(),
{
    if p.len() > 0 {
        let init = p.drop_last();
        assert(distinct_pending(init));
        lemma_staying_distinct(init, expired);
        let s = staying(p, expired);
        assert forall|k: int| 0 <= k < s.len() implies p.contains(#[trigger] s[k]) by {
            if k < staying(init, expired).len() {
                let j = choose|j: int| 0 <= j < init.len() && init[j] == staying(init, expired)[k];
                assert(p[j] == init[j]);
            } else {
                assert(p[p.len() - 1] == s[k]);
            }
        }
        assert forall|a: int, b: int| 0 <= a < s.len() && 0 <= b < s.len() && a != b implies (#[trigger] s[a]).path != (#[trigger] s[b]).path by {
            let si = staying(init, expired);
            if a < si.len() && b < si.len() {
            } else if a < si.len() {
                let j = choose|j: int| 0 <= j < init.len() && init[j] == si[a];
                assert(p[j] == init[j]);
                assert(p[j].path != p[p.len() - 1].path);
            } else {
                let j = choose|j: int| 0 <= j < init.len() && init[j] == si[b];
                assert(p[j] == init[j]);
                assert(p[j].path != p[p.len() - 1].path);
            }
        }
    }
}

/// The paths that leave are distinct too.
proof fn lemma_leaving_distinct(p: Seq<PendingView>, expired: Seq<bool>)
    requires
        distinct_pending(p),
    ensures
        distinct_pending(leaving(p, expired)),
        forall|k: int| 0 <= k < leaving(p, expired).len() ==> p.contains(#[trigger] leaving(p, expired)[k]),
    decreases p.len(),
{
    if p.len() > 0 {
        let init = p.drop_last();
        let n = p.len() - 1;
        assert(distinct_pending(init));
        lemma_leaving_distinct(init, expired);
        let s = leaving(p, expired);
        let si = leaving(init, expired);
        assert forall|k: int| 0 <= k < s.len() implies p.contains(#[trigger] s[k]) by {
            if k < si.len() {
                let j = choose|j: int| 0 <= j < init.len() && init[j] == si[k];
                assert(p[j] == init[j]);
            } else {
                assert(p[n] == s[k]);
            }
        }
        assert forall|a: int, b: int| 0 <= a < s.len() && 0 <= b < s.len() && a != b implies
            path_components((#[trigger] s[a]).path) != path_components((#[trigger] s[b]).path) by {
            if a < si.len() && b < si.len() {
                assert(s[a] == si[a] && s[b] == si[b]);
            } else if a < si.len() {
                let j = choose|j: int| 0 <= j < init.len() && init[j] == si[a];
                assert(p[j] == init[j]);
                assert(s[b] == p[n]);
                assert(path_components(p[j].path) != path_components(p[n].path));
            } else {
                let j = choose|j: int| 0 <= j < init.len() && init[j] == si[b];
                assert(p[j] == init[j]);
                assert(s[a] == p[n]);
                assert(path_components(p[j].path) != path_components(p[n].path));
            }
        }
    }
}

/// Recording an event on a waiting path leaves the number of waiting paths
/// as it was; recording one on a new path adds one.
pub proof fn lemma_record_count(p: Seq<PendingView>, path: Seq<char>, op: OperationType, immediate: bool, now: nat)
    ensures
        recorded(p, path, op, immediate, now).len() == if pending_index(p, path) is Some { p.len() } else { p.len() + 1 },
{
    if exists|i: int| 0 <= i < p.len() && p[i].path == path {
        let i = choose|i: int| 0 <= i < p.len() && p[i].path == path;
    }
}

/// After an event on `path`, the path waits with the operation of that
/// event (the latest one wins), and it is immediate if the event was.
pub proof fn lemma_record_latest_wins(p: Seq<PendingView>, path: Seq<char>, op: OperationType, immediate: bool, now: nat)
    ensures
        exists|k: int| #![trigger recorded(p, path, op, immediate, now)[k]]
            0 <= k < recorded(p, path, op, immediate, now).len()
            && path_components(recorded(p, path, op, immediate, now)[k].path) == path_components(path)
            && recorded(p, path, op, immediate, now)[k].operation == op
            && (immediate ==> recorded(p, path, op, immediate, now)[k].immediate),
{
    let r = recorded(p, path, op, immediate, now);
    match pending_index(p, path) {
        Some(i) => {
            let i = choose|i: int| 0 <= i < p.len() && path_components(p[i].path) == path_components(path);
            assert(path_components(r[i].path) == path_components(path));
        },
        None => {
            assert(r[p.len() as int].path == path);
        },
    }
}

/// An event on a path that already waits keeps the time of the path's first
/// event, whatever the clock reads: only a new path takes the reading.
pub proof fn lemma_record_keeps_first_seen(p: Seq<PendingView>, path: Seq<char>, op: OperationType, immediate: bool, t1: nat, t2: nat)
    ensures
        pending_index(p, path) is Some ==> recorded(p, path, op, immediate, t1) == recorded(p, path, op, immediate, t2),
        pending_index(p, path) is Some ==> recorded(p, path, op, immediate, t1)[pending_index(p, path)->0].first_seen
            == p[pending_index(p, path)->0].first_seen,
        pending_index(p, path) is None ==> recorded(p, path, op, immediate, t1).last().first_seen == t1,
{
}

/// A drain takes out every immediate path, whatever the clock reads, and
/// every waiting path either leaves or stays, never both.
pub proof fn lemma_drain_splits(p: Seq<PendingView>, expired: Seq<bool>)
    requires
        expired.len() == p.len(),
    ensures
        leaving(p, expired).len() + staying(p, expired).len() == p.len(),
        forall|k: int| 0 <= k < p.len() && (#[trigger] p[k]).immediate ==> leaving(p, expired).contains(p[k]),
{
    lemma_drain_splits_prefix(p, expired);
}

proof fn lemma_drain_splits_prefix(p: Seq<PendingView>, expired: Seq<bool>)
    requires
        expired.len() >= p.len(),
    ensures
        leaving(p, expired).len() + staying(p, expired).len() == p.len(),
        forall|k: int| 0 <= k < p.len() && (#[trigger] p[k]).immediate ==> leaving(p, expired).contains(p[k]),
    decreases p.len(),
{
    if p.len() > 0 {
        let init = p.drop_last();
        lemma_drain_splits_prefix(init, expired);
        assert forall|k: int| 0 <= k < p.len() && (#[trigger] p[k]).immediate implies leaving(p, expired).contains(p[k]) by {
            if k < p.len() - 1 {
                assert(init[k] == p[k]);
                let j = choose|j: int| 0 <= j < leaving(init, expired).len() && leaving(init, expired)[j] == init[k];
                assert(leaving(p, expired)[j] == p[k]);
            } else {
                assert(leaving(p, expired).last() == p[k]);
            }
        }
    }
}

/// A drain on distinct waiting paths takes out exactly the entries that are
/// immediate or whose flag is set, and keeps exactly the others, unchanged
/// (with the time of their first event).
pub proof fn lemma_drain_exactly(p: Seq<PendingView>, expired: Seq<bool>)
    requires
        distinct_pending(p),
        expired.len() == p.len(),
    ensures
        forall|k: int| 0 <= k < p.len() ==>
            (leaving(p, expired).contains(#[trigger] p[k]) <==> (p[k].immediate || expired[k])),
        forall|k: int| 0 <= k < p.len() ==>
            (staying(p, expired).contains(#[trigger] p[k]) <==> !(p[k].immediate || expired[k])),
{
    lemma_drain_exactly_prefix(p, expired);
}

proof fn lemma_drain_exactly_prefix(p: Seq<PendingView>, expired: Seq<bool>)
    requires
        distinct_pending(p),
        expired.len() >= p.len(),
    ensures
        forall|k: int| 0 <= k < p.len() ==>
            (leaving(p, expired).contains(#[trigger] p[k]) <==> (p[k].immediate || expired[k])),
        forall|k: int| 0 <= k < p.len() ==>
            (staying(p, expired).contains(#[trigger] p[k]) <==> !(p[k].immediate || expired[k])),
        forall|e: PendingView| #[trigger] leaving(p, expired).contains(e) ==> p.contains(e),
        forall|e: PendingView| #[trigger] staying(p, expired).contains(e) ==> p.contains(e),
    decreases p.len(),
{
    if p.len() > 0 {
        let init = p.drop_last();
        let n = p.len() - 1;
        assert(distinct_pending(init));
        lemma_drain_exactly_prefix(init, expired);
        let li = leaving(init, expired);
        let si = staying(init, expired);
        let l = leaving(p, expired);
        let s = staying(p, expired);
        let last = p[n];
        assert(last == p.last());
        assert forall|e: PendingView| #[trigger] l.contains(e) implies p.contains(e) by {
            let j = choose|j: int| 0 <= j < l.len() && l[j] == e;
            if j < li.len() {
                assert(l[j] == li[j]);
                assert(li.contains(e));
                let m = choose|m: int| 0 <= m < init.len() && init[m] == e;
                assert(p[m] == e);
            } else {
                assert(p[n] == e);
            }
        }
        assert forall|e: PendingView| #[trigger] s.contains(e) implies p.contains(e) by {
            let j = choose|j: int| 0 <= j < s.len() && s[j] == e;
            if j < si.len() {
                assert(s[j] == si[j]);
                assert(si.contains(e));
                let m = choose|m: int| 0 <= m < init.len() && init[m] == e;
                assert(p[m] == e);
            } else {
                assert(p[n] == e);
            }
        }
        // The last entry differs from every earlier one, by its path.
        assert(!init.contains(last)) by {
            if init.contains(last) {
                let m = choose|m: int| 0 <= m < init.len() && init[m] == last;
                assert(p[m] == init[m]);
                assert(p[m].path != p[n].path);
            }
        }
        assert forall|k: int| 0 <= k < p.len() implies
            (l.contains(#[trigger] p[k]) <==> (p[k].immediate || expired[k]))
            && (s.contains(p[k]) <==> !(p[k].immediate || expired[k])) by {
            if k < n {
                assert(init[k] == p[k]);
                assert(p[k] != last) by {
                    assert(p[k].path != p[n].path);
                }
                if p[k].immediate || expired[k] {
                    let j = choose|j: int| 0 <= j < li.len() && li[j] == init[k];
                    assert(l[j] == p[k]);
                    if s.contains(p[k]) {
                        let j2 = choose|j2: int| 0 <= j2 < s.len() && s[j2] == p[k];
                        if j2 < si.len() {
                            assert(s[j2] == si[j2]);
                            assert(si.contains(init[k]));
                        }
                    }
                } else {
                    let j = choose|j: int| 0 <= j < si.len() && si[j] == init[k];
                    assert(s[j] == p[k]);
                    if l.contains(p[k]) {
                        let j2 = choose|j2: int| 0 <= j2 < l.len() && l[j2] == p[k];
                        if j2 < li.len() {
                            assert(l[j2] == li[j2]);
                            assert(li.contains(init[k]));
                        }
                    }
                }
            } else {
                if last.immediate || expired[n] {
                    assert(l[l.len() - 1] == last);
                    if s.contains(last) {
                        assert(si.contains(last));
                    }
                } else {
                    assert(s[s.len() - 1] == last);
                    if l.contains(last) {
                        assert(li.contains(last));
                    }
                }
            }
        }
    }
}

/// The entry of `p` for the path `q`, under any spelling, if there is one.
pub open spec fn entry_for(p: Seq<PendingView>, q: Seq<char>) -> Option<PendingView> {
    match pending_index(p, q) {
        Some(i) => Some(p[i]),
        None => None,
    }
}

/// The waiting entries after the events `evs` are recorded on `p` in turn,
/// each event being its path, its operation, whether the operation is
/// immediate, and its time.
pub open spec fn recorded_all(p: Seq<PendingView>, evs: Seq<(Seq<char>, OperationType, bool, nat)>) -> Seq<PendingView>
    decreases evs.len(),
{
    if evs.len() == 0 {
        p
    } else {
        let e = evs.last();
        recorded(recorded_all(p, evs.drop_last()), e.0, e.1, e.2, e.3)
    }
}

/// The operation of the latest of the events `evs` on the path `q`, if
/// there is one.
pub open spec fn last_op(evs: Seq<(Seq<char>, OperationType, bool, nat)>, q: Seq<char>) -> Option<OperationType>
    decreases evs.len(),
{
    if evs.len() == 0 {
        None
    } else if path_components(evs.last().0) == path_components(q) {
        Some(evs.last().1)
    } else {
        last_op(evs.drop_last(), q)
    }
}

/// The spelling and the time of the first of the events `evs` on the path
/// `q`, if there is one.
pub open spec fn first_event(evs: Seq<(Seq<char>, OperationType, bool, nat)>, q: Seq<char>) -> Option<(Seq<char>, nat)>
    decreases evs.len(),
{
    if evs.len() == 0 {
        None
    } else {
        match first_event(evs.drop_last(), q) {
            Some(x) => Some(x),
            None => if path_components(evs.last().0) == path_components(q) {
                Some((evs.last().0, evs.last().3))
            } else {
                None
            },
        }
    }
}

/// Whether one of the events `evs` on the path `q` has an immediate
/// operation.
pub open spec fn any_immediate(evs: Seq<(Seq<char>, OperationType, bool, nat)>, q: Seq<char>) -> bool
    decreases evs.len(),
{
    if evs.len() == 0 {
        false
    } else {
        (path_components(evs.last().0) == path_components(q) && evs.last().2) || any_immediate(evs.drop_last(), q)
    }
}

/// The number of paths that the events `evs` bring that do not wait in
/// `p`, each counted once.
pub open spec fn new_paths(p: Seq<PendingView>, evs: Seq<(Seq<char>, OperationType, bool, nat)>) -> nat
    decreases evs.len(),
{
    if evs.len() == 0 {
        0
    } else {
        let e = evs.last();
        new_paths(p, evs.drop_last())
            + if entry_for(p, e.0) is None && first_event(evs.drop_last(), e.0) is None { 1nat } else { 0nat }
    }
}

/// The entry that the path `q` has after the events `evs` are recorded on
/// `p`: untouched if no event is on it; else with the latest operation, the
/// spelling and time of the entry that waited or else of the first event,
/// and immediate once an immediate operation was recorded on it.
pub open spec fn entry_after(p: Seq<PendingView>, evs: Seq<(Seq<char>, OperationType, bool, nat)>, q: Seq<char>) -> Option<PendingView> {
    match last_op(evs, q) {
        None => entry_for(p, q),
        Some(op) => match entry_for(p, q) {
            Some(e) => Some(PendingView {
                path: e.path,
                operation: op,
                first_seen: e.first_seen,
                immediate: e.immediate || any_immediate(evs, q),
            }),
            None => match first_event(evs, q) {
                Some(f) => Some(PendingView { path: f.0, operation: op, first_seen: f.1, immediate: any_immediate(evs, q) }),
                None => None,
            },
        },
    }
}

/// With distinct paths, an entry that names `q` is where `q` waits.
proof fn lemma_index_unique(s: Seq<PendingView>, q: Seq<char>, i: int)
    requires
        distinct_pending(s),
        0 <= i < s.len(),
        path_components(s[i].path) == path_components(q),
    ensures
        pending_index(s, q) == Some(i),
{
    let k = choose|k: int| 0 <= k < s.len() && path_components(s[k].path) == path_components(q);
    if k != i {
        assert(path_components(s[k].path) != path_components(s[i].path));
    }
}

/// One event, seen from any path `q`: it keeps the paths distinct, changes
/// the entry of its own path only, and adds one entry exactly when its path
/// did not wait.
proof fn lemma_recorded_step(r: Seq<PendingView>, path: Seq<char>, op: OperationType, immediate: bool, now: nat, q: Seq<char>)
    requires
        distinct_pending(r),
    ensures
        distinct_pending(recorded(r, path, op, immediate, now)),
        entry_for(recorded(r, path, op, immediate, now), q) == (if path_components(path) == path_components(q) {
            Some(match entry_for(r, q) {
                Some(e) => PendingView { path: e.path, operation: op, first_seen: e.first_seen, immediate: e.immediate || immediate },
                None => PendingView { path, operation: op, first_seen: now, immediate },
            })
        } else {
            entry_for(r, q)
        }),
        recorded(r, path, op, immediate, now).len() == r.len() + if entry_for(r, path) is None { 1nat } else { 0nat },
{
    let res = recorded(r, path, op, immediate, now);
    match pending_index(r, path) {
        Some(i) => {
            assert(0 <= i < r.len() && path_components(r[i].path) == path_components(path));
            assert forall|a: int| 0 <= a < res.len() implies (#[trigger] res[a]).path == r[a].path by {}
            assert(distinct_pending(res)) by {
                assert forall|a: int, b: int| 0 <= a < res.len() && 0 <= b < res.len() && a != b implies
                    path_components((#[trigger] res[a]).path) != path_components((#[trigger] res[b]).path) by {
                    assert(res[a].path == r[a].path && res[b].path == r[b].path);
                }
            }
            if path_components(path) == path_components(q) {
                assert(pending_index(r, q) == Some(i)) by {
                    lemma_index_unique(r, q, i);
                }
                lemma_index_unique(res, q, i);
            } else {
                match pending_index(r, q) {
                    Some(j) => {
                        assert(0 <= j < r.len() && path_components(r[j].path) == path_components(q));
                        assert(j != i);
                        assert(res[j] == r[j]);
                        lemma_index_unique(res, q, j);
                    },
                    None => {
                        if exists|k: int| 0 <= k < res.len() && path_components(res[k].path) == path_components(q) {
                            let k = choose|k: int| 0 <= k < res.len() && path_components(res[k].path) == path_components(q);
                            assert(res[k].path == r[k].path);
                        }
                    },
                }
            }
        },
        None => {
            let n = r.len() as int;
            assert forall|k: int| 0 <= k < r.len() implies path_components(r[k].path) != path_components(path) by {}
            assert(distinct_pending(res)) by {
                assert forall|a: int, b: int| 0 <= a < res.len() && 0 <= b < res.len() && a != b implies
                    path_components((#[trigger] res[a]).path) != path_components((#[trigger] res[b]).path) by {
                    if a < n && b < n {
                        assert(res[a] == r[a] && res[b] == r[b]);
                    } else if a < n {
                        assert(res[a] == r[a]);
                    } else {
                        assert(res[b] == r[b]);
                    }
                }
            }
            if path_components(path) == path_components(q) {
                lemma_index_unique(res, q, n);
                assert(pending_index(r, q) is None);
            } else {
                match pending_index(r, q) {
                    Some(j) => {
                        assert(0 <= j < r.len() && path_components(r[j].path) == path_components(q));
                        assert(res[j] == r[j]);
                        lemma_index_unique(res, q, j);
                    },
                    None => {
                        if exists|k: int| 0 <= k < res.len() && path_components(res[k].path) == path_components(q) {
                            let k = choose|k: int| 0 <= k < res.len() && path_components(res[k].path) == path_components(q);
                            if k < n {
                                assert(res[k] == r[k]);
                            }
                        }
                    },
                }
            }
        },
    }
}

/// A run of events with no drain between them, seen from the path `q`:
/// the paths stay distinct, and the entry of `q` is as `entry_after` says:
/// the latest operation on `q` wins, `q` keeps the time of its first event
/// (that of its entry, if it waited already), and it is immediate once an
/// immediate operation was recorded on it.
pub proof fn lemma_record_sequence(p: Seq<PendingView>, evs: Seq<(Seq<char>, OperationType, bool, nat)>, q: Seq<char>)
    requires
        distinct_pending(p),
    ensures
        distinct_pending(recorded_all(p, evs)),
        entry_for(recorded_all(p, evs), q) == entry_after(p, evs, q),
        last_op(evs, q) is Some <==> first_event(evs, q) is Some,
        last_op(evs, q) is None ==> !any_immediate(evs, q),
    decreases evs.len(),
{
    if evs.len() > 0 {
        let init = evs.drop_last();
        let e = evs.last();
        lemma_record_sequence(p, init, q);
        lemma_recorded_step(recorded_all(p, init), e.0, e.1, e.2, e.3, q);
        assert(recorded_all(p, evs) == recorded(recorded_all(p, init), e.0, e.1, e.2, e.3));
        assert(any_immediate(evs, q) == ((path_components(e.0) == path_components(q) && e.2) || any_immediate(init, q)));
        if path_components(e.0) == path_components(q) {
            assert(last_op(evs, q) == Some(e.1));
        } else {
            assert(last_op(evs, q) == last_op(init, q));
            assert(first_event(evs, q) == first_event(init, q));
        }
    }
}

/// A run of events with no drain between them adds one waiting path for
/// each path that it brings and that did not wait, counted once.
pub proof fn lemma_record_sequence_count(p: Seq<PendingView>, evs: Seq<(Seq<char>, OperationType, bool, nat)>)
    requires
        distinct_pending(p),
    ensures
        recorded_all(p, evs).len() == p.len() + new_paths(p, evs),
    decreases evs.len(),
{
    if evs.len() > 0 {
        let init = evs.drop_last();
        let e = evs.last();
        lemma_record_sequence_count(p, init);
        lemma_record_sequence(p, init, e.0);
        lemma_recorded_step(recorded_all(p, init), e.0, e.1, e.2, e.3, e.0);
    }
}

} // verus!
