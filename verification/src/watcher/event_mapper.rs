//! Turning file-system event kinds into index operations.

use vstd::prelude::*;
use crate::watcher::operation::OperationType;

verus! {

/// How a rename event names its paths.
#[derive(Debug, Clone, Copy, PartialEq, Eq, Structural)]
pub enum RenameMode {
    Any,
    /// The path is the new name.
    To,
    /// The path is the old name.
    From,
    /// The paths are the old name, then the new one.
    Both,
    Other,
}

/// What changed in a modified file.
#[derive(Debug, Clone, Copy, PartialEq, Eq, Structural)]
pub enum ModifyKind {
    Any,
    Data,
    Metadata,
    Name(RenameMode),
    Other,
}

/// The kind of a file-system event, as the watcher reports it.
#[derive(Debug, Clone, Copy, PartialEq, Eq, Structural)]
pub enum EventKind {
    Any,
    Access,
    Create,
    Modify(ModifyKind),
    Remove,
    Other,
}

/// A path with the operation that it needs.
#[derive(Debug, Clone, PartialEq, Eq)]
pub struct MappedEvent {
    pub path: String,
    pub operation: OperationType,
}

/// A mapped event as plain values.
pub open spec fn event_view(e: MappedEvent) -> (Seq<char>, OperationType) {
    (e.path@, e.operation)
}

/// Mapped events as plain values.
pub open spec fn events_view(es: Seq<MappedEvent>) -> Seq<(Seq<char>, OperationType)> {
    es.map_values(|e: MappedEvent| event_view(e))
}

/// The operation that an event of kind `kind` asks for on each of its
/// paths, if it asks for one (a rename with both names is apart).
pub open spec fn path_operation(kind: EventKind) -> Option<OperationType> {
    match kind {
        EventKind::Create => Some(OperationType::Create),
        EventKind::Modify(ModifyKind::Name(RenameMode::From)) => Some(OperationType::Delete),
        EventKind::Modify(ModifyKind::Name(RenameMode::To)) => Some(OperationType::Create),
        EventKind::Modify(_) => Some(OperationType::Update),
        EventKind::Remove => Some(OperationType::Delete),
        _ => None,
    }
}

/// The events that an event of kind `kind` on `paths` maps to: a rename
/// with both names and at least two paths deletes the first and creates the
/// second; otherwise every path gets the operation of the kind, or none
/// does.
pub open spec fn mapped_events(kind: EventKind, paths: Seq<Seq<char>>) -> Seq<(Seq<char>, OperationType)> {
    if kind == EventKind::Modify(ModifyKind::Name(RenameMode::Both)) && paths.len() >= 2 {
        seq![(paths[0], OperationType::Delete), (paths[1], OperationType::Create)]
    } else {
        match path_operation(kind) {
            Some(op) => paths.map_values(|p: Seq<char>| (p, op)),
            None => Seq::empty(),
        }
    }
}

/// Every path with the operation `op`.
fn each_path(paths: &[String], op: OperationType) -> (res: Vec<MappedEvent>)
    ensures
        events_view(res@) == paths@.map_values(|p: String| p@).map_values(|p: Seq<char>| (p, op)),
{
    let mut out: Vec<MappedEvent> = Vec::new();
    let mut i: usize = 0;
    while i < paths.len()
        invariant
            0 <= i <= paths@.len(),
            events_view(out@) == paths@.take(i as int).map_values(|p: String| p@).map_values(
                |p: Seq<char>| (p, op),
            ),
        decreases paths@.len() - i,
    {
        let ghost before = events_view(out@);
        let path = paths[i].clone();
        assert(path@ == paths@[i as int]@);
        out.push(MappedEvent { path, operation: op });
        assert(events_view(out@) =~= before.push((paths@[i as int]@, op)));
        assert(paths@.take(i + 1) =~= paths@.take(i as int).push(paths@[i as int]));
        i = i + 1;
        assert(events_view(out@) =~= paths@.take(i as int).map_values(|p: String| p@).map_values(
            |p: Seq<char>| (p, op),
        ));
    }
    assert(paths@.take(i as int) =~= paths@);
    out
}

/// Maps an event of kind `kind` on `paths` to index operations.
pub fn map_event(kind: &EventKind, paths: &[String]) -> (res: Vec<MappedEvent>)
    ensures
        events_view(res@) == mapped_events(*kind, paths@.map_values(|p: String| p@)),
{
    let ghost pv = paths@.map_values(|p: String| p@);
    match kind {
        EventKind::Create => each_path(paths, OperationType::Create),
        EventKind::Modify(ModifyKind::Name(RenameMode::Both)) if paths.len() >= 2 => {
            let mut out: Vec<MappedEvent> = Vec::new();
            out.push(MappedEvent { path: paths[0].clone(), operation: OperationType::Delete });
            out.push(MappedEvent { path: paths[1].clone(), operation: OperationType::Create });
            assert(events_view(out@) =~= mapped_events(*kind, pv));
            out
        },
        EventKind::Modify(ModifyKind::Name(RenameMode::From)) => each_path(paths, OperationType::Delete),
        EventKind::Modify(ModifyKind::Name(RenameMode::To)) => each_path(paths, OperationType::Create),
        EventKind::Modify(_) => each_path(paths, OperationType::Update),
        EventKind::Remove => each_path(paths, OperationType::Delete),
        _ => {
            let out: Vec<MappedEvent> = Vec::new();
            assert(events_view(out@) =~= Seq::<(Seq<char>, OperationType)>::empty());
            out
        },
    }
}

/// An event maps to one index operation per path, except a rename with both
/// names, which maps to two, and the kinds that need no operation, which
/// map to none.
pub proof fn lemma_mapped_event_count(kind: EventKind, paths: Seq<Seq<char>>)
    ensures
        mapped_events(kind, paths).len() == if kind == EventKind::Modify(ModifyKind::Name(RenameMode::Both)) && paths.len() >= 2 {
            2
        } else if path_operation(kind) is Some {
            paths.len()
        } else {
            0
        },
{
}

/// A rename with both names deletes the old one and creates the new one.
pub proof fn lemma_rename_moves(old_name: Seq<char>, new_name: Seq<char>)
    ensures
        mapped_events(EventKind::Modify(ModifyKind::Name(RenameMode::Both)), seq![old_name, new_name])
            == seq![(old_name, OperationType::Delete), (new_name, OperationType::Create)],
{
}

/// What each kind of event does to its paths, kind by kind: a creation
/// creates every path, a removal deletes every path; a rename deletes the
/// old name and creates the new one, or, with both names, deletes the first
/// path and creates the second; every other modification (of data, of
/// metadata, of an unknown kind, or a rename that names its paths in no
/// known way) updates every path; and an access, or an event of an unknown
/// kind, asks for nothing.
pub proof fn lemma_event_kinds(paths: Seq<Seq<char>>)
    ensures
        mapped_events(EventKind::Create, paths) == paths.map_values(|p: Seq<char>| (p, OperationType::Create)),
        mapped_events(EventKind::Remove, paths) == paths.map_values(|p: Seq<char>| (p, OperationType::Delete)),
        mapped_events(EventKind::Modify(ModifyKind::Name(RenameMode::From)), paths)
            == paths.map_values(|p: Seq<char>| (p, OperationType::Delete)),
        mapped_events(EventKind::Modify(ModifyKind::Name(RenameMode::To)), paths)
            == paths.map_values(|p: Seq<char>| (p, OperationType::Create)),
        paths.len() >= 2 ==> mapped_events(EventKind::Modify(ModifyKind::Name(RenameMode::Both)), paths)
            == seq![(paths[0], OperationType::Delete), (paths[1], OperationType::Create)],
        paths.len() < 2 ==> mapped_events(EventKind::Modify(ModifyKind::Name(RenameMode::Both)), paths)
            == paths.map_values(|p: Seq<char>| (p, OperationType::Update)),
        mapped_events(EventKind::Modify(ModifyKind::Any), paths) == paths.map_values(|p: Seq<char>| (p, OperationType::Update)),
        mapped_events(EventKind::Modify(ModifyKind::Data), paths) == paths.map_values(|p: Seq<char>| (p, OperationType::Update)),
        mapped_events(EventKind::Modify(ModifyKind::Metadata), paths)
            == paths.map_values(|p: Seq<char>| (p, OperationType::Update)),
        mapped_events(EventKind::Modify(ModifyKind::Other), paths) == paths.map_values(|p: Seq<char>| (p, OperationType::Update)),
        mapped_events(EventKind::Modify(ModifyKind::Name(RenameMode::Any)), paths)
            == paths.map_values(|p: Seq<char>| (p, OperationType::Update)),
        mapped_events(EventKind::Modify(ModifyKind::Name(RenameMode::Other)), paths)
            == paths.map_values(|p: Seq<char>| (p, OperationType::Update)),
        mapped_events(EventKind::Access, paths) == Seq::<(Seq<char>, OperationType)>::empty(),
        mapped_events(EventKind::Any, paths) == Seq::<(Seq<char>, OperationType)>::empty(),
        mapped_events(EventKind::Other, paths) == Seq::<(Seq<char>, OperationType)>::empty(),
{
}

/// Outside a rename with both names, the events keep the paths in order,
/// one each, and all take one operation: the `i`-th event is on the `i`-th
/// path. A modification that is not a rename updates its paths.
pub proof fn lemma_events_follow_paths(kind: EventKind, paths: Seq<Seq<char>>)
    requires
        !(kind == EventKind::Modify(ModifyKind::Name(RenameMode::Both)) && paths.len() >= 2),
    ensures
        mapped_events(kind, paths).len() == 0 || mapped_events(kind, paths).len() == paths.len(),
        forall|i: int, j: int| 0 <= i < mapped_events(kind, paths).len() && 0 <= j < mapped_events(kind, paths).len()
            ==> (#[trigger] mapped_events(kind, paths)[i]).0 == paths[i]
                && mapped_events(kind, paths)[i].1 == (#[trigger] mapped_events(kind, paths)[j]).1,
        forall|m: ModifyKind| !(m is Name) && kind == EventKind::Modify(m) ==> mapped_events(kind, paths).len() == paths.len()
            && forall|i: int| 0 <= i < paths.len() ==> (#[trigger] mapped_events(kind, paths)[i]).1 == OperationType::Update,
{
}

} // verus!
