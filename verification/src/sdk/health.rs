//! Health reports: the state of each component, and of the whole.

use vstd::prelude::*;

verus! {

/// The state of one component.
#[derive(Debug, Clone, PartialEq, Eq)]
pub enum ComponentStatus {
    Okay,
    Degraded(String),
    Down(String),
}

/// The health of one component.
#[derive(Debug, Clone)]
pub struct ComponentHealth {
    pub name: String,
    pub status: ComponentStatus,
}

/// The state of the whole.
#[derive(Debug, Clone, Copy, PartialEq, Eq, Structural)]
pub enum OverallStatus {
    Healthy,
    Degraded,
    Unhealthy,
}

/// A health report.
#[derive(Debug, Clone)]
pub struct HealthReport {
    pub status: OverallStatus,
    pub components: Vec<ComponentHealth>,
}

/// Whether some component of `cs` is down.
pub open spec fn any_down(cs: Seq<ComponentHealth>) -> bool {
    exists|i: int| 0 <= i < cs.len() && (#[trigger] cs[i]).status is Down
}

/// Whether some component of `cs` is degraded.
pub open spec fn any_degraded(cs: Seq<ComponentHealth>) -> bool {
    exists|i: int| 0 <= i < cs.len() && (#[trigger] cs[i]).status is Degraded
}

/// The state of the whole: unhealthy if a component is down, else degraded
/// if one is degraded, else healthy.
pub open spec fn overall_of(cs: Seq<ComponentHealth>) -> OverallStatus {
    if any_down(cs) {
        OverallStatus::Unhealthy
    } else if any_degraded(cs) {
        OverallStatus::Degraded
    } else {
        OverallStatus::Healthy
    }
}

impl HealthReport {
    /// The report on the given components.
    pub fn from_components(components: Vec<ComponentHealth>) -> (res: HealthReport)
        ensures
            res.status == overall_of(components@),
            res.components@ == components@,
    {
        let mut down = false;
        let mut degraded = false;
        let mut i: usize = 0;
        while i < components.len()
            invariant
                0 <= i <= components@.len(),
                down == exists|j: int| 0 <= j < i && (#[trigger] components@[j]).status is Down,
                degraded == exists|j: int| 0 <= j < i && (#[trigger] components@[j]).status is Degraded,
            decreases components@.len() - i,
        {
            match &components[i].status {
                ComponentStatus::Down(_) => {
                    down = true;
                },
                ComponentStatus::Degraded(_) => {
                    degraded = true;
                },
                ComponentStatus::Okay => {},
            }
            i = i + 1;
        }
        let status = if down {
            OverallStatus::Unhealthy
        } else if degraded {
            OverallStatus::Degraded
        } else {
            OverallStatus::Healthy
        };
        HealthReport { status, components }
    }

    /// The state of the whole.
    pub fn overall(&self) -> (res: &OverallStatus)
        ensures
            *res == self.status,
    {
        &self.status
    }
}

/// The whole is healthy exactly when every component is ok.
pub proof fn lemma_healthy_iff_all_ok(cs: Seq<ComponentHealth>)
    ensures
        overall_of(cs) == OverallStatus::Healthy <==> forall|i: int| 0 <= i < cs.len() ==> (#[trigger] cs[i]).status is Okay,
{
    if forall|i: int| 0 <= i < cs.len() ==> (#[trigger] cs[i]).status is Okay {
        assert(!any_down(cs));
        assert(!any_degraded(cs));
    }
}

/// A component that is ok changes nothing in the state of the whole, and
/// neither does the order of the components.
pub proof fn lemma_ok_component_neutral(cs: Seq<ComponentHealth>, c: ComponentHealth, k: int)
    requires
        c.status is Okay,
        0 <= k <= cs.len(),
    ensures
        overall_of(cs.insert(k, c)) == overall_of(cs),
{
    let d = cs.insert(k, c);
    if any_down(cs) {
        let i = choose|i: int| 0 <= i < cs.len() && (#[trigger] cs[i]).status is Down;
        if i < k { assert(d[i] == cs[i]); } else { assert(d[i + 1] == cs[i]); }
    }
    if any_down(d) {
        let i = choose|i: int| 0 <= i < d.len() && (#[trigger] d[i]).status is Down;
        if i < k { assert(d[i] == cs[i]); } else if i > k { assert(d[i] == cs[i - 1]); }
    }
    if any_degraded(cs) {
        let i = choose|i: int| 0 <= i < cs.len() && (#[trigger] cs[i]).status is Degraded;
        if i < k { assert(d[i] == cs[i]); } else { assert(d[i + 1] == cs[i]); }
    }
    if any_degraded(d) {
        let i = choose|i: int| 0 <= i < d.len() && (#[trigger] d[i]).status is Degraded;
        if i < k { assert(d[i] == cs[i]); } else if i > k { assert(d[i] == cs[i - 1]); }
    }
}

/// How bad a state of the whole is: healthy, then degraded, then
/// unhealthy.
pub open spec fn severity(o: OverallStatus) -> int {
    match o {
        OverallStatus::Healthy => 0,
        OverallStatus::Degraded => 1,
        OverallStatus::Unhealthy => 2,
    }
}

/// How bad the state of one component is, as a state of the whole.
pub open spec fn component_severity(s: ComponentStatus) -> int {
    match s {
        ComponentStatus::Okay => 0,
        ComponentStatus::Degraded(_) => 1,
        ComponentStatus::Down(_) => 2,
    }
}

/// The whole is as bad as its worst component: no component is worse than
/// the whole, and when there are components, one is exactly as bad; with
/// none, the whole is healthy. So a component that is down makes the whole
/// unhealthy, wherever it stands.
pub proof fn lemma_overall_is_worst(cs: Seq<ComponentHealth>)
    ensures
        forall|i: int| 0 <= i < cs.len() ==> component_severity((#[trigger] cs[i]).status) <= severity(overall_of(cs)),
        cs.len() > 0 ==> exists|i: int| 0 <= i < cs.len() && component_severity((#[trigger] cs[i]).status) == severity(overall_of(cs)),
        cs.len() == 0 ==> overall_of(cs) == OverallStatus::Healthy,
        forall|i: int| 0 <= i < cs.len() && (#[trigger] cs[i]).status is Down ==> overall_of(cs) == OverallStatus::Unhealthy,
{
    if cs.len() > 0 {
        if any_down(cs) {
            let i = choose|i: int| 0 <= i < cs.len() && (#[trigger] cs[i]).status is Down;
            assert(component_severity(cs[i].status) == 2);
        } else if any_degraded(cs) {
            let i = choose|i: int| 0 <= i < cs.len() && (#[trigger] cs[i]).status is Degraded;
            assert(component_severity(cs[i].status) == 1);
        } else {
            assert(component_severity(cs[0].status) == 0) by {
                assert(!(cs[0].status is Down) && !(cs[0].status is Degraded));
            }
        }
    }
    assert forall|i: int| 0 <= i < cs.len() implies component_severity((#[trigger] cs[i]).status) <= severity(overall_of(cs)) by {
        match cs[i].status {
            ComponentStatus::Okay => {},
            ComponentStatus::Degraded(_) => { assert(any_degraded(cs)); },
            ComponentStatus::Down(_) => { assert(any_down(cs)); },
        }
    }
}

/// The state of the whole does not depend on the order of the components,
/// nor on how often a component state occurs: two lists of components with
/// the same members give the same state.
pub proof fn lemma_overall_order_free(cs: Seq<ComponentHealth>, ds: Seq<ComponentHealth>)
    requires
        forall|c: ComponentHealth| cs.contains(c) <==> ds.contains(c),
    ensures
        overall_of(cs) == overall_of(ds),
{
    if any_down(cs) {
        let i = choose|i: int| 0 <= i < cs.len() && (#[trigger] cs[i]).status is Down;
        assert(cs.contains(cs[i]));
        let j = choose|j: int| 0 <= j < ds.len() && ds[j] == cs[i];
        assert(ds[j].status is Down);
    }
    if any_down(ds) {
        let i = choose|i: int| 0 <= i < ds.len() && (#[trigger] ds[i]).status is Down;
        assert(ds.contains(ds[i]));
        let j = choose|j: int| 0 <= j < cs.len() && cs[j] == ds[i];
        assert(cs[j].status is Down);
    }
    if any_degraded(cs) {
        let i = choose|i: int| 0 <= i < cs.len() && (#[trigger] cs[i]).status is Degraded;
        assert(cs.contains(cs[i]));
        let j = choose|j: int| 0 <= j < ds.len() && ds[j] == cs[i];
        assert(ds[j].status is Degraded);
    }
    if any_degraded(ds) {
        let i = choose|i: int| 0 <= i < ds.len() && (#[trigger] ds[i]).status is Degraded;
        assert(ds.contains(ds[i]));
        let j = choose|j: int| 0 <= j < cs.len() && cs[j] == ds[i];
        assert(cs[j].status is Degraded);
    }
}

/// The state of two lists of components put together is the worse of
/// their two states.
pub proof fn lemma_overall_of_concat(a: Seq<ComponentHealth>, b: Seq<ComponentHealth>)
    ensures
        severity(overall_of(a + b)) == if severity(overall_of(a)) >= severity(overall_of(b)) {
            severity(overall_of(a))
        } else {
            severity(overall_of(b))
        },
{
    let ab = a + b;
    if any_down(a) {
        let i = choose|i: int| 0 <= i < a.len() && (#[trigger] a[i]).status is Down;
        assert(ab[i] == a[i]);
    }
    if any_down(b) {
        let i = choose|i: int| 0 <= i < b.len() && (#[trigger] b[i]).status is Down;
        assert(ab[a.len() + i] == b[i]);
    }
    if any_down(ab) {
        let i = choose|i: int| 0 <= i < ab.len() && (#[trigger] ab[i]).status is Down;
        if i < a.len() { assert(ab[i] == a[i]); } else { assert(ab[i] == b[i - a.len()]); }
    }
    if any_degraded(a) {
        let i = choose|i: int| 0 <= i < a.len() && (#[trigger] a[i]).status is Degraded;
        assert(ab[i] == a[i]);
    }
    if any_degraded(b) {
        let i = choose|i: int| 0 <= i < b.len() && (#[trigger] b[i]).status is Degraded;
        assert(ab[a.len() + i] == b[i]);
    }
    if any_degraded(ab) {
        let i = choose|i: int| 0 <= i < ab.len() && (#[trigger] ab[i]).status is Degraded;
        if i < a.len() { assert(ab[i] == a[i]); } else { assert(ab[i] == b[i - a.len()]); }
    }
}

} // verus!
