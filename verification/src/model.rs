//! The registry as a mathematical value.
//!
//! A registry is a sequence of groups with distinct labels. Each group holds
//! the backends that should exist (`configured`), those currently held to be
//! healthy (`active`) and, once it has one, a counter of the requests in
//! flight (`count`). The
//! three maps that callers think in (`configured`, `active`, `counts`) are
//! read off that sequence, and every operation of the executable registry is
//! stated here as a function from one such value to the next.

use crate::types::{Backend, Endpoint, LoadBalancerMode, Protocol};
use vstd::prelude::*;

verus! {

/// Whether some backend of `list` listens on `addr`.
pub open spec fn has_endpoint(list: Seq<Backend>, addr: Endpoint) -> bool {
    exists|i: int| 0 <= i < list.len() && (#[trigger] list[i]).addr == addr
}

/// The endpoints that the backends of `list` listen on.
pub open spec fn endpoints(list: Seq<Backend>) -> Set<Endpoint> {
    Set::new(|addr: Endpoint| has_endpoint(list, addr))
}

/// The backends for a list of endpoints with optional protocol hints, in
/// the order given.
pub open spec fn materialize(entries: Seq<(Endpoint, Option<Protocol>)>) -> Seq<Backend> {
    entries.map_values(|entry: (Endpoint, Option<Protocol>)| Backend::spec_from_hint(entry))
}

/// What of `active` still listens on an endpoint that `backends` names, in
/// the order it had.
pub open spec fn keep_configured(active: Seq<Backend>, backends: Seq<Backend>) -> Seq<Backend> {
    active.filter(|b: Backend| has_endpoint(backends, b.addr))
}

/// What of `active` does not listen on `addr`, in the order it had.
pub open spec fn drop_endpoint(active: Seq<Backend>, addr: Endpoint) -> Seq<Backend> {
    active.filter(|b: Backend| b.addr != addr)
}

/// A counter after one more request, held at the largest value it can store.
pub open spec fn count_up(count: nat) -> nat {
    if count < usize::MAX {
        count + 1
    } else {
        count
    }
}

/// A counter after one request less, held at zero.
pub open spec fn count_down(count: nat) -> nat {
    if count > 0 {
        (count - 1) as nat
    } else {
        0
    }
}

/// The active lists of `groups`, one after the other.
pub open spec fn flatten_active(groups: Seq<GroupView>) -> Seq<Backend>
    decreases groups.len(),
{
    if groups.len() == 0 {
        Seq::empty()
    } else {
        flatten_active(groups.drop_last()) + groups.last().active
    }
}

/// Whether `backend` stands in the active list of one of `groups`.
pub open spec fn active_in(groups: Seq<GroupView>, backend: Backend) -> bool {
    exists|i: int, k: int|
        0 <= i < groups.len() && 0 <= k < groups[i].active.len() && #[trigger] groups[i].active[k]
            == backend
}

/// Group `i` is the first of `groups` whose configured list names `addr`.
pub open spec fn is_owner_in(groups: Seq<GroupView>, addr: Endpoint, i: int) -> bool {
    &&& 0 <= i < groups.len()
    &&& has_endpoint(groups[i].configured, addr)
    &&& forall|j: int| 0 <= j < i ==> !has_endpoint((#[trigger] groups[j]).configured, addr)
}

/// Group `i` of `groups` has an active backend, no group with an active
/// backend has a smaller counter, and none before it has an equal one.
pub open spec fn is_least_loaded_in(groups: Seq<GroupView>, i: int) -> bool {
    &&& 0 <= i < groups.len()
    &&& groups[i].active.len() > 0
    &&& forall|j: int|
        0 <= j < groups.len() && (#[trigger] groups[j]).active.len() > 0 ==> {
            &&& groups[i].load() <= groups[j].load()
            &&& j < i ==> groups[i].load() < groups[j].load()
        }
}

/// One group of backends.
#[verifier::ext_equal]
pub struct GroupView {
    pub label: Seq<char>,
    pub configured: Seq<Backend>,
    pub active: Seq<Backend>,
    /// The counter, once there is one: static registration starts it at
    /// zero, and the first request counted in starts it at one.
    pub count: Option<nat>,
}

impl GroupView {
    /// A group always has something configured, and whatever is active in it
    /// listens on a configured endpoint.
    pub open spec fn wf(self) -> bool {
        &&& self.configured.len() > 0
        &&& forall|k: int|
            0 <= k < self.active.len() ==> has_endpoint(
                self.configured,
                (#[trigger] self.active[k]).addr,
            )
    }

    /// The requests in flight: the counter, or zero while there is none.
    pub open spec fn load(self) -> nat {
        match self.count {
            Some(count) => count,
            None => 0,
        }
    }

    /// A group that did not exist before a static registration.
    pub open spec fn fresh_static(label: Seq<char>, backends: Seq<Backend>) -> GroupView {
        GroupView { label, configured: backends, active: backends, count: Some(0) }
    }

    /// A group that did not exist before a resolution: nothing in it is
    /// active until a probe says so, and it has no counter until a request
    /// is counted in.
    pub open spec fn fresh_dynamic(label: Seq<char>, backends: Seq<Backend>) -> GroupView {
        GroupView { label, configured: backends, active: Seq::empty(), count: None }
    }

    /// Static registration over an existing group: both lists are replaced;
    /// the counter stays, or starts at zero if there was none.
    pub open spec fn replaced(self, backends: Seq<Backend>) -> GroupView {
        GroupView { configured: backends, active: backends, count: Some(self.load()), ..self }
    }

    /// Resolution over an existing group: the configured list is replaced,
    /// the active list keeps what is still configured and gains nothing, and
    /// the counter is left as it is, there or not.
    pub open spec fn reconciled(self, backends: Seq<Backend>) -> GroupView {
        GroupView {
            configured: backends,
            active: keep_configured(self.active, backends),
            ..self
        }
    }

    /// One probe's outcome: a healthy backend that is configured and not yet
    /// active is appended; an unhealthy endpoint leaves the active list.
    pub open spec fn probed(self, backend: Backend, healthy: bool) -> GroupView {
        if healthy {
            if has_endpoint(self.configured, backend.addr) && !has_endpoint(
                self.active,
                backend.addr,
            ) {
                GroupView { active: self.active.push(backend), ..self }
            } else {
                self
            }
        } else {
            GroupView { active: drop_endpoint(self.active, backend.addr), ..self }
        }
    }
}

/// The whole registry: its groups in the order they are walked, the
/// round-robin cursor and the selection policy.
#[verifier::ext_equal]
pub struct RegistryView {
    pub groups: Seq<GroupView>,
    pub cursor: nat,
    pub mode: LoadBalancerMode,
}

impl RegistryView {
    /// Every group is well formed and no label occurs twice.
    pub open spec fn wf(self) -> bool {
        &&& forall|i: int| 0 <= i < self.groups.len() ==> (#[trigger] self.groups[i]).wf()
        &&& forall|i: int, j: int|
            0 <= i < j < self.groups.len() ==> (#[trigger] self.groups[i]).label != (
            #[trigger] self.groups[j]).label
    }

    /// A registry without groups.
    pub open spec fn empty(mode: LoadBalancerMode) -> RegistryView {
        RegistryView { groups: Seq::empty(), cursor: 0, mode }
    }

    // ----- the three maps -----

    /// Whether a group is registered under `label`.
    pub open spec fn has_group(self, label: Seq<char>) -> bool {
        exists|i: int| 0 <= i < self.groups.len() && (#[trigger] self.groups[i]).label == label
    }

    /// Where the group registered under `label` stands.
    pub open spec fn group_index(self, label: Seq<char>) -> int {
        choose|i: int| 0 <= i < self.groups.len() && (#[trigger] self.groups[i]).label == label
    }

    /// The group registered under `label`.
    pub open spec fn group(self, label: Seq<char>) -> GroupView {
        self.groups[self.group_index(label)]
    }

    /// What should exist, by label.
    pub open spec fn configured(self) -> Map<Seq<char>, Seq<Backend>> {
        Map::new(|label: Seq<char>| self.has_group(label), |label: Seq<char>| self.group(label).configured)
    }

    /// What is held to be healthy, by label. A label whose active list is
    /// empty has no entry.
    pub open spec fn active(self) -> Map<Seq<char>, Seq<Backend>> {
        Map::new(
            |label: Seq<char>| self.has_group(label) && self.group(label).active.len() > 0,
            |label: Seq<char>| self.group(label).active,
        )
    }

    /// Requests in flight, by label. A label has an entry once its group
    /// has a counter.
    pub open spec fn counts(self) -> Map<Seq<char>, nat> {
        Map::new(
            |label: Seq<char>| self.has_group(label) && self.group(label).count is Some,
            |label: Seq<char>| self.group(label).load(),
        )
    }

    // ----- membership changes -----

    /// The registry without the group labelled `label`.
    pub open spec fn without(self, label: Seq<char>) -> RegistryView {
        RegistryView { groups: self.groups.filter(|g: GroupView| g.label != label), ..self }
    }

    /// The registry with `f` applied to the group labelled `label` and every
    /// other group untouched.
    pub open spec fn with_group(
        self,
        label: Seq<char>,
        f: spec_fn(GroupView) -> GroupView,
    ) -> RegistryView {
        RegistryView {
            groups: self.groups.map_values(
                |g: GroupView|
                    if g.label == label {
                        f(g)
                    } else {
                        g
                    },
            ),
            ..self
        }
    }

    /// The registry with one more group at the end.
    pub open spec fn with_new(self, group: GroupView) -> RegistryView {
        RegistryView { groups: self.groups.push(group), ..self }
    }

    /// Static registration of one group. An empty list removes the group;
    /// otherwise the configured and the active list both become the new
    /// list, and a group that has no counter gets one at zero.
    pub open spec fn add_group(
        self,
        label: Seq<char>,
        entries: Seq<(Endpoint, Option<Protocol>)>,
    ) -> RegistryView {
        let backends = materialize(entries);
        if backends.len() == 0 {
            self.without(label)
        } else if self.has_group(label) {
            self.with_group(label, |g: GroupView| g.replaced(backends))
        } else {
            self.with_new(GroupView::fresh_static(label, backends))
        }
    }

    /// Static registration of several groups, first to last.
    pub open spec fn add_groups(
        self,
        batch: Seq<(Seq<char>, Seq<(Endpoint, Option<Protocol>)>)>,
    ) -> RegistryView
        decreases batch.len(),
    {
        if batch.len() == 0 {
            self
        } else {
            self.add_groups(batch.drop_last()).add_group(batch.last().0, batch.last().1)
        }
    }

    /// One resolution of a dynamic label. An empty result removes the
    /// group. Otherwise the configured list becomes the result, and the
    /// active list keeps only what the result still names.
    pub open spec fn update_dynamic(
        self,
        label: Seq<char>,
        entries: Seq<(Endpoint, Option<Protocol>)>,
    ) -> RegistryView {
        let backends = materialize(entries);
        if backends.len() == 0 {
            self.without(label)
        } else if self.has_group(label) {
            self.with_group(label, |g: GroupView| g.reconciled(backends))
        } else {
            self.with_new(GroupView::fresh_dynamic(label, backends))
        }
    }

    /// One probe's outcome, applied to the group it was made for.
    pub open spec fn record_probe(
        self,
        label: Seq<char>,
        backend: Backend,
        healthy: bool,
    ) -> RegistryView {
        self.with_group(label, |g: GroupView| g.probed(backend, healthy))
    }

    /// The outcomes of several probes, applied first to last.
    pub open spec fn record_probes(self, outcomes: Seq<(Seq<char>, Backend, bool)>) -> RegistryView
        decreases outcomes.len(),
    {
        if outcomes.len() == 0 {
            self
        } else {
            self.record_probes(outcomes.drop_last()).record_probe(
                outcomes.last().0,
                outcomes.last().1,
                outcomes.last().2,
            )
        }
    }

    // ----- selection -----

    /// Every active backend: groups in order, and within a group in order.
    pub open spec fn flat_active(self) -> Seq<Backend> {
        flatten_active(self.groups)
    }

    /// Whether any backend is active at all.
    pub open spec fn has_active(self) -> bool {
        exists|i: int| 0 <= i < self.groups.len() && (#[trigger] self.groups[i]).active.len() > 0
    }

    /// Whether `backend` stands in some group's active list.
    pub open spec fn is_active(self, backend: Backend) -> bool {
        active_in(self.groups, backend)
    }

    /// Group `i` has an active backend, no group with an active backend has
    /// a smaller counter, and none before it has an equal one.
    pub open spec fn is_least_loaded(self, i: int) -> bool {
        is_least_loaded_in(self.groups, i)
    }

    /// The group that least-connections picks from.
    pub open spec fn least_loaded(self) -> int {
        choose|i: int| is_least_loaded_in(self.groups, i)
    }

    /// Where in `flat_active` round-robin picks.
    pub open spec fn round_robin_position(self) -> int {
        (self.cursor % self.flat_active().len()) as int
    }

    /// The backend that the next selection returns, if any is active.
    pub open spec fn selection(self) -> Option<Backend> {
        if !self.has_active() {
            None
        } else {
            match self.mode {
                LoadBalancerMode::RoundRobin => Some(
                    self.flat_active()[self.round_robin_position()],
                ),
                LoadBalancerMode::LeastConnections => Some(
                    self.groups[self.least_loaded()].active[0],
                ),
            }
        }
    }

    /// The registry after a selection: round-robin moves the cursor one
    /// past the position it picked, wrapping at the end; nothing else
    /// changes.
    pub open spec fn after_select(self) -> RegistryView {
        if self.has_active() && self.mode == LoadBalancerMode::RoundRobin {
            RegistryView {
                cursor: ((self.round_robin_position() + 1) % (self.flat_active().len() as int)) as nat,
                ..self
            }
        } else {
            self
        }
    }

    // ----- counters -----

    /// Group `i` is the first whose configured list names `addr`.
    pub open spec fn is_owner(self, addr: Endpoint, i: int) -> bool {
        is_owner_in(self.groups, addr, i)
    }

    /// Whether any group's configured list names `addr`.
    pub open spec fn has_owner(self, addr: Endpoint) -> bool {
        exists|i: int| is_owner_in(self.groups, addr, i)
    }

    /// The first group whose configured list names `addr`.
    pub open spec fn owner(self, addr: Endpoint) -> int {
        choose|i: int| is_owner_in(self.groups, addr, i)
    }

    /// The registry with the counter of group `i` set to `count`.
    pub open spec fn with_count(self, i: int, count: nat) -> RegistryView {
        RegistryView {
            groups: self.groups.update(i, GroupView { count: Some(count), ..self.groups[i] }),
            ..self
        }
    }

    /// One more request in flight to `addr`: the counter of the group that
    /// owns it goes up, starting from zero if there was none; an endpoint
    /// that nobody owns changes nothing.
    pub open spec fn increment(self, addr: Endpoint) -> RegistryView {
        if self.has_owner(addr) {
            self.with_count(self.owner(addr), count_up(self.groups[self.owner(addr)].load()))
        } else {
            self
        }
    }

    /// One request to `addr` has ended: the counter of the group that owns
    /// it goes down, but never below zero; where there is no counter, or no
    /// owner, nothing changes.
    pub open spec fn decrement(self, addr: Endpoint) -> RegistryView {
        if self.has_owner(addr) && self.groups[self.owner(addr)].count is Some {
            self.with_count(self.owner(addr), count_down(self.groups[self.owner(addr)].load()))
        } else {
            self
        }
    }
}

} // verus!
