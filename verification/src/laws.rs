//! What holds of every registry, stated over the model and proved.

use crate::invariants::{lemma_group_at, lemma_with_group, lemma_with_new, lemma_without};
use crate::model::{endpoints, has_endpoint, keep_configured, materialize, GroupView, RegistryView};
use crate::types::{Backend, Endpoint, LoadBalancerMode, Protocol};
use vstd::prelude::*;

verus! {

/// Every label that has an active list or a counter also has a configured
/// list.
pub proof fn lemma_labels_are_configured(s: RegistryView)
    ensures
        s.active().dom().subset_of(s.configured().dom()),
        s.counts().dom().subset_of(s.configured().dom()),
{
}

/// In a well-formed registry every active backend listens on an endpoint
/// that is configured under the same label, and no configured list is empty.
pub proof fn lemma_active_is_configured(s: RegistryView, label: Seq<char>)
    requires
        s.wf(),
        s.active().dom().contains(label),
    ensures
        s.configured().dom().contains(label),
        s.configured()[label].len() > 0,
        endpoints(s.active()[label]).subset_of(endpoints(s.configured()[label])),
{
    let i = s.group_index(label);
    assert(s.groups[i].wf());
    let active = s.groups[i].active;
    assert forall|addr: Endpoint| endpoints(active).contains(addr) implies endpoints(
        s.groups[i].configured,
    ).contains(addr) by {
        let k = choose|k: int| 0 <= k < active.len() && (#[trigger] active[k]).addr == addr;
        assert(has_endpoint(s.groups[i].configured, active[k].addr));
    }
}

/// Some backend is active exactly when the active map has an entry.
pub proof fn lemma_has_active_iff_entry(s: RegistryView)
    requires
        s.wf(),
    ensures
        s.has_active() <==> exists|label: Seq<char>| s.active().dom().contains(label),
{
    if s.has_active() {
        let i = choose|i: int| 0 <= i < s.groups.len() && (#[trigger] s.groups[i]).active.len() > 0;
        lemma_group_at(s, i);
        assert(s.active().dom().contains(s.groups[i].label));
    }
    if exists|label: Seq<char>| s.active().dom().contains(label) {
        let label = choose|label: Seq<char>| s.active().dom().contains(label);
        let i = s.group_index(label);
        assert(s.groups[i].active.len() > 0);
    }
}

/// One group with an active backend is least loaded, whenever any group has
/// an active backend.
pub proof fn lemma_least_loaded_exists(s: RegistryView)
    requires
        s.has_active(),
    ensures
        s.is_least_loaded(s.least_loaded()),
{
    let b = least_loaded_among(s, s.groups.len());
    assert(s.is_least_loaded(b));
}

/// A least loaded group among the first `n`.
proof fn least_loaded_among(s: RegistryView, n: nat) -> (b: int)
    requires
        n <= s.groups.len(),
        exists|j: int| 0 <= j < n && (#[trigger] s.groups[j]).active.len() > 0,
    ensures
        0 <= b < n,
        s.groups[b].active.len() > 0,
        forall|j: int|
            0 <= j < n && (#[trigger] s.groups[j]).active.len() > 0 ==> {
                &&& s.groups[b].load() <= s.groups[j].load()
                &&& j < b ==> s.groups[b].load() < s.groups[j].load()
            },
    decreases n,
{
    let last = n - 1;
    if exists|j: int| 0 <= j < last && (#[trigger] s.groups[j]).active.len() > 0 {
        let before = least_loaded_among(s, last as nat);
        if s.groups[last].active.len() > 0 && s.groups[last].load() < s.groups[before].load() {
            last
        } else {
            before
        }
    } else {
        last
    }
}

/// A backend is selected exactly when one is active, and what is selected
/// is active. Under least-connections it is the first active backend of a
/// group whose counter no group with an active backend undercuts.
pub proof fn lemma_selection(s: RegistryView)
    ensures
        s.selection() is Some <==> s.has_active(),
        s.selection() matches Some(backend) ==> s.is_active(backend),
        s.has_active() && s.mode == LoadBalancerMode::LeastConnections ==> {
            let g = s.least_loaded();
            &&& s.is_least_loaded(g)
            &&& s.selection() == Some(s.groups[g].active[0])
            &&& forall|j: int|
                0 <= j < s.groups.len() && (#[trigger] s.groups[j]).active.len() > 0
                    ==> s.groups[g].load() <= s.groups[j].load()
        },
{
    crate::invariants::lemma_flatten_active(s.groups);
    if s.has_active() {
        lemma_least_loaded_exists(s);
        match s.mode {
            LoadBalancerMode::RoundRobin => {
                let flat = s.flat_active();
                assert(flat.len() > 0);
                let p = s.round_robin_position();
                assert(0 <= p < flat.len()) by (nonlinear_arith)
                    requires
                        p == (s.cursor % flat.len()) as int,
                        flat.len() > 0,
                ;
                assert(s.is_active(flat[p]));
            },
            LoadBalancerMode::LeastConnections => {
                let g = s.least_loaded();
                assert(s.groups[g].active[0] == s.groups[g].active[0]);
            },
        }
    }
}

/// Keeping what is configured, twice over, keeps what the first pass kept.
pub proof fn lemma_keep_configured_idempotent(active: Seq<Backend>, backends: Seq<Backend>)
    ensures
        keep_configured(keep_configured(active, backends), backends) == keep_configured(
            active,
            backends,
        ),
    decreases active.len(),
{
    reveal(Seq::filter);
    let keep = |b: Backend| has_endpoint(backends, b.addr);
    if active.len() > 0 {
        lemma_keep_configured_idempotent(active.drop_last(), backends);
        if keep(active.last()) {
            active.drop_last().filter(keep).lemma_filter_push(active.last(), keep);
        }
    }
}

/// What a resolution of `label` leaves behind.
///
/// An empty resolution removes the label from all three maps. Otherwise the
/// configured list under the label is the resolution, whatever is active
/// under it is named by the resolution, and its counter is left alone: kept
/// where there is one, and not created where there is none. Every other
/// label keeps its group as it was.
pub proof fn lemma_update_dynamic(
    s: RegistryView,
    label: Seq<char>,
    entries: Seq<(Endpoint, Option<Protocol>)>,
)
    requires
        s.wf(),
    ensures
        ({
            let t = s.update_dynamic(label, entries);
            let backends = materialize(entries);
            &&& t.wf()
            &&& entries.len() == 0 ==> {
                &&& !t.configured().dom().contains(label)
                &&& !t.active().dom().contains(label)
                &&& !t.counts().dom().contains(label)
            }
            &&& entries.len() > 0 ==> {
                &&& t.configured().dom().contains(label)
                &&& t.configured()[label] == backends
                &&& endpoints(t.group(label).active).subset_of(endpoints(backends))
                &&& t.group(label).active == if s.has_group(label) {
                    keep_configured(s.group(label).active, backends)
                } else {
                    Seq::empty()
                }
                &&& t.counts().dom().contains(label) == s.counts().dom().contains(label)
                &&& s.counts().dom().contains(label) ==> t.counts()[label] == s.counts()[label]
            }
            &&& forall|other: Seq<char>|
                other != label ==> {
                    &&& #[trigger] t.has_group(other) == s.has_group(other)
                    &&& s.has_group(other) ==> t.group(other) == s.group(other)
                }
        }),
{
    let t = s.update_dynamic(label, entries);
    let backends = materialize(entries);
    crate::invariants::lemma_update_dynamic_wf(s, label, entries);
    lemma_without(s, label);
    if backends.len() == 0 {
        lemma_frame_without(s, label);
    } else {
        let step = |g: GroupView| g.reconciled(backends);
        if s.has_group(label) {
            let i = s.group_index(label);
            lemma_group_at(s, i);
            assert(t.groups[i] == s.groups[i].reconciled(backends));
            lemma_group_at(t, i);
            crate::invariants::lemma_keep_configured_named(s.groups[i].active, backends);
            lemma_frame_with_group(s, label, step);
            assert(s.group(label) == s.groups[i]);
            assert(t.group(label) == s.groups[i].reconciled(backends));
            assert(t.group(label).count == s.group(label).count);
        } else {
            let fresh = GroupView::fresh_dynamic(label, backends);
            lemma_with_new(s, fresh);
            lemma_frame_with_new(s, fresh);
            assert(t.group(label) == fresh);
            assert(!s.counts().dom().contains(label));
            assert(!t.counts().dom().contains(label));
        }
        assert(t.has_group(label));
        assert(t.configured()[label] == t.group(label).configured);
        let active = t.group(label).active;
        assert forall|addr: Endpoint| endpoints(active).contains(addr) implies endpoints(
            backends,
        ).contains(addr) by {
            let k = choose|k: int| 0 <= k < active.len() && (#[trigger] active[k]).addr == addr;
            assert(has_endpoint(backends, active[k].addr));
        }
    }
}

/// What a static registration of `label` leaves behind.
///
/// An empty list removes the label from all three maps. Otherwise the
/// configured and the active list under the label are both the list given,
/// and its counter is what it was, or zero for a label that had none. Every
/// other label keeps its group as it was.
pub proof fn lemma_add_group(
    s: RegistryView,
    label: Seq<char>,
    entries: Seq<(Endpoint, Option<Protocol>)>,
)
    requires
        s.wf(),
    ensures
        ({
            let t = s.add_group(label, entries);
            let backends = materialize(entries);
            &&& t.wf()
            &&& entries.len() == 0 ==> {
                &&& !t.configured().dom().contains(label)
                &&& !t.active().dom().contains(label)
                &&& !t.counts().dom().contains(label)
            }
            &&& entries.len() > 0 ==> {
                &&& t.configured().dom().contains(label)
                &&& t.configured()[label] == backends
                &&& t.active().dom().contains(label)
                &&& t.active()[label] == backends
                &&& t.counts().dom().contains(label)
                &&& t.counts()[label] == if s.counts().dom().contains(label) {
                    s.counts()[label]
                } else {
                    0
                }
            }
            &&& forall|other: Seq<char>|
                other != label ==> {
                    &&& #[trigger] t.has_group(other) == s.has_group(other)
                    &&& s.has_group(other) ==> t.group(other) == s.group(other)
                }
        }),
{
    let t = s.add_group(label, entries);
    let backends = materialize(entries);
    crate::invariants::lemma_add_group_wf(s, label, entries);
    lemma_without(s, label);
    if backends.len() == 0 {
        lemma_frame_without(s, label);
    } else {
        let step = |g: GroupView| g.replaced(backends);
        if s.has_group(label) {
            let i = s.group_index(label);
            lemma_group_at(s, i);
            assert(t.groups[i] == s.groups[i].replaced(backends));
            lemma_group_at(t, i);
            assert forall|g: GroupView| g.wf() implies (#[trigger] step(g)).wf() && step(g).label
                == g.label by {
                crate::invariants::lemma_configured_keeps_wf(g, backends);
            }
            lemma_frame_with_group(s, label, step);
            assert(s.group(label) == s.groups[i]);
            assert(t.group(label) == s.groups[i].replaced(backends));
            assert(t.group(label).count == Some(s.group(label).load()));
            assert(t.group(label).load() == s.group(label).load());
        } else {
            let fresh = GroupView::fresh_static(label, backends);
            crate::invariants::lemma_configured_keeps_wf(fresh, backends);
            lemma_with_new(s, fresh);
            lemma_frame_with_new(s, fresh);
            assert(t.group(label) == fresh);
            assert(!s.counts().dom().contains(label));
        }
        assert(t.has_group(label));
        assert(t.configured()[label] == t.group(label).configured);
        assert(t.active()[label] == t.group(label).active);
        assert(t.counts().dom().contains(label));
        assert(t.counts()[label] == t.group(label).load());
    }
}

/// Removing one label leaves the group of every other label as it was.
pub proof fn lemma_frame_without(s: RegistryView, label: Seq<char>)
    requires
        s.wf(),
    ensures
        forall|other: Seq<char>|
            other != label ==> {
                &&& #[trigger] s.without(label).has_group(other) == s.has_group(other)
                &&& s.has_group(other) ==> s.without(label).group(other) == s.group(other)
            },
{
    let t = s.without(label);
    lemma_without(s, label);
    if s.has_group(label) {
        let i = s.group_index(label);
        assert forall|other: Seq<char>| other != label implies {
            &&& #[trigger] t.has_group(other) == s.has_group(other)
            &&& s.has_group(other) ==> t.group(other) == s.group(other)
        } by {
            if s.has_group(other) {
                let j = s.group_index(other);
                let j2 = if j < i {
                    j
                } else {
                    j - 1
                };
                assert(t.groups[j2] == s.groups[j]);
                lemma_group_at(t, j2);
            }
            if t.has_group(other) {
                let j2 = t.group_index(other);
                let j = if j2 < i {
                    j2
                } else {
                    j2 + 1
                };
                assert(s.groups[j] == t.groups[j2]);
            }
        }
    }
}

/// Changing the group under one label, by a step that keeps its label,
/// leaves the group of every other label as it was.
pub proof fn lemma_frame_with_group(
    s: RegistryView,
    label: Seq<char>,
    f: spec_fn(GroupView) -> GroupView,
)
    requires
        s.wf(),
        forall|g: GroupView| g.wf() ==> (#[trigger] f(g)).wf() && f(g).label == g.label,
    ensures
        forall|other: Seq<char>|
            other != label ==> {
                &&& #[trigger] s.with_group(label, f).has_group(other) == s.has_group(other)
                &&& s.has_group(other) ==> s.with_group(label, f).group(other) == s.group(other)
            },
        s.has_group(label) ==> s.with_group(label, f).has_group(label) && s.with_group(
            label,
            f,
        ).group(label) == f(s.group(label)),
{
    let t = s.with_group(label, f);
    lemma_with_group(s, label, f);
    assert forall|other: Seq<char>| s.has_group(other) implies #[trigger] t.has_group(other)
        && t.group(other) == if other == label {
        f(s.group(other))
    } else {
        s.group(other)
    } by {
        let j = s.group_index(other);
        lemma_group_at(s, j);
        assert(s.groups[j].wf());
        assert(t.groups[j].label == other);
        lemma_group_at(t, j);
    }
}

/// Appending a group under a free label leaves the group of every other
/// label as it was.
pub proof fn lemma_frame_with_new(s: RegistryView, group: GroupView)
    requires
        s.wf(),
        group.wf(),
        !s.has_group(group.label),
    ensures
        forall|other: Seq<char>|
            other != group.label ==> {
                &&& #[trigger] s.with_new(group).has_group(other) == s.has_group(other)
                &&& s.has_group(other) ==> s.with_new(group).group(other) == s.group(other)
            },
{
    let t = s.with_new(group);
    lemma_with_new(s, group);
    assert forall|other: Seq<char>| other != group.label implies {
        &&& #[trigger] t.has_group(other) == s.has_group(other)
        &&& s.has_group(other) ==> t.group(other) == s.group(other)
    } by {
        if s.has_group(other) {
            let j = s.group_index(other);
            assert(t.groups[j] == s.groups[j]);
            lemma_group_at(t, j);
        }
        if t.has_group(other) {
            let j = t.group_index(other);
            assert(s.groups[j] == t.groups[j]);
        }
    }
}

/// Resolving a label to the same result twice in a row changes nothing the
/// second time.
pub proof fn lemma_update_dynamic_idempotent(
    s: RegistryView,
    label: Seq<char>,
    entries: Seq<(Endpoint, Option<Protocol>)>,
)
    requires
        s.wf(),
    ensures
        s.update_dynamic(label, entries).update_dynamic(label, entries) == s.update_dynamic(
            label,
            entries,
        ),
{
    let t = s.update_dynamic(label, entries);
    let u = t.update_dynamic(label, entries);
    let backends = materialize(entries);
    lemma_update_dynamic(s, label, entries);
    lemma_without(s, label);
    if backends.len() == 0 {
        lemma_without(t, label);
    } else {
        assert(t.has_group(label));
        assert(u.groups.len() == t.groups.len());
        assert forall|j: int| 0 <= j < t.groups.len() implies u.groups[j] == t.groups[j] by {
            lemma_group_at(t, j);
            if t.groups[j].label == label {
                assert(t.group(label) == t.groups[j]);
                lemma_keep_configured_idempotent(
                    if s.has_group(label) {
                        s.group(label).active
                    } else {
                        Seq::empty()
                    },
                    backends,
                );
                assert(keep_configured(Seq::<Backend>::empty(), backends) =~= Seq::<
                    Backend,
                >::empty()) by {
                    reveal(Seq::filter);
                }
                assert(u.groups[j] =~= t.groups[j]);
            }
        }
        assert(u.groups =~= t.groups);
    }
}

/// Counting down for an endpoint whose group has a counter of zero or no
/// counter, or that no group names, changes nothing.
pub proof fn lemma_decrement_at_zero(s: RegistryView, addr: Endpoint)
    requires
        s.has_owner(addr) ==> s.groups[s.owner(addr)].load() == 0,
    ensures
        s.decrement(addr) == s,
{
    if s.has_owner(addr) {
        assert(s.is_owner(addr, s.owner(addr)));
        assert(s.decrement(addr).groups =~= s.groups);
    }
}

} // verus!
