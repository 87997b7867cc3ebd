//! Why the operations of the model keep a registry well formed, and how the
//! sequence of groups relates to the maps read off it.

use crate::model::{
    active_in, drop_endpoint, flatten_active, has_endpoint, keep_configured, materialize, GroupView,
    RegistryView,
};
use crate::types::{Backend, Endpoint, Protocol};
use vstd::prelude::*;

verus! {

/// Filtering by label keeps a sequence in which the label does not occur.
pub proof fn lemma_filter_label_absent(groups: Seq<GroupView>, label: Seq<char>)
    requires
        forall|j: int| 0 <= j < groups.len() ==> (#[trigger] groups[j]).label != label,
    ensures
        groups.filter(|g: GroupView| g.label != label) == groups,
    decreases groups.len(),
{
    reveal(Seq::filter);
    if groups.len() > 0 {
        lemma_filter_label_absent(groups.drop_last(), label);
        assert(groups.drop_last().push(groups.last()) =~= groups);
    }
}

/// Filtering by a label that occurs once, at `i`, removes position `i`.
pub proof fn lemma_filter_label_present(groups: Seq<GroupView>, label: Seq<char>, i: int)
    requires
        0 <= i < groups.len(),
        groups[i].label == label,
        forall|j: int| 0 <= j < groups.len() && j != i ==> (#[trigger] groups[j]).label != label,
    ensures
        groups.filter(|g: GroupView| g.label != label) == groups.remove(i),
    decreases groups.len(),
{
    reveal(Seq::filter);
    if i == groups.len() - 1 {
        lemma_filter_label_absent(groups.drop_last(), label);
        assert(groups.remove(i) =~= groups.drop_last());
    } else {
        lemma_filter_label_present(groups.drop_last(), label, i);
        assert(groups.remove(i) =~= groups.drop_last().remove(i).push(groups.last()));
    }
}

/// In a well-formed registry a label is found exactly where it stands.
pub proof fn lemma_group_at(s: RegistryView, i: int)
    requires
        s.wf(),
        0 <= i < s.groups.len(),
    ensures
        s.has_group(s.groups[i].label),
        s.group_index(s.groups[i].label) == i,
        s.group(s.groups[i].label) == s.groups[i],
{
    let label = s.groups[i].label;
    let k = s.group_index(label);
    assert(0 <= k < s.groups.len() && s.groups[k].label == label);
    if k < i {
        assert(s.groups[k].label != s.groups[i].label);
    } else if i < k {
        assert(s.groups[i].label != s.groups[k].label);
    }
}

/// What survives `keep_configured` is named by `backends`.
pub proof fn lemma_keep_configured_named(active: Seq<Backend>, backends: Seq<Backend>)
    ensures
        forall|k: int|
            0 <= k < keep_configured(active, backends).len() ==> has_endpoint(
                backends,
                (#[trigger] keep_configured(active, backends)[k]).addr,
            ),
{
    let keep = |b: Backend| has_endpoint(backends, b.addr);
    assert forall|k: int| 0 <= k < active.filter(keep).len() implies has_endpoint(
        backends,
        (#[trigger] active.filter(keep)[k]).addr,
    ) by {
        active.lemma_filter_pred(keep, k);
    }
}

/// What survives `drop_endpoint` stood in the list before, and does not
/// listen on the endpoint dropped.
pub proof fn lemma_drop_endpoint_members(active: Seq<Backend>, addr: Endpoint)
    ensures
        forall|k: int|
            0 <= k < drop_endpoint(active, addr).len() ==> {
                &&& active.contains(#[trigger] drop_endpoint(active, addr)[k])
                &&& drop_endpoint(active, addr)[k].addr != addr
            },
        !has_endpoint(drop_endpoint(active, addr), addr),
{
    let keep = |b: Backend| b.addr != addr;
    assert forall|k: int| 0 <= k < active.filter(keep).len() implies {
        &&& active.contains(#[trigger] active.filter(keep)[k])
        &&& active.filter(keep)[k].addr != addr
    } by {
        active.lemma_filter_pred(keep, k);
        assert(active.filter(keep).contains(active.filter(keep)[k]));
        active.lemma_filter_contains_rev(keep, active.filter(keep)[k]);
    }
}

/// A group that takes a non-empty list as its configured backends is well
/// formed, whether the list also becomes its active backends, prunes them,
/// or starts it afresh.
pub proof fn lemma_configured_keeps_wf(g: GroupView, backends: Seq<Backend>)
    requires
        backends.len() > 0,
    ensures
        g.replaced(backends).wf(),
        g.reconciled(backends).wf(),
        GroupView::fresh_static(g.label, backends).wf(),
        GroupView::fresh_dynamic(g.label, backends).wf(),
{
    lemma_keep_configured_named(g.active, backends);
    assert forall|k: int| 0 <= k < backends.len() implies has_endpoint(
        backends,
        (#[trigger] backends[k]).addr,
    ) by {}
}

/// A probe's outcome keeps a group well formed.
pub proof fn lemma_probed_keeps_wf(g: GroupView, backend: Backend, healthy: bool)
    requires
        g.wf(),
    ensures
        g.probed(backend, healthy).wf(),
{
    lemma_drop_endpoint_members(g.active, backend.addr);
    let dropped = drop_endpoint(g.active, backend.addr);
    assert forall|k: int| 0 <= k < dropped.len() implies has_endpoint(
        g.configured,
        (#[trigger] dropped[k]).addr,
    ) by {
        assert(g.active.contains(dropped[k]));
        let m = choose|m: int| 0 <= m < g.active.len() && g.active[m] == dropped[k];
        assert(has_endpoint(g.configured, g.active[m].addr));
    }
}

/// Removing a label takes out the one group that carries it, if there is
/// one, and leaves a well-formed registry in which the label is free.
pub proof fn lemma_without(s: RegistryView, label: Seq<char>)
    requires
        s.wf(),
    ensures
        s.has_group(label) ==> s.without(label).groups == s.groups.remove(s.group_index(label)),
        !s.has_group(label) ==> s.without(label) == s,
        s.without(label).wf(),
        !s.without(label).has_group(label),
{
    if s.has_group(label) {
        let i = s.group_index(label);
        lemma_group_at(s, i);
        assert forall|j: int| 0 <= j < s.groups.len() && j != i implies (
        #[trigger] s.groups[j]).label != label by {
            if j < i {
                assert(s.groups[j].label != s.groups[i].label);
            } else {
                assert(s.groups[i].label != s.groups[j].label);
            }
        }
        lemma_filter_label_present(s.groups, label, i);
        let after = s.groups.remove(i);
        assert forall|j: int| 0 <= j < after.len() implies (#[trigger] after[j]).wf() && after[j].label
            != label by {
            if j < i {
                assert(after[j] == s.groups[j]);
            } else {
                assert(after[j] == s.groups[j + 1]);
            }
        }
        assert forall|j: int, k: int| 0 <= j < k < after.len() implies (#[trigger] after[j]).label != (
        #[trigger] after[k]).label by {
            let j0 = if j < i {
                j
            } else {
                j + 1
            };
            let k0 = if k < i {
                k
            } else {
                k + 1
            };
            assert(after[j] == s.groups[j0]);
            assert(after[k] == s.groups[k0]);
            assert(s.groups[j0].label != s.groups[k0].label);
        }
    } else {
        lemma_filter_label_absent(s.groups, label);
        assert(s.without(label) =~= s);
    }
}

/// Changing the group under one label, by a step that keeps its label and
/// its well-formedness, keeps the registry well formed.
pub proof fn lemma_with_group(s: RegistryView, label: Seq<char>, f: spec_fn(GroupView) -> GroupView)
    requires
        s.wf(),
        forall|g: GroupView| g.wf() ==> (#[trigger] f(g)).wf() && f(g).label == g.label,
    ensures
        s.with_group(label, f).wf(),
        s.with_group(label, f).groups.len() == s.groups.len(),
        forall|label2: Seq<char>| s.with_group(label, f).has_group(label2) == s.has_group(label2),
{
    let t = s.with_group(label, f);
    assert forall|i: int| 0 <= i < t.groups.len() implies (#[trigger] t.groups[i]).wf()
        && t.groups[i].label == s.groups[i].label by {
        assert(s.groups[i].wf());
    }
    assert forall|i: int, j: int| 0 <= i < j < t.groups.len() implies (#[trigger] t.groups[i]).label
        != (#[trigger] t.groups[j]).label by {
        assert(s.groups[i].label != s.groups[j].label);
    }
    assert forall|label2: Seq<char>| t.has_group(label2) == s.has_group(label2) by {
        if s.has_group(label2) {
            let i = s.group_index(label2);
            assert(t.groups[i].label == label2);
        }
        if t.has_group(label2) {
            let i = t.group_index(label2);
            assert(s.groups[i].label == label2);
        }
    }
}

/// Appending a well-formed group under a free label keeps the registry well
/// formed.
pub proof fn lemma_with_new(s: RegistryView, group: GroupView)
    requires
        s.wf(),
        group.wf(),
        !s.has_group(group.label),
    ensures
        s.with_new(group).wf(),
        s.with_new(group).has_group(group.label),
        s.with_new(group).group(group.label) == group,
{
    let t = s.with_new(group);
    assert forall|i: int, j: int| 0 <= i < j < t.groups.len() implies (#[trigger] t.groups[i]).label
        != (#[trigger] t.groups[j]).label by {
        if j == s.groups.len() {
            assert(t.groups[i] == s.groups[i]);
        } else {
            assert(s.groups[i].label != s.groups[j].label);
        }
    }
    assert(t.groups[s.groups.len() as int] == group);
    lemma_group_at(t, s.groups.len() as int);
}

/// Static registration keeps the registry well formed.
pub proof fn lemma_add_group_wf(
    s: RegistryView,
    label: Seq<char>,
    entries: Seq<(Endpoint, Option<Protocol>)>,
)
    requires
        s.wf(),
    ensures
        s.add_group(label, entries).wf(),
{
    let backends = materialize(entries);
    lemma_without(s, label);
    if backends.len() > 0 {
        assert forall|g: GroupView| g.wf() implies (#[trigger] g.replaced(backends)).wf() by {
            lemma_configured_keeps_wf(g, backends);
        }
        lemma_with_group(s, label, |g: GroupView| g.replaced(backends));
        if !s.has_group(label) {
            let fresh = GroupView::fresh_static(label, backends);
            lemma_configured_keeps_wf(fresh, backends);
            lemma_with_new(s, fresh);
        }
    }
}

/// Several static registrations keep the registry well formed.
pub proof fn lemma_add_groups_wf(
    s: RegistryView,
    batch: Seq<(Seq<char>, Seq<(Endpoint, Option<Protocol>)>)>,
)
    requires
        s.wf(),
    ensures
        s.add_groups(batch).wf(),
    decreases batch.len(),
{
    if batch.len() > 0 {
        lemma_add_groups_wf(s, batch.drop_last());
        lemma_add_group_wf(s.add_groups(batch.drop_last()), batch.last().0, batch.last().1);
    }
}

/// A resolution keeps the registry well formed.
pub proof fn lemma_update_dynamic_wf(
    s: RegistryView,
    label: Seq<char>,
    entries: Seq<(Endpoint, Option<Protocol>)>,
)
    requires
        s.wf(),
    ensures
        s.update_dynamic(label, entries).wf(),
{
    let backends = materialize(entries);
    lemma_without(s, label);
    if backends.len() > 0 {
        assert forall|g: GroupView| g.wf() implies (#[trigger] g.reconciled(backends)).wf() by {
            lemma_configured_keeps_wf(g, backends);
        }
        lemma_with_group(s, label, |g: GroupView| g.reconciled(backends));
        if !s.has_group(label) {
            let fresh = GroupView::fresh_dynamic(label, backends);
            assert(fresh.wf());
            lemma_with_new(s, fresh);
        }
    }
}

/// A probe's outcome keeps the registry well formed.
pub proof fn lemma_record_probe_wf(s: RegistryView, label: Seq<char>, backend: Backend, healthy: bool)
    requires
        s.wf(),
    ensures
        s.record_probe(label, backend, healthy).wf(),
        s.record_probe(label, backend, healthy).groups.len() == s.groups.len(),
{
    assert forall|g: GroupView| g.wf() implies (#[trigger] g.probed(backend, healthy)).wf() by {
        lemma_probed_keeps_wf(g, backend, healthy);
    }
    lemma_with_group(s, label, |g: GroupView| g.probed(backend, healthy));
}

/// Several probes' outcomes keep the registry well formed.
pub proof fn lemma_record_probes_wf(s: RegistryView, outcomes: Seq<(Seq<char>, Backend, bool)>)
    requires
        s.wf(),
    ensures
        s.record_probes(outcomes).wf(),
    decreases outcomes.len(),
{
    if outcomes.len() > 0 {
        lemma_record_probes_wf(s, outcomes.drop_last());
        lemma_record_probe_wf(
            s.record_probes(outcomes.drop_last()),
            outcomes.last().0,
            outcomes.last().1,
            outcomes.last().2,
        );
    }
}

/// A group that is the first to name an endpoint is the one that owns it.
pub proof fn lemma_owner_unique(s: RegistryView, addr: Endpoint, i: int)
    requires
        s.is_owner(addr, i),
    ensures
        s.has_owner(addr),
        s.owner(addr) == i,
{
    let k = s.owner(addr);
    assert(s.is_owner(addr, k));
    if k < i {
        assert(!has_endpoint(s.groups[k].configured, addr));
    } else if i < k {
        assert(!has_endpoint(s.groups[i].configured, addr));
    }
}

/// A group that is least loaded is the one that least-connections picks.
pub proof fn lemma_least_loaded_unique(s: RegistryView, i: int)
    requires
        s.is_least_loaded(i),
    ensures
        s.has_active(),
        s.least_loaded() == i,
{
    let k = s.least_loaded();
    assert(s.is_least_loaded(k));
    assert(s.groups[i].active.len() > 0);
    assert(s.groups[k].active.len() > 0);
}

/// Selecting and counting keep the registry well formed.
pub proof fn lemma_traffic_keeps_wf(s: RegistryView, addr: Endpoint)
    requires
        s.wf(),
    ensures
        s.after_select().wf(),
        s.increment(addr).wf(),
        s.decrement(addr).wf(),
{
    if s.has_owner(addr) {
        let i = s.owner(addr);
        assert(s.is_owner(addr, i));
        let up = s.increment(addr);
        let down = s.decrement(addr);
        assert forall|j: int| 0 <= j < s.groups.len() implies (#[trigger] up.groups[j]).wf()
            && up.groups[j].label == s.groups[j].label && (#[trigger] down.groups[j]).wf()
            && down.groups[j].label == s.groups[j].label by {
            assert(s.groups[j].wf());
        }
        assert forall|j: int, k: int| 0 <= j < k < s.groups.len() implies (#[trigger] up.groups[j]).label
            != (#[trigger] up.groups[k]).label by {
            assert(s.groups[j].label != s.groups[k].label);
        }
        assert forall|j: int, k: int| 0 <= j < k < s.groups.len() implies (
        #[trigger] down.groups[j]).label != (#[trigger] down.groups[k]).label by {
            assert(s.groups[j].label != s.groups[k].label);
        }
    }
}

/// The flattened active list is empty exactly when no group has an active
/// backend, and everything in it is active in some group.
pub proof fn lemma_flatten_active(groups: Seq<GroupView>)
    ensures
        flatten_active(groups).len() > 0 <==> exists|i: int|
            0 <= i < groups.len() && (#[trigger] groups[i]).active.len() > 0,
        forall|p: int|
            0 <= p < flatten_active(groups).len() ==> active_in(
                groups,
                #[trigger] flatten_active(groups)[p],
            ),
    decreases groups.len(),
{
    if groups.len() > 0 {
        let front = groups.drop_last();
        let last = groups.len() - 1;
        lemma_flatten_active(front);
        let flat = flatten_active(groups);
        if flatten_active(front).len() > 0 {
            let i = choose|i: int| 0 <= i < front.len() && (#[trigger] front[i]).active.len() > 0;
            assert(groups[i].active.len() > 0);
        }
        if groups[last].active.len() > 0 {
            assert(flat.len() > 0);
        }
        if exists|i: int| 0 <= i < groups.len() && (#[trigger] groups[i]).active.len() > 0 {
            let i = choose|i: int| 0 <= i < groups.len() && (#[trigger] groups[i]).active.len() > 0;
            if i < last {
                assert(front[i].active.len() > 0);
            }
        }
        assert forall|p: int| 0 <= p < flat.len() implies active_in(groups, #[trigger] flat[p]) by {
            if p < flatten_active(front).len() {
                assert(active_in(front, flatten_active(front)[p]));
                let (i, k) = choose|i: int, k: int|
                    0 <= i < front.len() && 0 <= k < front[i].active.len()
                        && #[trigger] front[i].active[k] == flatten_active(front)[p];
                assert(groups[i].active[k] == flat[p]);
            } else {
                let k = p - flatten_active(front).len();
                assert(groups[last].active[k] == flat[p]);
            }
        }
    }
}

} // verus!
