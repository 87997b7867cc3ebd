//! Rounds of health probes: which endpoints are active after any round,
//! what the active lists are after a round that probes nothing twice, and
//! what the active view is after a round in which every probe succeeds or
//! every probe fails.

use crate::invariants::{lemma_drop_endpoint_members, lemma_group_at, lemma_record_probe_wf};
use crate::model::{drop_endpoint, endpoints, has_endpoint, GroupView, RegistryView};
use crate::types::{Backend, Endpoint};
use vstd::prelude::*;

verus! {

/// Whether `outcomes` holds a probe made for `label` of a backend that
/// listens on `addr`.
pub open spec fn probed_in(
    outcomes: Seq<(Seq<char>, Backend, bool)>,
    label: Seq<char>,
    addr: Endpoint,
) -> bool {
    exists|k: int|
        0 <= k < outcomes.len() && (#[trigger] outcomes[k]).0 == label && outcomes[k].1.addr == addr
}

/// Whether `outcomes` is a full round for `s`: it holds a probe of every
/// configured backend, made for the label it is configured under.
pub open spec fn is_full_round(s: RegistryView, outcomes: Seq<(Seq<char>, Backend, bool)>) -> bool {
    forall|i: int, m: int|
        0 <= i < s.groups.len() && 0 <= m < s.groups[i].configured.len() ==> probed_in(
            outcomes,
            s.groups[i].label,
            (#[trigger] s.groups[i].configured[m]).addr,
        )
}

/// Whether every probe of `outcomes` came out as `healthy`.
pub open spec fn all_outcomes(outcomes: Seq<(Seq<char>, Backend, bool)>, healthy: bool) -> bool {
    forall|k: int| 0 <= k < outcomes.len() ==> (#[trigger] outcomes[k]).2 == healthy
}

/// Which endpoints are active in a group after one probe.
pub proof fn lemma_probed_endpoints(g: GroupView, backend: Backend, healthy: bool, addr: Endpoint)
    ensures
        healthy ==> (has_endpoint(g.probed(backend, healthy).active, addr) <==> has_endpoint(
            g.active,
            addr,
        ) || (addr == backend.addr && has_endpoint(g.configured, addr))),
        !healthy ==> (has_endpoint(g.probed(backend, healthy).active, addr) <==> has_endpoint(
            g.active,
            addr,
        ) && addr != backend.addr),
{
    let after = g.probed(backend, healthy).active;
    if healthy {
        if has_endpoint(g.configured, backend.addr) && !has_endpoint(g.active, backend.addr) {
            assert(after == g.active.push(backend));
            if has_endpoint(g.active, addr) {
                let k = choose|k: int| 0 <= k < g.active.len() && (#[trigger] g.active[k]).addr == addr;
                assert(after[k].addr == addr);
            }
            if addr == backend.addr {
                assert(after[g.active.len() as int].addr == addr);
            }
            if has_endpoint(after, addr) {
                let k = choose|k: int| 0 <= k < after.len() && (#[trigger] after[k]).addr == addr;
                if k < g.active.len() {
                    assert(g.active[k].addr == addr);
                }
            }
        }
    } else {
        lemma_drop_endpoint_members(g.active, backend.addr);
        if has_endpoint(after, addr) {
            let k = choose|k: int| 0 <= k < after.len() && (#[trigger] after[k]).addr == addr;
            assert(g.active.contains(after[k]));
            let m = choose|m: int| 0 <= m < g.active.len() && g.active[m] == after[k];
            assert(g.active[m].addr == addr);
        }
        if has_endpoint(g.active, addr) && addr != backend.addr {
            let k = choose|k: int| 0 <= k < g.active.len() && (#[trigger] g.active[k]).addr == addr;
            g.active.lemma_filter_contains(|b: Backend| b.addr != backend.addr, k);
            let kept = drop_endpoint(g.active, backend.addr);
            let m = choose|m: int| 0 <= m < kept.len() && kept[m] == g.active[k];
            assert(kept[m].addr == addr);
        }
    }
}

/// Probes change nothing but active lists, and after probes that all came
/// out alike an endpoint is active in a group exactly when
/// - all healthy: it was active before, or is configured there and was
///   probed for that label;
/// - all unhealthy: it was active before and was not probed for that label.
pub proof fn lemma_record_probes(
    s: RegistryView,
    outcomes: Seq<(Seq<char>, Backend, bool)>,
    healthy: bool,
)
    requires
        s.wf(),
        all_outcomes(outcomes, healthy),
    ensures
        ({
            let t = s.record_probes(outcomes);
            &&& t.wf()
            &&& t.cursor == s.cursor
            &&& t.mode == s.mode
            &&& t.groups.len() == s.groups.len()
            &&& forall|i: int|
                0 <= i < s.groups.len() ==> {
                    &&& (#[trigger] t.groups[i]).label == s.groups[i].label
                    &&& t.groups[i].configured == s.groups[i].configured
                    &&& t.groups[i].count == s.groups[i].count
                }
            &&& forall|i: int, addr: Endpoint|
                0 <= i < s.groups.len() ==> (#[trigger] has_endpoint(t.groups[i].active, addr) <==> if healthy {
                    has_endpoint(s.groups[i].active, addr) || (has_endpoint(
                        s.groups[i].configured,
                        addr,
                    ) && probed_in(outcomes, s.groups[i].label, addr))
                } else {
                    has_endpoint(s.groups[i].active, addr) && !probed_in(
                        outcomes,
                        s.groups[i].label,
                        addr,
                    )
                })
        }),
    decreases outcomes.len(),
{
    if outcomes.len() > 0 {
        let front = outcomes.drop_last();
        let (label, backend, outcome) = outcomes.last();
        assert(outcomes[outcomes.len() - 1].2 == healthy);
        assert forall|k: int| 0 <= k < front.len() implies (#[trigger] front[k]).2 == healthy by {
            assert(front[k] == outcomes[k]);
        }
        lemma_record_probes(s, front, healthy);
        let mid = s.record_probes(front);
        let t = s.record_probes(outcomes);
        lemma_record_probe_wf(mid, label, backend, healthy);
        assert(t == mid.record_probe(label, backend, healthy));
        assert forall|i: int, addr: Endpoint| 0 <= i < s.groups.len() implies (#[trigger] has_endpoint(
            t.groups[i].active,
            addr,
        ) <==> if healthy {
            has_endpoint(s.groups[i].active, addr) || (has_endpoint(s.groups[i].configured, addr)
                && probed_in(outcomes, s.groups[i].label, addr))
        } else {
            has_endpoint(s.groups[i].active, addr) && !probed_in(outcomes, s.groups[i].label, addr)
        }) by {
            let here = s.groups[i].label;
            assert(mid.groups[i].label == here);
            // What the last probe adds to the probes made so far.
            assert(probed_in(outcomes, here, addr) <==> probed_in(front, here, addr) || (label
                == here && backend.addr == addr)) by {
                if probed_in(front, here, addr) {
                    let k = choose|k: int|
                        0 <= k < front.len() && (#[trigger] front[k]).0 == here && front[k].1.addr
                            == addr;
                    assert(outcomes[k] == front[k]);
                }
                if label == here && backend.addr == addr {
                    assert(outcomes[outcomes.len() - 1].0 == here);
                }
                if probed_in(outcomes, here, addr) {
                    let k = choose|k: int|
                        0 <= k < outcomes.len() && (#[trigger] outcomes[k]).0 == here
                            && outcomes[k].1.addr == addr;
                    if k < front.len() {
                        assert(front[k] == outcomes[k]);
                    }
                }
            }
            assert(has_endpoint(mid.groups[i].active, addr) <==> if healthy {
                has_endpoint(s.groups[i].active, addr) || (has_endpoint(s.groups[i].configured, addr)
                    && probed_in(front, here, addr))
            } else {
                has_endpoint(s.groups[i].active, addr) && !probed_in(front, here, addr)
            });
            if label == here {
                assert(t.groups[i] == mid.groups[i].probed(backend, healthy));
                lemma_probed_endpoints(mid.groups[i], backend, healthy, addr);
            } else {
                assert(t.groups[i] == mid.groups[i]);
            }
        }
    }
}

/// After a full round in which every probe succeeds, the active endpoints
/// of every label are its configured endpoints, and every configured label
/// has an active list.
pub proof fn lemma_all_healthy_round(s: RegistryView, outcomes: Seq<(Seq<char>, Backend, bool)>)
    requires
        s.wf(),
        is_full_round(s, outcomes),
        all_outcomes(outcomes, true),
    ensures
        ({
            let t = s.record_probes(outcomes);
            &&& t.configured() == s.configured()
            &&& t.counts() == s.counts()
            &&& t.active().dom() == t.configured().dom()
            &&& forall|label: Seq<char>| #[trigger]
                t.configured().dom().contains(label) ==> endpoints(t.active()[label]) == endpoints(
                    t.configured()[label],
                )
        }),
{
    let t = s.record_probes(outcomes);
    lemma_record_probes(s, outcomes, true);
    lemma_same_groups_same_maps(s, t);
    assert forall|label: Seq<char>| s.has_group(label) implies t.group(label).active.len() > 0
        && endpoints(t.group(label).active) == endpoints(t.group(label).configured) by {
        let i = s.group_index(label);
        lemma_group_at(s, i);
        lemma_group_at(t, i);
        assert(s.groups[i].wf());
        assert(t.groups[i].wf());
        let configured = s.groups[i].configured;
        let active = t.groups[i].active;
        assert forall|addr: Endpoint| has_endpoint(configured, addr) implies has_endpoint(
            active,
            addr,
        ) by {
            let m = choose|m: int| 0 <= m < configured.len() && (#[trigger] configured[m]).addr == addr;
            assert(probed_in(outcomes, s.groups[i].label, s.groups[i].configured[m].addr));
        }
        assert forall|addr: Endpoint| has_endpoint(active, addr) implies has_endpoint(
            configured,
            addr,
        ) by {
            let k = choose|k: int| 0 <= k < active.len() && (#[trigger] active[k]).addr == addr;
            assert(has_endpoint(t.groups[i].configured, active[k].addr));
        }
        assert(has_endpoint(configured, configured[0].addr));
        assert(endpoints(active) =~= endpoints(configured));
    }
    assert(t.active().dom() =~= t.configured().dom());
}

/// After a full round in which every probe fails, no backend is active and
/// no label has an active list.
pub proof fn lemma_all_unhealthy_round(s: RegistryView, outcomes: Seq<(Seq<char>, Backend, bool)>)
    requires
        s.wf(),
        is_full_round(s, outcomes),
        all_outcomes(outcomes, false),
    ensures
        ({
            let t = s.record_probes(outcomes);
            &&& t.configured() == s.configured()
            &&& t.counts() == s.counts()
            &&& !t.has_active()
            &&& t.selection() is None
            &&& t.active() == Map::<Seq<char>, Seq<Backend>>::empty()
            &&& forall|i: int| 0 <= i < t.groups.len() ==> (#[trigger] t.groups[i]).active.len() == 0
        }),
{
    let t = s.record_probes(outcomes);
    lemma_record_probes(s, outcomes, false);
    lemma_same_groups_same_maps(s, t);
    assert forall|i: int| 0 <= i < t.groups.len() implies (#[trigger] t.groups[i]).active.len()
        == 0 by {
        let active = t.groups[i].active;
        if active.len() > 0 {
            let addr = active[0].addr;
            assert(has_endpoint(active, addr));
            assert(has_endpoint(s.groups[i].active, addr));
            assert(s.groups[i].wf());
            let k = choose|k: int|
                0 <= k < s.groups[i].active.len() && (#[trigger] s.groups[i].active[k]).addr == addr;
            assert(has_endpoint(s.groups[i].configured, s.groups[i].active[k].addr));
            let m = choose|m: int|
                0 <= m < s.groups[i].configured.len() && (#[trigger] s.groups[i].configured[m]).addr
                    == addr;
            assert(probed_in(outcomes, s.groups[i].label, s.groups[i].configured[m].addr));
        }
    }
    assert(t.active() =~= Map::<Seq<char>, Seq<Backend>>::empty());
}

// ----- rounds of any outcomes -----

/// How the last probe in `outcomes` made for `label` of a backend that
/// listens on `addr` came out, if there was one.
pub open spec fn last_probe(
    outcomes: Seq<(Seq<char>, Backend, bool)>,
    label: Seq<char>,
    addr: Endpoint,
) -> Option<bool>
    decreases outcomes.len(),
{
    if outcomes.len() == 0 {
        None
    } else if outcomes.last().0 == label && outcomes.last().1.addr == addr {
        Some(outcomes.last().2)
    } else {
        last_probe(outcomes.drop_last(), label, addr)
    }
}

/// Whether `outcomes` holds a failed probe made for `label` of a backend
/// that listens on `addr`.
pub open spec fn failed_in(
    outcomes: Seq<(Seq<char>, Backend, bool)>,
    label: Seq<char>,
    addr: Endpoint,
) -> bool {
    exists|k: int|
        0 <= k < outcomes.len() && (#[trigger] outcomes[k]).0 == label && outcomes[k].1.addr == addr
            && !outcomes[k].2
}

/// Whether no backend is probed twice for the same label, as in a round
/// made from one snapshot of a registry that configures nothing twice.
pub open spec fn probes_once(outcomes: Seq<(Seq<char>, Backend, bool)>) -> bool {
    forall|j: int, k: int|
        0 <= j < k < outcomes.len() ==> !((#[trigger] outcomes[j]).0 == (#[trigger] outcomes[k]).0
            && outcomes[j].1.addr == outcomes[k].1.addr)
}

/// What of `active` no probe of `outcomes` made for `label` found
/// unreachable, in the order it had.
pub open spec fn survivors(
    active: Seq<Backend>,
    outcomes: Seq<(Seq<char>, Backend, bool)>,
    label: Seq<char>,
) -> Seq<Backend> {
    active.filter(|b: Backend| !failed_in(outcomes, label, b.addr))
}

/// The backends that a round brings into a group: those probed for its
/// label and found reachable that are configured in it and were not active,
/// in the order they were probed.
pub open spec fn promoted(g: GroupView, outcomes: Seq<(Seq<char>, Backend, bool)>) -> Seq<Backend>
    decreases outcomes.len(),
{
    if outcomes.len() == 0 {
        Seq::empty()
    } else {
        let before = promoted(g, outcomes.drop_last());
        let (label, backend, healthy) = outcomes.last();
        if label == g.label && healthy && has_endpoint(g.configured, backend.addr) && !has_endpoint(
            g.active,
            backend.addr,
        ) {
            before.push(backend)
        } else {
            before
        }
    }
}

/// After any round of probes, whatever their outcomes: an endpoint that was
/// probed for a label is active under it exactly if its last probe found it
/// reachable and it is configured there; one that was not probed is active
/// exactly if it was before. So a backend that has become unreachable is
/// gone after the round that finds it so, and one that is reachable again
/// is back after the round that finds it so.
pub proof fn lemma_round_membership(s: RegistryView, outcomes: Seq<(Seq<char>, Backend, bool)>)
    requires
        s.wf(),
    ensures
        ({
            let t = s.record_probes(outcomes);
            &&& t.wf()
            &&& t.cursor == s.cursor
            &&& t.mode == s.mode
            &&& t.groups.len() == s.groups.len()
            &&& forall|i: int|
                0 <= i < s.groups.len() ==> {
                    &&& (#[trigger] t.groups[i]).label == s.groups[i].label
                    &&& t.groups[i].configured == s.groups[i].configured
                    &&& t.groups[i].count == s.groups[i].count
                }
            &&& forall|i: int, addr: Endpoint|
                0 <= i < s.groups.len() ==> (#[trigger] has_endpoint(t.groups[i].active, addr)
                    <==> match last_probe(outcomes, s.groups[i].label, addr) {
                    Some(healthy) => healthy && has_endpoint(s.groups[i].configured, addr),
                    None => has_endpoint(s.groups[i].active, addr),
                })
        }),
    decreases outcomes.len(),
{
    if outcomes.len() > 0 {
        let front = outcomes.drop_last();
        let (label, backend, healthy) = outcomes.last();
        lemma_round_membership(s, front);
        let mid = s.record_probes(front);
        let t = s.record_probes(outcomes);
        lemma_record_probe_wf(mid, label, backend, healthy);
        assert(t == mid.record_probe(label, backend, healthy));
        assert forall|i: int, addr: Endpoint| 0 <= i < s.groups.len() implies (#[trigger] has_endpoint(
            t.groups[i].active,
            addr,
        ) <==> match last_probe(outcomes, s.groups[i].label, addr) {
            Some(healthy) => healthy && has_endpoint(s.groups[i].configured, addr),
            None => has_endpoint(s.groups[i].active, addr),
        }) by {
            let here = s.groups[i].label;
            assert(mid.groups[i].label == here);
            assert(mid.groups[i].wf());
            assert(has_endpoint(mid.groups[i].active, addr) <==> match last_probe(front, here, addr) {
                Some(healthy) => healthy && has_endpoint(s.groups[i].configured, addr),
                None => has_endpoint(s.groups[i].active, addr),
            });
            if label == here {
                assert(t.groups[i] == mid.groups[i].probed(backend, healthy));
                lemma_probed_endpoints(mid.groups[i], backend, healthy, addr);
                if has_endpoint(mid.groups[i].active, addr) {
                    let k = choose|k: int|
                        0 <= k < mid.groups[i].active.len() && (#[trigger] mid.groups[i].active[k]).addr
                            == addr;
                    assert(has_endpoint(mid.groups[i].configured, mid.groups[i].active[k].addr));
                }
            } else {
                assert(t.groups[i] == mid.groups[i]);
            }
        }
    }
}

/// A probe that is in `outcomes` is the last of its kind or is followed by
/// one; one that is not has no last.
pub proof fn lemma_last_probe(outcomes: Seq<(Seq<char>, Backend, bool)>, label: Seq<char>, addr: Endpoint)
    ensures
        last_probe(outcomes, label, addr) is Some <==> probed_in(outcomes, label, addr),
        last_probe(outcomes, label, addr) == Some(false) ==> failed_in(outcomes, label, addr),
        probes_once(outcomes) && failed_in(outcomes, label, addr) ==> last_probe(
            outcomes,
            label,
            addr,
        ) == Some(false),
    decreases outcomes.len(),
{
    if outcomes.len() > 0 {
        let front = outcomes.drop_last();
        let last = outcomes.len() - 1;
        lemma_last_probe(front, label, addr);
        assert forall|k: int| 0 <= k < front.len() implies #[trigger] front[k] == outcomes[k] by {}
        if probed_in(front, label, addr) {
            let k = choose|k: int|
                0 <= k < front.len() && (#[trigger] front[k]).0 == label && front[k].1.addr == addr;
            assert(outcomes[k].0 == label);
        }
        if failed_in(front, label, addr) {
            let k = choose|k: int|
                0 <= k < front.len() && (#[trigger] front[k]).0 == label && front[k].1.addr == addr
                    && !front[k].2;
            assert(outcomes[k].0 == label && !outcomes[k].2);
        }
        if outcomes[last].0 == label && outcomes[last].1.addr == addr {
            assert(probed_in(outcomes, label, addr));
        }
        if probed_in(outcomes, label, addr) {
            let k = choose|k: int|
                0 <= k < outcomes.len() && (#[trigger] outcomes[k]).0 == label && outcomes[k].1.addr
                    == addr;
            if k < last {
                assert(front[k].0 == label);
            }
        }
        if probes_once(outcomes) {
            assert(probes_once(front)) by {
                assert forall|j: int, k: int| 0 <= j < k < front.len() implies !((
                #[trigger] front[j]).0 == (#[trigger] front[k]).0 && front[j].1.addr
                    == front[k].1.addr) by {
                    assert(front[j] == outcomes[j] && front[k] == outcomes[k]);
                }
            }
            if failed_in(outcomes, label, addr) {
                let k = choose|k: int|
                    0 <= k < outcomes.len() && (#[trigger] outcomes[k]).0 == label
                        && outcomes[k].1.addr == addr && !outcomes[k].2;
                if k < last {
                    assert(front[k].0 == label && !front[k].2);
                    assert(failed_in(front, label, addr));
                    // Nothing is probed twice, so the last probe is not of this kind.
                    assert(!(outcomes[k].0 == outcomes[last].0 && outcomes[k].1.addr
                        == outcomes[last].1.addr));
                }
            }
        }
    }
}

/// Two tests that agree on every member of a list keep the same of it.
proof fn lemma_filter_same(
    list: Seq<Backend>,
    p: spec_fn(Backend) -> bool,
    q: spec_fn(Backend) -> bool,
)
    requires
        forall|k: int| 0 <= k < list.len() ==> p(#[trigger] list[k]) == q(list[k]),
    ensures
        list.filter(p) == list.filter(q),
    decreases list.len(),
{
    reveal(Seq::filter);
    if list.len() > 0 {
        let front = list.drop_last();
        assert forall|k: int| 0 <= k < front.len() implies p(#[trigger] front[k]) == q(front[k]) by {
            assert(front[k] == list[k]);
        }
        lemma_filter_same(front, p, q);
        assert(p(list[list.len() - 1]) == q(list[list.len() - 1]));
    }
}

/// Dropping an endpoint from two lists joined is dropping it from each.
proof fn lemma_drop_endpoint_joined(x: Seq<Backend>, y: Seq<Backend>, addr: Endpoint)
    ensures
        drop_endpoint(x + y, addr) == drop_endpoint(x, addr) + drop_endpoint(y, addr),
{
    Seq::filter_distributes_over_add(x, y, |b: Backend| b.addr != addr);
}

/// Dropping an endpoint from a list that does not hold it changes nothing.
proof fn lemma_drop_endpoint_absent(list: Seq<Backend>, addr: Endpoint)
    requires
        !has_endpoint(list, addr),
    ensures
        drop_endpoint(list, addr) == list,
    decreases list.len(),
{
    reveal(Seq::filter);
    if list.len() > 0 {
        let front = list.drop_last();
        assert(!has_endpoint(front, addr)) by {
            if has_endpoint(front, addr) {
                let k = choose|k: int| 0 <= k < front.len() && (#[trigger] front[k]).addr == addr;
                assert(list[k].addr == addr);
            }
        }
        lemma_drop_endpoint_absent(front, addr);
        assert(list[list.len() - 1].addr != addr);
        assert(front.push(list.last()) =~= list);
    }
}

/// Dropping an endpoint from what survived is what survives one more
/// failed probe, of that endpoint.
proof fn lemma_survivors_after_failure(
    active: Seq<Backend>,
    front: Seq<(Seq<char>, Backend, bool)>,
    label: Seq<char>,
    backend: Backend,
)
    ensures
        drop_endpoint(survivors(active, front, label), backend.addr) == survivors(
            active,
            front.push((label, backend, false)),
            label,
        ),
    decreases active.len(),
{
    reveal(Seq::filter);
    let outcomes = front.push((label, backend, false));
    let addr = backend.addr;
    if active.len() > 0 {
        let rest = active.drop_last();
        let x = active.last();
        lemma_survivors_after_failure(rest, front, label, backend);
        lemma_failed_in_push(front, (label, backend, false), label, x.addr);
        if !failed_in(front, label, x.addr) {
            survivors(rest, front, label).lemma_filter_push(x, |b: Backend| b.addr != addr);
        }
    }
}

/// What one more probe adds to the failed probes.
proof fn lemma_failed_in_push(
    front: Seq<(Seq<char>, Backend, bool)>,
    last: (Seq<char>, Backend, bool),
    label: Seq<char>,
    addr: Endpoint,
)
    ensures
        failed_in(front.push(last), label, addr) <==> failed_in(front, label, addr) || (last.0
            == label && last.1.addr == addr && !last.2),
{
    let outcomes = front.push(last);
    if failed_in(front, label, addr) {
        let k = choose|k: int|
            0 <= k < front.len() && (#[trigger] front[k]).0 == label && front[k].1.addr == addr
                && !front[k].2;
        assert(outcomes[k] == front[k]);
    }
    if last.0 == label && last.1.addr == addr && !last.2 {
        assert(outcomes[front.len() as int] == last);
    }
    if failed_in(outcomes, label, addr) {
        let k = choose|k: int|
            0 <= k < outcomes.len() && (#[trigger] outcomes[k]).0 == label && outcomes[k].1.addr
                == addr && !outcomes[k].2;
        if k < front.len() {
            assert(front[k] == outcomes[k]);
        }
    }
}

/// Whatever a round brings into a group was probed for the group's label.
proof fn lemma_promoted_were_probed(g: GroupView, outcomes: Seq<(Seq<char>, Backend, bool)>)
    ensures
        forall|k: int|
            0 <= k < promoted(g, outcomes).len() ==> probed_in(
                outcomes,
                g.label,
                (#[trigger] promoted(g, outcomes)[k]).addr,
            ),
    decreases outcomes.len(),
{
    if outcomes.len() > 0 {
        let front = outcomes.drop_last();
        lemma_promoted_were_probed(g, front);
        assert forall|k: int| 0 <= k < promoted(g, outcomes).len() implies probed_in(
            outcomes,
            g.label,
            (#[trigger] promoted(g, outcomes)[k]).addr,
        ) by {
            if k < promoted(g, front).len() {
                let addr = promoted(g, front)[k].addr;
                assert(probed_in(front, g.label, addr));
                let m = choose|m: int|
                    0 <= m < front.len() && (#[trigger] front[m]).0 == g.label && front[m].1.addr
                        == addr;
                assert(outcomes[m] == front[m]);
            } else {
                assert(outcomes[outcomes.len() - 1].0 == g.label);
            }
        }
    }
}

/// After a round that probes nothing twice, the active list of every group
/// is what it was without the backends found unreachable, in the order it
/// had, followed by the configured backends found reachable that were not
/// active, in the order they were probed.
pub proof fn lemma_round_lists(s: RegistryView, outcomes: Seq<(Seq<char>, Backend, bool)>)
    requires
        s.wf(),
        probes_once(outcomes),
    ensures
        forall|i: int|
            0 <= i < s.groups.len() ==> (#[trigger] s.record_probes(outcomes).groups[i]).active
                == survivors(s.groups[i].active, outcomes, s.groups[i].label) + promoted(
                s.groups[i],
                outcomes,
            ),
    decreases outcomes.len(),
{
    let t = s.record_probes(outcomes);
    lemma_round_membership(s, outcomes);
    if outcomes.len() == 0 {
        assert forall|i: int| 0 <= i < s.groups.len() implies (#[trigger] t.groups[i]).active
            == survivors(s.groups[i].active, outcomes, s.groups[i].label) + promoted(
            s.groups[i],
            outcomes,
        ) by {
            let active = s.groups[i].active;
            let here = s.groups[i].label;
            lemma_filter_same(active, |b: Backend| !failed_in(outcomes, here, b.addr), |b: Backend| true);
            lemma_keep_all(active);
            assert(active + Seq::<Backend>::empty() =~= active);
        }
    } else {
        let front = outcomes.drop_last();
        let last = outcomes.len() - 1;
        let (label, backend, healthy) = outcomes.last();
        assert(outcomes =~= front.push((label, backend, healthy)));
        assert(probes_once(front)) by {
            assert forall|j: int, k: int| 0 <= j < k < front.len() implies !((#[trigger] front[j]).0
                == (#[trigger] front[k]).0 && front[j].1.addr == front[k].1.addr) by {
                assert(front[j] == outcomes[j] && front[k] == outcomes[k]);
            }
        }
        assert(!probed_in(front, label, backend.addr)) by {
            if probed_in(front, label, backend.addr) {
                let k = choose|k: int|
                    0 <= k < front.len() && (#[trigger] front[k]).0 == label && front[k].1.addr
                        == backend.addr;
                assert(front[k] == outcomes[k]);
                assert(!(outcomes[k].0 == outcomes[last].0 && outcomes[k].1.addr
                    == outcomes[last].1.addr));
            }
        }
        lemma_round_lists(s, front);
        lemma_round_membership(s, front);
        let mid = s.record_probes(front);
        assert(t == mid.record_probe(label, backend, healthy));
        assert forall|i: int| 0 <= i < s.groups.len() implies (#[trigger] t.groups[i]).active
            == survivors(s.groups[i].active, outcomes, s.groups[i].label) + promoted(
            s.groups[i],
            outcomes,
        ) by {
            let g = s.groups[i];
            let here = g.label;
            let kept = survivors(g.active, front, here);
            let brought = promoted(g, front);
            assert(mid.groups[i].label == here);
            assert(mid.groups[i].active == kept + brought);
            assert forall|k: int| 0 <= k < g.active.len() implies (failed_in(
                outcomes,
                here,
                (#[trigger] g.active[k]).addr,
            ) <==> failed_in(front, here, g.active[k].addr) || (label == here && backend.addr
                == g.active[k].addr && !healthy)) by {
                lemma_failed_in_push(front, (label, backend, healthy), here, g.active[k].addr);
            }
            if label != here {
                assert(t.groups[i] == mid.groups[i]);
                lemma_filter_same(
                    g.active,
                    |b: Backend| !failed_in(outcomes, here, b.addr),
                    |b: Backend| !failed_in(front, here, b.addr),
                );
            } else if healthy {
                assert(t.groups[i] == mid.groups[i].probed(backend, true));
                lemma_filter_same(
                    g.active,
                    |b: Backend| !failed_in(outcomes, here, b.addr),
                    |b: Backend| !failed_in(front, here, b.addr),
                );
                lemma_last_probe(front, here, backend.addr);
                assert(has_endpoint(mid.groups[i].active, backend.addr) <==> has_endpoint(
                    g.active,
                    backend.addr,
                ));
                assert(mid.groups[i].configured == g.configured);
                if has_endpoint(g.configured, backend.addr) && !has_endpoint(g.active, backend.addr) {
                    assert((kept + brought).push(backend) =~= kept + brought.push(backend));
                }
            } else {
                assert(t.groups[i].active == drop_endpoint(kept + brought, backend.addr));
                lemma_drop_endpoint_joined(kept, brought, backend.addr);
                lemma_promoted_were_probed(g, front);
                assert(!has_endpoint(brought, backend.addr)) by {
                    if has_endpoint(brought, backend.addr) {
                        let k = choose|k: int|
                            0 <= k < brought.len() && (#[trigger] brought[k]).addr == backend.addr;
                        assert(probed_in(front, here, brought[k].addr));
                    }
                }
                lemma_drop_endpoint_absent(brought, backend.addr);
                lemma_survivors_after_failure(g.active, front, here, backend);
            }
        }
    }
}

/// A test that nothing fails keeps the whole list.
proof fn lemma_keep_all(list: Seq<Backend>)
    ensures
        list.filter(|b: Backend| true) == list,
    decreases list.len(),
{
    reveal(Seq::filter);
    if list.len() > 0 {
        lemma_keep_all(list.drop_last());
        assert(list.drop_last().push(list.last()) =~= list);
    }
}

/// Registries whose groups agree on label, configured list and counter,
/// position by position, have the same configured map and the same counters.
pub proof fn lemma_same_groups_same_maps(s: RegistryView, t: RegistryView)
    requires
        s.wf(),
        t.wf(),
        t.groups.len() == s.groups.len(),
        forall|i: int|
            0 <= i < s.groups.len() ==> {
                &&& (#[trigger] t.groups[i]).label == s.groups[i].label
                &&& t.groups[i].configured == s.groups[i].configured
                &&& t.groups[i].count == s.groups[i].count
            },
    ensures
        t.configured() == s.configured(),
        t.counts() == s.counts(),
        forall|label: Seq<char>|
            #![trigger s.has_group(label)]
            #![trigger t.has_group(label)]
            t.has_group(label) == s.has_group(label) && (s.has_group(label) ==> t.group_index(label)
                == s.group_index(label)),
{
    assert forall|label: Seq<char>|
        #![trigger s.has_group(label)]
        #![trigger t.has_group(label)]
        t.has_group(label) == s.has_group(label) && (s.has_group(label) ==> t.group_index(label)
            == s.group_index(label)) by {
        if s.has_group(label) {
            let i = s.group_index(label);
            assert(t.groups[i].label == label);
            lemma_group_at(t, i);
        }
        if t.has_group(label) {
            let i = t.group_index(label);
            assert(t.groups[i].label == s.groups[i].label);
        }
    }
    assert(t.configured() =~= s.configured());
    assert(t.counts() =~= s.counts());
}

} // verus!
