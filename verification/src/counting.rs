//! Counters under traffic: what a run of increments and decrements leaves
//! behind.

use crate::invariants::lemma_owner_unique;
use crate::model::{has_endpoint, GroupView, RegistryView};
use crate::types::Endpoint;
use vstd::prelude::*;

verus! {

/// One counting step: `(addr, true)` is a request to `addr` that starts,
/// `(addr, false)` one that ends.
pub open spec fn count_step(s: RegistryView, op: (Endpoint, bool)) -> RegistryView {
    if op.1 {
        s.increment(op.0)
    } else {
        s.decrement(op.0)
    }
}

/// Counting steps, first to last.
pub open spec fn count_steps(s: RegistryView, ops: Seq<(Endpoint, bool)>) -> RegistryView
    decreases ops.len(),
{
    if ops.len() == 0 {
        s
    } else {
        count_step(count_steps(s, ops.drop_last()), ops.last())
    }
}

/// Starts minus ends.
pub open spec fn in_flight(ops: Seq<(Endpoint, bool)>) -> int
    decreases ops.len(),
{
    if ops.len() == 0 {
        0
    } else {
        in_flight(ops.drop_last()) + if ops.last().1 {
            1int
        } else {
            -1int
        }
    }
}

/// Every end has its start before it, and no counter is asked to go past
/// `room` above where it began.
pub open spec fn paired(ops: Seq<(Endpoint, bool)>, room: int) -> bool {
    forall|k: int| 0 <= k <= ops.len() ==> 0 <= #[trigger] in_flight(ops.take(k)) <= room
}

/// `after` is `before`, but that a group which had no counter may have one
/// that reads what no counter reads: zero.
pub open spec fn seeded_from(before: Seq<GroupView>, after: Seq<GroupView>) -> bool {
    &&& after.len() == before.len()
    &&& forall|i: int|
        0 <= i < before.len() ==> {
            &&& (#[trigger] after[i]).label == before[i].label
            &&& after[i].configured == before[i].configured
            &&& after[i].active == before[i].active
            &&& after[i].load() == before[i].load()
            &&& before[i].count is Some ==> after[i].count == before[i].count
        }
}

/// While starts and ends on the endpoints of one group stay paired, the
/// group's counter, once the first request has been counted in, is what it
/// read at first plus the requests in flight, and nothing else in the
/// registry moves.
pub proof fn lemma_counter_tracks_in_flight(s: RegistryView, g: int, ops: Seq<(Endpoint, bool)>)
    requires
        0 <= g < s.groups.len(),
        forall|k: int| 0 <= k < ops.len() ==> s.is_owner((#[trigger] ops[k]).0, g),
        paired(ops, usize::MAX - s.groups[g].load()),
    ensures
        count_steps(s, ops) == if ops.len() == 0 {
            s
        } else {
            s.with_count(g, (s.groups[g].load() + in_flight(ops)) as nat)
        },
    decreases ops.len(),
{
    assert(ops.take(ops.len() as int) =~= ops);
    if ops.len() > 0 {
        let front = ops.drop_last();
        assert(front =~= ops.take(ops.len() - 1));
        assert forall|k: int| 0 <= k <= front.len() implies 0 <= #[trigger] in_flight(front.take(k))
            <= usize::MAX - s.groups[g].load() by {
            assert(front.take(k) =~= ops.take(k));
        }
        assert forall|k: int| 0 <= k < front.len() implies s.is_owner((#[trigger] front[k]).0, g) by {
            assert(front[k] == ops[k]);
        }
        lemma_counter_tracks_in_flight(s, g, front);
        let mid = count_steps(s, front);
        let addr = ops.last().0;
        assert(s.is_owner(ops[ops.len() - 1].0, g));
        assert forall|j: int| 0 <= j < s.groups.len() implies (#[trigger] mid.groups[j]).configured
            == s.groups[j].configured by {}
        assert(mid.is_owner(addr, g));
        lemma_owner_unique(mid, addr, g);
        assert(in_flight(front.take(front.len() as int)) >= 0);
        assert(front.take(front.len() as int) =~= front);
        assert(count_step(mid, ops.last()).groups =~= s.with_count(
            g,
            (s.groups[g].load() + in_flight(ops)) as nat,
        ).groups);
    }
}

/// After starts and ends on the endpoints of one group that pair up, the
/// group's counter reads what it read at first: zero if it began at zero
/// or without a counter. Nothing else has moved, and a registry whose group
/// had a counter is what it was.
pub proof fn lemma_paired_traffic_restores(s: RegistryView, g: int, ops: Seq<(Endpoint, bool)>)
    requires
        0 <= g < s.groups.len(),
        forall|k: int| 0 <= k < ops.len() ==> s.is_owner((#[trigger] ops[k]).0, g),
        paired(ops, usize::MAX - s.groups[g].load()),
        in_flight(ops) == 0,
    ensures
        count_steps(s, ops).groups[g].load() == s.groups[g].load(),
        seeded_from(s.groups, count_steps(s, ops).groups),
        count_steps(s, ops).cursor == s.cursor,
        count_steps(s, ops).mode == s.mode,
        s.groups[g].count is Some ==> count_steps(s, ops) == s,
{
    lemma_counter_tracks_in_flight(s, g, ops);
    if s.groups[g].count is Some {
        assert(s.with_count(g, s.groups[g].load()).groups =~= s.groups);
    }
}

/// An endpoint that some group names has an owner: the first such group.
pub proof fn lemma_owner_exists(s: RegistryView, addr: Endpoint, i: int)
    requires
        0 <= i < s.groups.len(),
        has_endpoint(s.groups[i].configured, addr),
    ensures
        s.has_owner(addr),
        0 <= s.owner(addr) <= i,
        s.is_owner(addr, s.owner(addr)),
    decreases i,
{
    if exists|j: int| 0 <= j < i && has_endpoint((#[trigger] s.groups[j]).configured, addr) {
        let j = choose|j: int| 0 <= j < i && has_endpoint((#[trigger] s.groups[j]).configured, addr);
        lemma_owner_exists(s, addr, j);
    } else {
        assert(s.is_owner(addr, i));
        lemma_owner_unique(s, addr, i);
    }
}

/// Whatever is active listens on an endpoint that has an owner.
pub proof fn lemma_active_has_owner(s: RegistryView, backend: crate::types::Backend)
    requires
        s.wf(),
        s.is_active(backend),
    ensures
        s.has_owner(backend.addr),
        s.is_owner(backend.addr, s.owner(backend.addr)),
{
    let (i, k) = choose|i: int, k: int|
        0 <= i < s.groups.len() && 0 <= k < s.groups[i].active.len()
            && #[trigger] s.groups[i].active[k] == backend;
    assert(s.groups[i].wf());
    assert(has_endpoint(s.groups[i].configured, s.groups[i].active[k].addr));
    lemma_owner_exists(s, backend.addr, i);
}

/// Counting a request in and then out again leaves every counter reading
/// what it read, unless the counter had no room to go up; a registry whose
/// owning group had a counter, or in which nobody owns the endpoint, is what
/// it was.
pub proof fn lemma_count_in_then_out(s: RegistryView, addr: Endpoint)
    requires
        s.has_owner(addr) ==> s.groups[s.owner(addr)].load() < usize::MAX,
    ensures
        seeded_from(s.groups, s.increment(addr).decrement(addr).groups),
        !s.has_owner(addr) || s.groups[s.owner(addr)].count is Some ==> s.increment(
            addr,
        ).decrement(addr) == s,
{
    if s.has_owner(addr) {
        let g = s.owner(addr);
        assert(s.is_owner(addr, g));
        let up = s.increment(addr);
        assert forall|j: int| 0 <= j < s.groups.len() implies (#[trigger] up.groups[j]).configured
            == s.groups[j].configured by {}
        assert(up.is_owner(addr, g));
        lemma_owner_unique(up, addr, g);
        if s.groups[g].count is Some {
            assert(up.decrement(addr).groups =~= s.groups);
        }
    }
}

} // verus!
