//! The executable registry.

use crate::invariants::{
    lemma_add_group_wf, lemma_flatten_active, lemma_group_at, lemma_least_loaded_unique,
    lemma_owner_unique, lemma_record_probe_wf, lemma_traffic_keeps_wf, lemma_without,
};
use crate::laws::{lemma_decrement_at_zero, lemma_selection, lemma_update_dynamic};
use crate::model::{
    drop_endpoint, endpoints, flatten_active, has_endpoint, keep_configured, materialize,
    GroupView, RegistryView,
};
use crate::types::{Backend, Endpoint, LoadBalancerMode, Protocol};
use vstd::prelude::*;

verus! {

/// How long the health checker rests between rounds of probes, in seconds.
pub const HEALTH_CHECK_PERIOD_SECS: u64 = 10;

/// How long one probe may take before it counts as failed, in seconds.
pub const PROBE_TIMEOUT_SECS: u64 = 1;

/// One labelled group as the registry stores it.
struct Group {
    label: String,
    configured: Vec<Backend>,
    active: Vec<Backend>,
    count: Option<usize>,
}

impl View for Group {
    type V = GroupView;

    closed spec fn view(&self) -> GroupView {
        GroupView {
            label: self.label@,
            configured: self.configured@,
            active: self.active@,
            count: match self.count {
                Some(count) => Some(count as nat),
                None => None,
            },
        }
    }
}

impl Group {
    /// The requests in flight: the counter, or zero while there is none.
    fn load(&self) -> (load: usize)
        ensures
            load == self@.load(),
    {
        match self.count {
            Some(count) => count,
            None => 0,
        }
    }
}

/// The backend registry with its selection policy.
///
/// Its value as seen by contracts is a [`RegistryView`]; every method says
/// which registry it leaves behind as a function of the one it found.
pub struct LoadBalancer {
    groups: Vec<Group>,
    cursor: usize,
    mode: LoadBalancerMode,
}

impl View for LoadBalancer {
    type V = RegistryView;

    closed spec fn view(&self) -> RegistryView {
        RegistryView {
            groups: Seq::new(self.groups@.len(), |i: int| self.groups@[i]@),
            cursor: self.cursor as nat,
            mode: self.mode,
        }
    }
}

/// What a batch of static registrations says, as plain values.
pub open spec fn batch_view(batch: Seq<(String, Vec<(Endpoint, Option<Protocol>)>)>) -> Seq<
    (Seq<char>, Seq<(Endpoint, Option<Protocol>)>),
> {
    batch.map_values(|group: (String, Vec<(Endpoint, Option<Protocol>)>)| (group.0@, group.1@))
}

/// What a batch of probe outcomes says, as plain values.
pub open spec fn outcomes_view(outcomes: Seq<(String, Backend, bool)>) -> Seq<
    (Seq<char>, Backend, bool),
> {
    outcomes.map_values(|outcome: (String, Backend, bool)| (outcome.0@, outcome.1, outcome.2))
}

/// The backends for `entries`, in order.
fn materialize_backends(entries: &Vec<(Endpoint, Option<Protocol>)>) -> (backends: Vec<Backend>)
    ensures
        backends@ == materialize(entries@),
{
    let mut backends: Vec<Backend> = Vec::new();
    let mut i: usize = 0;
    while i < entries.len()
        invariant
            i <= entries.len(),
            backends@ == materialize(entries@.take(i as int)),
        decreases entries.len() - i,
    {
        backends.push(Backend::from_hint(entries[i]));
        i = i + 1;
        assert(backends@ =~= materialize(entries@.take(i as int)));
    }
    assert(entries@.take(i as int) =~= entries@);
    backends
}

/// Whether `list` holds a backend that listens on `addr`.
fn list_has_endpoint(list: &Vec<Backend>, addr: Endpoint) -> (found: bool)
    ensures
        found == has_endpoint(list@, addr),
{
    let mut i: usize = 0;
    while i < list.len()
        invariant
            i <= list.len(),
            forall|k: int| 0 <= k < i ==> (#[trigger] list@[k]).addr != addr,
        decreases list.len() - i,
    {
        if list[i].addr == addr {
            return true;
        }
        i = i + 1;
    }
    false
}

/// What of `active` is still named by `backends`.
fn retain_configured(active: &Vec<Backend>, backends: &Vec<Backend>) -> (kept: Vec<Backend>)
    ensures
        kept@ == keep_configured(active@, backends@),
{
    let mut kept: Vec<Backend> = Vec::new();
    let mut i: usize = 0;
    while i < active.len()
        invariant
            i <= active.len(),
            kept@ == keep_configured(active@.take(i as int), backends@),
        decreases active.len() - i,
    {
        proof {
            active@.take(i as int).lemma_filter_push(
                active@[i as int],
                |b: Backend| has_endpoint(backends@, b.addr),
            );
            assert(active@.take(i + 1) =~= active@.take(i as int).push(active@[i as int]));
        }
        if list_has_endpoint(backends, active[i].addr) {
            kept.push(active[i]);
        }
        i = i + 1;
    }
    assert(active@.take(i as int) =~= active@);
    kept
}

/// What of `active` does not listen on `addr`.
fn remove_endpoint(active: &Vec<Backend>, addr: Endpoint) -> (kept: Vec<Backend>)
    ensures
        kept@ == drop_endpoint(active@, addr),
{
    let mut kept: Vec<Backend> = Vec::new();
    let mut i: usize = 0;
    while i < active.len()
        invariant
            i <= active.len(),
            kept@ == drop_endpoint(active@.take(i as int), addr),
        decreases active.len() - i,
    {
        proof {
            active@.take(i as int).lemma_filter_push(
                active@[i as int],
                |b: Backend| b.addr != addr,
            );
            assert(active@.take(i + 1) =~= active@.take(i as int).push(active@[i as int]));
        }
        if active[i].addr != addr {
            kept.push(active[i]);
        }
        i = i + 1;
    }
    assert(active@.take(i as int) =~= active@);
    kept
}

impl LoadBalancer {
    /// What every method expects of the registry and leaves true of it:
    /// its value is a well-formed registry, of which the laws of this crate
    /// hold.
    pub open spec fn wf(&self) -> bool {
        self@.wf()
    }

    /// An empty registry that selects by `mode`.
    pub fn new(mode: LoadBalancerMode) -> (lb: LoadBalancer)
        ensures
            lb.wf(),
            lb@ == RegistryView::empty(mode),
    {
        let lb = LoadBalancer { groups: Vec::new(), cursor: 0, mode };
        assert(lb@.groups =~= Seq::empty());
        lb
    }

    /// Where the group labelled `label` stands, if there is one.
    fn find_group(&self, label: &String) -> (found: Option<usize>)
        requires
            self.wf(),
        ensures
            match found {
                Some(i) => i < self.groups.len() && self@.has_group(label@) && self@.group_index(
                    label@,
                ) == i,
                None => !self@.has_group(label@),
            },
    {
        let mut i: usize = 0;
        while i < self.groups.len()
            invariant
                self.wf(),
                i <= self.groups.len(),
                forall|j: int| 0 <= j < i ==> (#[trigger] self@.groups[j]).label != label@,
            decreases self.groups.len() - i,
        {
            if self.groups[i].label == *label {
                proof {
                    assert(self@.groups[i as int].label == label@);
                    lemma_group_at(self@, i as int);
                }
                return Some(i);
            }
            i = i + 1;
        }
        None
    }

    /// Takes the group labelled `label` out of the registry.
    fn remove_group(&mut self, label: &String)
        requires
            old(self).wf(),
        ensures
            final(self).wf(),
            final(self)@ == old(self)@.without(label@),
    {
        proof {
            lemma_without(self@, label@);
        }
        match self.find_group(label) {
            Some(i) => {
                self.groups.remove(i);
                assert(self@.groups =~= old(self)@.groups.remove(i as int));
            },
            None => {},
        }
    }

    /// Reconciles the group labelled `domain_label` with a fresh resolution.
    ///
    /// An empty resolution removes the group with its counter. Otherwise the
    /// configured list becomes the resolution; the active list loses what
    /// the resolution no longer names and gains nothing, and the counter is
    /// left as it is: kept if there is one, and not created if there is
    /// none. A label not seen before gets a group with nothing active.
    pub fn update_dynamic_backends(
        &mut self,
        domain_label: &str,
        resolved_addrs_with_proto_opt: Vec<(Endpoint, Option<Protocol>)>,
    )
        requires
            old(self).wf(),
        ensures
            final(self).wf(),
            final(self)@ == old(self)@.update_dynamic(
                domain_label@,
                resolved_addrs_with_proto_opt@,
            ),
            resolved_addrs_with_proto_opt@.len() == 0 ==> {
                &&& !final(self)@.configured().dom().contains(domain_label@)
                &&& !final(self)@.active().dom().contains(domain_label@)
                &&& !final(self)@.counts().dom().contains(domain_label@)
            },
            resolved_addrs_with_proto_opt@.len() > 0 ==> {
                &&& final(self)@.configured().dom().contains(domain_label@)
                &&& final(self)@.configured()[domain_label@] == materialize(
                    resolved_addrs_with_proto_opt@,
                )
                &&& final(self)@.counts().dom().contains(domain_label@)
                    == old(self)@.counts().dom().contains(domain_label@)
                &&& old(self)@.counts().dom().contains(domain_label@)
                    ==> final(self)@.counts()[domain_label@] == old(self)@.counts()[domain_label@]
                &&& final(self)@.active().dom().contains(domain_label@) ==> endpoints(
                    final(self)@.active()[domain_label@],
                ).subset_of(endpoints(materialize(resolved_addrs_with_proto_opt@)))
            },
    {
        let label = domain_label.to_owned();
        let backends = materialize_backends(&resolved_addrs_with_proto_opt);
        proof {
            lemma_update_dynamic(self@, label@, resolved_addrs_with_proto_opt@);
        }
        if backends.len() == 0 {
            self.remove_group(&label);
            return ;
        }
        match self.find_group(&label) {
            Some(i) => {
                let kept = retain_configured(&self.groups[i].active, &backends);
                self.groups[i].configured = backends;
                self.groups[i].active = kept;
                assert(self@.groups =~= old(self)@.update_dynamic(
                    domain_label@,
                    resolved_addrs_with_proto_opt@,
                ).groups);
            },
            None => {
                self.groups.push(
                    Group { label, configured: backends, active: Vec::new(), count: None },
                );
                assert(self@.groups =~= old(self)@.update_dynamic(
                    domain_label@,
                    resolved_addrs_with_proto_opt@,
                ).groups);
            },
        }
    }

    /// Registers one static group.
    fn add_group(&mut self, label: &String, entries: &Vec<(Endpoint, Option<Protocol>)>)
        requires
            old(self).wf(),
        ensures
            final(self).wf(),
            final(self)@ == old(self)@.add_group(label@, entries@),
    {
        let backends = materialize_backends(entries);
        proof {
            lemma_add_group_wf(self@, label@, entries@);
        }
        if backends.len() == 0 {
            self.remove_group(label);
            return ;
        }
        match self.find_group(label) {
            Some(i) => {
                let load = self.groups[i].load();
                self.groups[i].configured = backends.clone();
                self.groups[i].active = backends;
                self.groups[i].count = Some(load);
                assert(self@.groups =~= old(self)@.add_group(label@, entries@).groups);
            },
            None => {
                let active = backends.clone();
                self.groups.push(
                    Group { label: label.clone(), configured: backends, active, count: Some(0) },
                );
                assert(self@.groups =~= old(self)@.add_group(label@, entries@).groups);
            },
        }
    }

    /// Registers static groups, first to last.
    ///
    /// For each label the configured and the active list both become the
    /// backends given, an absent protocol hint standing for a stream
    /// backend; a label that has no counter yet gets one at zero, and a
    /// counter that is there stays. A label given with an empty list is
    /// removed with its counter.
    pub fn add_backends(
        &mut self,
        new_backend_groups: Vec<(String, Vec<(Endpoint, Option<Protocol>)>)>,
    )
        requires
            old(self).wf(),
        ensures
            final(self).wf(),
            final(self)@ == old(self)@.add_groups(batch_view(new_backend_groups@)),
    {
        let ghost batch = batch_view(new_backend_groups@);
        let mut i: usize = 0;
        while i < new_backend_groups.len()
            invariant
                i <= new_backend_groups.len(),
                batch == batch_view(new_backend_groups@),
                self.wf(),
                self@ == old(self)@.add_groups(batch.take(i as int)),
            decreases new_backend_groups.len() - i,
        {
            proof {
                assert(batch.take(i + 1).drop_last() =~= batch.take(i as int));
            }
            self.add_group(&new_backend_groups[i].0, &new_backend_groups[i].1);
            i = i + 1;
        }
        assert(batch.take(i as int) =~= batch);
    }

    /// Applies the outcome of one probe of `backend`, made for the group
    /// labelled `label`.
    ///
    /// A healthy backend joins the end of the group's active list if its
    /// endpoint is configured there and not yet active. An unhealthy one
    /// leaves the active list. A label that is no longer registered changes
    /// nothing.
    pub fn record_probe(&mut self, label: &str, backend: Backend, healthy: bool)
        requires
            old(self).wf(),
        ensures
            final(self).wf(),
            final(self)@ == old(self)@.record_probe(label@, backend, healthy),
    {
        let owned = label.to_owned();
        proof {
            lemma_record_probe_wf(self@, label@, backend, healthy);
        }
        match self.find_group(&owned) {
            Some(i) => {
                if healthy {
                    if list_has_endpoint(&self.groups[i].configured, backend.addr)
                        && !list_has_endpoint(&self.groups[i].active, backend.addr) {
                        self.groups[i].active.push(backend);
                    }
                } else {
                    let kept = remove_endpoint(&self.groups[i].active, backend.addr);
                    self.groups[i].active = kept;
                }
                assert(self@.groups =~= old(self)@.record_probe(label@, backend, healthy).groups);
            },
            None => {
                assert(self@.groups =~= old(self)@.record_probe(label@, backend, healthy).groups);
            },
        }
    }

    /// Applies the outcomes of a round of probes, first to last.
    pub fn perform_health_checks(&mut self, outcomes: &Vec<(String, Backend, bool)>)
        requires
            old(self).wf(),
        ensures
            final(self).wf(),
            final(self)@ == old(self)@.record_probes(outcomes_view(outcomes@)),
    {
        let ghost all = outcomes_view(outcomes@);
        let mut i: usize = 0;
        while i < outcomes.len()
            invariant
                i <= outcomes.len(),
                all == outcomes_view(outcomes@),
                self.wf(),
                self@ == old(self)@.record_probes(all.take(i as int)),
            decreases outcomes.len() - i,
        {
            proof {
                assert(all.take(i + 1).drop_last() =~= all.take(i as int));
            }
            self.record_probe(outcomes[i].0.as_str(), outcomes[i].1, outcomes[i].2);
            i = i + 1;
        }
        assert(all.take(i as int) =~= all);
    }

    /// Every active backend, groups in order and each group's list in order.
    fn flatten(&self) -> (flat: Vec<Backend>)
        ensures
            flat@ == self@.flat_active(),
    {
        let mut flat: Vec<Backend> = Vec::new();
        let mut i: usize = 0;
        while i < self.groups.len()
            invariant
                i <= self.groups.len(),
                flat@ == flatten_active(self@.groups.take(i as int)),
            decreases self.groups.len() - i,
        {
            let ghost before = flat@;
            let mut k: usize = 0;
            while k < self.groups[i as usize].active.len()
                invariant
                    i < self.groups.len(),
                    k <= self.groups[i as int].active.len(),
                    flat@ == before + self.groups[i as int].active@.take(k as int),
                decreases self.groups[i as int].active.len() - k,
            {
                flat.push(self.groups[i].active[k]);
                k = k + 1;
                assert(flat@ =~= before + self.groups[i as int].active@.take(k as int));
            }
            proof {
                let active = self.groups[i as int].active@;
                assert(active.take(k as int) =~= active);
                assert(self@.groups.take(i + 1).drop_last() =~= self@.groups.take(i as int));
            }
            i = i + 1;
        }
        assert(self@.groups.take(i as int) =~= self@.groups);
        flat
    }

    /// The first group with an active backend whose counter no other such
    /// group undercuts.
    fn find_least_loaded(&self) -> (best: Option<usize>)
        ensures
            match best {
                Some(i) => self@.is_least_loaded(i as int),
                None => !self@.has_active(),
            },
    {
        let mut best: Option<usize> = None;
        let mut i: usize = 0;
        while i < self.groups.len()
            invariant
                i <= self.groups.len(),
                match best {
                    Some(b) => {
                        &&& b < i
                        &&& self@.groups[b as int].active.len() > 0
                        &&& forall|j: int|
                            0 <= j < i && (#[trigger] self@.groups[j]).active.len() > 0 ==> {
                                &&& self@.groups[b as int].load() <= self@.groups[j].load()
                                &&& j < b ==> self@.groups[b as int].load() < self@.groups[j].load()
                            }
                    },
                    None => forall|j: int| 0 <= j < i ==> (#[trigger] self@.groups[j]).active.len() == 0,
                },
            decreases self.groups.len() - i,
        {
            if self.groups[i].active.len() > 0 {
                match best {
                    Some(b) => {
                        if self.groups[i].load() < self.groups[b].load() {
                            best = Some(i);
                        }
                    },
                    None => {
                        best = Some(i);
                    },
                }
            }
            i = i + 1;
        }
        best
    }

    /// Picks the backend for the next flow.
    ///
    /// Nothing is returned exactly when no backend is active. Round-robin
    /// returns the active backend at the cursor, taken modulo the number of
    /// active backends, and moves the cursor one past it, wrapping at the
    /// end. Least-connections returns the first active backend of the first
    /// group whose counter no other group with an active backend undercuts.
    pub fn next_backend(&mut self) -> (selected: Option<Backend>)
        requires
            old(self).wf(),
        ensures
            final(self).wf(),
            selected == old(self)@.selection(),
            final(self)@ == old(self)@.after_select(),
            selected is None <==> !old(self)@.has_active(),
            selected matches Some(backend) ==> old(self)@.is_active(backend),
            old(self)@.mode == LoadBalancerMode::LeastConnections && selected is Some ==> {
                let g = old(self)@.least_loaded();
                &&& 0 <= g < old(self)@.groups.len()
                &&& selected == Some(old(self)@.groups[g].active[0])
                &&& forall|j: int|
                    0 <= j < old(self)@.groups.len() && (#[trigger] old(self)@.groups[j]).active.len()
                        > 0 ==> old(self)@.groups[g].load() <= old(self)@.groups[j].load()
            },
    {
        proof {
            lemma_flatten_active(self@.groups);
            lemma_selection(self@);
        }
        match self.mode {
            LoadBalancerMode::RoundRobin => {
                let flat = self.flatten();
                if flat.len() == 0 {
                    return None;
                }
                let position = self.cursor % flat.len();
                self.cursor = (position + 1) % flat.len();
                Some(flat[position])
            },
            LoadBalancerMode::LeastConnections => {
                match self.find_least_loaded() {
                    Some(i) => {
                        proof {
                            lemma_least_loaded_unique(self@, i as int);
                        }
                        Some(self.groups[i].active[0])
                    },
                    None => None,
                }
            },
        }
    }

    /// The first group whose configured list names `addr`.
    fn find_owner(&self, addr: Endpoint) -> (found: Option<usize>)
        ensures
            match found {
                Some(i) => i < self.groups.len() && self@.has_owner(addr) && self@.owner(addr) == i,
                None => !self@.has_owner(addr),
            },
    {
        let mut i: usize = 0;
        while i < self.groups.len()
            invariant
                i <= self.groups.len(),
                forall|j: int|
                    0 <= j < i ==> !has_endpoint((#[trigger] self@.groups[j]).configured, addr),
            decreases self.groups.len() - i,
        {
            if list_has_endpoint(&self.groups[i].configured, addr) {
                proof {
                    lemma_owner_unique(self@, addr, i as int);
                }
                return Some(i);
            }
            i = i + 1;
        }
        proof {
            if self@.has_owner(addr) {
                let k = self@.owner(addr);
                assert(self@.is_owner(addr, k));
                assert(!has_endpoint(self@.groups[k].configured, addr));
            }
        }
        None
    }

    /// Counts one more request in flight to `backend_addr`.
    ///
    /// The counter that goes up is that of the first group whose configured
    /// list names the endpoint; a group without a counter gets one, at
    /// one. A counter stops at the largest value it can hold. An endpoint
    /// that no group names changes nothing.
    pub fn increment_connection(&mut self, backend_addr: Endpoint)
        requires
            old(self).wf(),
        ensures
            final(self).wf(),
            final(self)@ == old(self)@.increment(backend_addr),
    {
        proof {
            lemma_traffic_keeps_wf(self@, backend_addr);
        }
        match self.find_owner(backend_addr) {
            Some(i) => {
                let load = self.groups[i].load();
                self.groups[i].count = Some(
                    if load < usize::MAX {
                        load + 1
                    } else {
                        load
                    },
                );
                assert(self@.groups =~= old(self)@.increment(backend_addr).groups);
            },
            None => {},
        }
    }

    /// Counts one request to `backend_addr` as ended.
    ///
    /// The counter that goes down is that of the first group whose
    /// configured list names the endpoint. A counter of zero stays zero,
    /// and a group without a counter stays without. An endpoint that no
    /// group names changes nothing.
    pub fn decrement_connection(&mut self, backend_addr: Endpoint)
        requires
            old(self).wf(),
        ensures
            final(self).wf(),
            final(self)@ == old(self)@.decrement(backend_addr),
            old(self)@.has_owner(backend_addr) && old(self)@.groups[old(self)@.owner(
                backend_addr,
            )].load() == 0 ==> final(self)@ == old(self)@,
    {
        proof {
            lemma_traffic_keeps_wf(self@, backend_addr);
            if self@.has_owner(backend_addr) && self@.groups[self@.owner(backend_addr)].load() == 0 {
                lemma_decrement_at_zero(self@, backend_addr);
            }
        }
        match self.find_owner(backend_addr) {
            Some(i) => {
                match self.groups[i].count {
                    Some(count) => {
                        if count > 0 {
                            self.groups[i].count = Some(count - 1);
                        }
                    },
                    None => {},
                }
                assert(self@.groups =~= old(self)@.decrement(backend_addr).groups);
            },
            None => {},
        }
    }

    /// The selection policy.
    pub fn mode(&self) -> (mode: LoadBalancerMode)
        ensures
            mode == self@.mode,
    {
        self.mode
    }

    /// Whether nothing is configured under any label.
    pub fn is_empty(&self) -> (empty: bool)
        requires
            self.wf(),
        ensures
            empty == (self@.groups.len() == 0),
            empty == (self@.configured() == Map::<Seq<char>, Seq<Backend>>::empty()),
    {
        proof {
            if self@.groups.len() > 0 {
                lemma_group_at(self@, 0);
                assert(self@.configured().dom().contains(self@.groups[0].label));
            } else {
                assert(self@.configured() =~= Map::<Seq<char>, Seq<Backend>>::empty());
            }
        }
        self.groups.len() == 0
    }

    /// Whether any backend is active, under any label.
    pub fn has_active_backend(&self) -> (any: bool)
        ensures
            any == self@.has_active(),
    {
        let mut i: usize = 0;
        while i < self.groups.len()
            invariant
                i <= self.groups.len(),
                forall|j: int| 0 <= j < i ==> (#[trigger] self@.groups[j]).active.len() == 0,
            decreases self.groups.len() - i,
        {
            if self.groups[i].active.len() > 0 {
                assert(self@.groups[i as int].active.len() > 0);
                return true;
            }
            i = i + 1;
        }
        false
    }

    /// A copy of what is configured: each label with its backends, in the
    /// order the registry walks them.
    pub fn snapshot_configured(&self) -> (snapshot: Vec<(String, Vec<Backend>)>)
        ensures
            snapshot@.len() == self@.groups.len(),
            forall|i: int|
                0 <= i < snapshot@.len() ==> {
                    &&& (#[trigger] snapshot@[i]).0@ == self@.groups[i].label
                    &&& snapshot@[i].1@ == self@.groups[i].configured
                },
    {
        let mut snapshot: Vec<(String, Vec<Backend>)> = Vec::new();
        let mut i: usize = 0;
        while i < self.groups.len()
            invariant
                i <= self.groups.len(),
                snapshot@.len() == i,
                forall|j: int|
                    0 <= j < i ==> {
                        &&& (#[trigger] snapshot@[j]).0@ == self@.groups[j].label
                        &&& snapshot@[j].1@ == self@.groups[j].configured
                    },
            decreases self.groups.len() - i,
        {
            let label = self.groups[i].label.clone();
            let backends = self.groups[i].configured.clone();
            assert(backends@ =~= self.groups[i as int].configured@);
            snapshot.push((label, backends));
            i = i + 1;
        }
        snapshot
    }

    /// The backends configured under `label`, if the label is registered.
    pub fn configured_backends(&self, label: &str) -> (found: Option<Vec<Backend>>)
        requires
            self.wf(),
        ensures
            found is Some <==> self@.configured().dom().contains(label@),
            found matches Some(backends) ==> backends@ == self@.configured()[label@],
    {
        let owned = label.to_owned();
        match self.find_group(&owned) {
            Some(i) => {
                let backends = self.groups[i].configured.clone();
                assert(backends@ =~= self.groups[i as int].configured@);
                Some(backends)
            },
            None => None,
        }
    }

    /// The backends active under `label`, if there are any.
    pub fn active_backends(&self, label: &str) -> (found: Option<Vec<Backend>>)
        requires
            self.wf(),
        ensures
            found is Some <==> self@.active().dom().contains(label@),
            found matches Some(backends) ==> backends@ == self@.active()[label@],
    {
        let owned = label.to_owned();
        match self.find_group(&owned) {
            Some(i) => {
                if self.groups[i].active.len() == 0 {
                    return None;
                }
                let backends = self.groups[i].active.clone();
                assert(backends@ =~= self.groups[i as int].active@);
                Some(backends)
            },
            None => None,
        }
    }

    /// The requests in flight under `label`, once the label has a counter.
    pub fn connection_count(&self, label: &str) -> (found: Option<usize>)
        requires
            self.wf(),
        ensures
            found is Some <==> self@.counts().dom().contains(label@),
            found matches Some(count) ==> count == self@.counts()[label@],
    {
        let owned = label.to_owned();
        match self.find_group(&owned) {
            Some(i) => self.groups[i].count,
            None => None,
        }
    }
}

} // verus!
