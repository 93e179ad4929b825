//! The live registry of upstream groups. It outlives every configuration, so health survives a
//! reload: a group that is built anew takes over the instances that did not change.
//!
//! Instances are kept apart from the groups and go by identifiers that are never given out twice.
//! A holder of an identifier speaks of the same instance across reloads. An instance that a reload
//! drops from its group lives on for those who still hold the group, until it is retired. So do the
//! counters of a group that a reload drops or replaces.
use std::collections::HashMap;
use std::sync::Arc;
use vstd::prelude::*;

use crate::error::ControlError;
use crate::maglev::MaglevTable;
use crate::manifest::{AddressSpec, HealthConfig, LbAlgorithm, Upstream, DEFAULT_TABLE_SIZE};
use crate::shared::share;
use crate::upstream::group::{GroupCounters, HashKeySource, LbState, UpstreamGroup};
use crate::upstream::instance::UpstreamInstance;

verus! {

broadcast use vstd::std_specs::hash::group_hash_axioms;

/// The registry as plain values.
#[verifier::ext_equal]
pub struct RegistryView {
    /// The groups, in the order of the manifest.
    pub groups: Seq<crate::upstream::group::GroupView>,
    /// The counters by group: those of the groups, and those of groups that were dropped or
    /// replaced and are not yet retired.
    pub counters: Map<u64, GroupCounters>,
    /// The number of groups built so far.
    pub built: u64,
    /// The instances by identifier: those that the groups list, and those that were dropped and
    /// not yet retired.
    pub instances: Map<u64, crate::upstream::instance::InstanceView>,
    /// The number of instances made so far.
    pub issued: u64,
}

impl RegistryView {
    /// Whether some group lists the instance.
    pub open spec fn listed(self, id: u64) -> bool {
        exists|i: int, k: int|
            0 <= i < self.groups.len() && 0 <= k < self.groups[i].instances.len()
                && #[trigger] self.groups[i].instances[k] == id
    }

    /// No two groups share a name or an identifier, every group has its counters, every instance
    /// that a group lists is there, and all identifiers in use were given out.
    pub open spec fn wf(self) -> bool {
        &&& forall|i: int, j: int|
            0 <= i < j < self.groups.len() ==> (#[trigger] self.groups[i]).name != (
            #[trigger] self.groups[j]).name && self.groups[i].id != self.groups[j].id
        &&& forall|i: int|
            0 <= i < self.groups.len() ==> self.counters.contains_key((#[trigger] self.groups[i]).id)
        &&& forall|g: u64| #[trigger] self.counters.contains_key(g) ==> g < self.built
        &&& forall|id: u64| #[trigger] self.listed(id) ==> self.instances.contains_key(id)
        &&& forall|id: u64| #[trigger] self.instances.contains_key(id) ==> id < self.issued
    }
}

/// The group with a name.
pub open spec fn named(
    groups: Seq<crate::upstream::group::GroupView>,
    name: Seq<char>,
) -> Option<crate::upstream::group::GroupView>
    decreases groups.len(),
{
    if groups.len() == 0 {
        None
    } else if groups[0].name == name {
        Some(groups[0])
    } else {
        named(groups.skip(1), name)
    }
}

/// Whether one of the groups lists the instance.
pub open spec fn stands_in(rows: Seq<crate::upstream::group::GroupView>, id: u64) -> bool {
    exists|i: int, k: int|
        0 <= i < rows.len() && 0 <= k < rows[i].instances.len() && #[trigger] rows[i].instances[k]
            == id
}

/// Whether one of the groups has the identifier.
pub open spec fn is_among(rows: Seq<crate::upstream::group::GroupView>, g: u64) -> bool {
    exists|i: int| 0 <= i < rows.len() && (#[trigger] rows[i]).id == g
}

/// The groups of a list as plain values.
pub open spec fn groups_view(groups: Seq<Arc<UpstreamGroup>>) -> Seq<
    crate::upstream::group::GroupView,
> {
    groups.map_values(|g: Arc<UpstreamGroup>| g@)
}

/// The first of the listed instances that has an address and a weight.
pub open spec fn first_match(
    instances: Map<u64, crate::upstream::instance::InstanceView>,
    ids: Seq<u64>,
    wanted: (Seq<char>, u32),
) -> Option<u64>
    decreases ids.len(),
{
    if ids.len() == 0 {
        None
    } else if instances[ids[0]].address == wanted.0 && instances[ids[0]].weight == wanted.1 {
        Some(ids[0])
    } else {
        first_match(instances, ids.skip(1), wanted)
    }
}

/// The instance that an upstream's address takes over: one of the group of that name with the same
/// address and weight, as long as the health policy is unchanged.
pub open spec fn kept(
    before: RegistryView,
    up: crate::manifest::UpstreamView,
    wanted: (Seq<char>, u32),
) -> Option<u64> {
    match named(before.groups, up.name) {
        Some(group) => if group.health == up.health {
            first_match(before.instances, group.instances, wanted)
        } else {
            None
        },
        None => None,
    }
}

/// How the group of an upstream picks an instance.
pub open spec fn lb_of(up: crate::manifest::UpstreamView) -> crate::upstream::group::LbView {
    match up.lb_algorithm {
        LbAlgorithm::RoundRobin => crate::upstream::group::LbView::RoundRobin,
        LbAlgorithm::LeastRequest => crate::upstream::group::LbView::LeastRequest,
        LbAlgorithm::Maglev => crate::upstream::group::LbView::Maglev(
            crate::maglev::maglev(
                up.addresses,
                match up.hash {
                    Some(hash) => hash.table_size as nat,
                    None => DEFAULT_TABLE_SIZE as nat,
                },
            ),
        ),
    }
}

/// The counters of an upstream's group after a reload: the rotation counter is carried over from
/// the group before, and nothing is in flight yet.
pub open spec fn carried(
    before: RegistryView,
    up: crate::manifest::UpstreamView,
) -> GroupCounters {
    GroupCounters {
        rr: match named(before.groups, up.name) {
            Some(group) => before.counters[group.id].rr,
            None => 0,
        },
        in_flight: 0,
    }
}

/// The group of an upstream under an identifier, over the given instances.
pub open spec fn settled(
    up: crate::manifest::UpstreamView,
    id: u64,
    instances: Seq<u64>,
) -> crate::upstream::group::GroupView {
    crate::upstream::group::GroupView {
        id,
        name: up.name,
        health: up.health,
        instances,
        request_timeout_ms: up.request_timeout_ms,
        overall_timeout_ms: up.overall_timeout_ms,
        max_retries: up.max_retries,
        max_requests: up.circuit_breaker.max_requests as usize,
        outlier_consecutive: up.outlier_detection.consecutive_gateway_failures,
        outlier_base_ejection_ms: up.outlier_detection.base_ejection_time_ms,
        outlier_max_ejection_percent: up.outlier_detection.max_ejection_percent,
        lb: lb_of(up),
        hash_key: match up.hash {
            Some(hash) => Some(crate::upstream::group::HashKeyView::of(hash)),
            None => None,
        },
    }
}

/// The instance that stands at an upstream's address after a reload: the one taken over, as it
/// was, or a fresh one under an identifier that was never given out before.
pub open spec fn placed(
    before: RegistryView,
    after: RegistryView,
    up: crate::manifest::UpstreamView,
    k: int,
    id: u64,
) -> bool {
    match kept(before, up, up.addresses[k]) {
        Some(old) => id == old && after.instances[id] == before.instances[id],
        None => {
            &&& before.issued <= id < after.issued
            &&& after.instances[id] == crate::upstream::instance::InstanceView::fresh(
                up.addresses[k].0,
                up.addresses[k].1,
                up.health,
            )
        },
    }
}

/// The registry after it was reconciled with the upstreams of a manifest.
pub open spec fn reconciled(
    before: RegistryView,
    ups: Seq<crate::manifest::UpstreamView>,
    after: RegistryView,
) -> bool {
    &&& after.wf()
    &&& before.issued <= after.issued <= before.issued + address_count(ups, ups.len())
    &&& after.groups.len() == ups.len()
    &&& forall|i: int|
        0 <= i < ups.len() ==> #[trigger] after.groups[i] == settled(
            ups[i],
            (before.built + i) as u64,
            after.groups[i].instances,
        )
    &&& forall|i: int|
        0 <= i < ups.len() ==> (#[trigger] after.groups[i]).instances.len()
            == ups[i].addresses.len()
    &&& forall|i: int, k: int|
        0 <= i < ups.len() && 0 <= k < ups[i].addresses.len() ==> placed(
            before,
            after,
            ups[i],
            k,
            #[trigger] after.groups[i].instances[k],
        )
    // every group has counters of its own, and those of earlier groups stay as they are
    &&& after.built == before.built + ups.len()
    &&& forall|i: int|
        0 <= i < ups.len() ==> after.counters[(#[trigger] after.groups[i]).id] == carried(
            before,
            ups[i],
        )
    &&& forall|g: u64| #[trigger]
        before.counters.contains_key(g) ==> after.counters.contains_key(g) && after.counters[g]
            == before.counters[g]
    &&& forall|g: u64| #[trigger]
        after.counters.contains_key(g) ==> before.counters.contains_key(g) || before.built <= g
            < after.built
    // nothing is lost or changed, and what is new is listed
    &&& forall|id: u64| #[trigger]
        before.instances.contains_key(id) ==> after.instances.contains_key(id)
            && after.instances[id] == before.instances[id]
    &&& forall|id: u64| #[trigger]
        after.instances.contains_key(id) ==> before.instances.contains_key(id) || after.listed(id)
    // fresh instances are not shared
    &&& forall|i: int, k: int, j: int, l: int|
        0 <= i < ups.len() && 0 <= k < ups[i].addresses.len() && 0 <= j < ups.len() && 0 <= l
            < ups[j].addresses.len() && #[trigger] after.groups[i].instances[k]
            == #[trigger] after.groups[j].instances[l] && after.groups[i].instances[k]
            >= before.issued ==> i == j && k == l
}

/// Whether enough identifiers are left for the upstreams of a manifest.
pub open spec fn has_room(before: RegistryView, ups: Seq<crate::manifest::UpstreamView>) -> bool {
    &&& before.issued + address_count(ups, ups.len()) <= u64::MAX
    &&& before.built + ups.len() <= u64::MAX
}

/// The number of addresses of the first `n` upstreams.
pub open spec fn address_count(ups: Seq<crate::manifest::UpstreamView>, n: nat) -> int
    decreases n,
{
    if n == 0 {
        0
    } else {
        address_count(ups, (n - 1) as nat) + ups[n - 1].addresses.len()
    }
}

/// What is wrong with the upstream at `i`, if anything: it has no address, its name stands earlier
/// in the list, or its load-balancing configuration is refused, in this order.
pub open spec fn upstream_fault(
    ups: Seq<crate::manifest::UpstreamView>,
    i: int,
) -> Option<crate::error::ErrorView> {
    if ups[i].addresses.len() == 0 {
        Some(crate::error::ErrorView::EmptyUpstreamAddresses(ups[i].name))
    } else if exists|j: int| 0 <= j < i && (#[trigger] ups[j]).name == ups[i].name {
        Some(crate::error::ErrorView::DuplicateUpstream(ups[i].name))
    } else {
        match crate::manifest::lb_fault(ups[i]) {
            Some(reason) => Some(crate::error::ErrorView::InvalidUpstreamLb(ups[i].name, reason)),
            None => None,
        }
    }
}

/// Whether `fault` is that of the first upstream that has one.
pub open spec fn first_fault(
    ups: Seq<crate::manifest::UpstreamView>,
    fault: crate::error::ErrorView,
) -> bool {
    exists|i: int|
        {
            &&& 0 <= i < ups.len()
            &&& #[trigger] upstream_fault(ups, i) == Some(fault)
            &&& forall|j: int| 0 <= j < i ==> #[trigger] upstream_fault(ups, j) is None
        }
}

/// Whether no upstream has a fault.
pub open spec fn faultless(ups: Seq<crate::manifest::UpstreamView>) -> bool {
    forall|i: int| 0 <= i < ups.len() ==> #[trigger] upstream_fault(ups, i) is None
}

/// The upstreams of a manifest as plain values.
pub open spec fn upstreams_view(ups: Seq<Upstream>) -> Seq<crate::manifest::UpstreamView> {
    ups.map_values(|u: Upstream| u@)
}

/// Checks every upstream of a manifest, in order.
pub fn validate_upstreams(upstreams: &[Upstream]) -> (r: Result<(), ControlError>)
    ensures
        match r {
            Ok(()) => faultless(upstreams_view(upstreams@)),
            Err(e) => first_fault(upstreams_view(upstreams@), e@),
        },
{
    let ghost ups = upstreams_view(upstreams@);
    let mut i: usize = 0;
    while i < upstreams.len()
        invariant
            ups == upstreams_view(upstreams@),
            i <= upstreams@.len(),
            forall|j: int| 0 <= j < i ==> #[trigger] upstream_fault(ups, j) is None,
        decreases upstreams@.len() - i,
    {
        let up = &upstreams[i];
        assert(ups[i as int] == up@);
        if up.addresses.len() == 0 {
            assert(upstream_fault(ups, i as int) is Some);
            return Err(ControlError::EmptyUpstreamAddresses(up.name.clone()));
        }
        let mut j: usize = 0;
        while j < i
            invariant
                ups == upstreams_view(upstreams@),
                j <= i < upstreams@.len(),
                up == upstreams@[i as int],
                ups[i as int] == up@,
                up@.addresses.len() > 0,
                forall|h: int| 0 <= h < i ==> #[trigger] upstream_fault(ups, h) is None,
                forall|h: int| 0 <= h < j ==> (#[trigger] ups[h]).name != up@.name,
            decreases i - j,
        {
            assert(ups[j as int] == upstreams@[j as int]@);
            if upstreams[j].name == up.name {
                assert(upstream_fault(ups, i as int) is Some);
                return Err(ControlError::DuplicateUpstream(up.name.clone()));
            }
            j = j + 1;
        }
        match up.validate_lb() {
            Ok(()) => {},
            Err(reason) => {
                assert(upstream_fault(ups, i as int) is Some);
                return Err(ControlError::InvalidUpstreamLb { name: up.name.clone(), reason });
            },
        }
        i = i + 1;
    }
    Ok(())
}

/// Builds how the group of an upstream picks an instance. A hashing upstream gets its lookup table
/// from its addresses and weights.
fn make_lb(up: &Upstream) -> (r: LbState)
    requires
        crate::manifest::lb_fault(up@) is None,
    ensures
        r@ == lb_of(up@),
{
    match up.lb_algorithm {
        LbAlgorithm::RoundRobin => LbState::RoundRobin,
        LbAlgorithm::LeastRequest => LbState::LeastRequest,
        LbAlgorithm::Maglev => {
            let size: u32 = match &up.hash {
                Some(hash) => hash.table_size,
                None => DEFAULT_TABLE_SIZE,
            };
            let mut entries: Vec<(&str, u32)> = Vec::new();
            let mut k: usize = 0;
            while k < up.addresses.len()
                invariant
                    k <= up.addresses@.len(),
                    entries@.len() == k,
                    forall|h: int|
                        0 <= h < k ==> ((#[trigger] entries@[h]).0@, entries@[h].1)
                            == up@.addresses[h],
                decreases up.addresses@.len() - k,
            {
                assert(up@.addresses[k as int] == up.addresses@[k as int]@);
                entries.push((up.addresses[k].address(), up.addresses[k].weight()));
                k = k + 1;
            }
            proof {
                assert(crate::maglev::entries_view(entries@) =~= up@.addresses);
                let h = choose|h: int|
                    0 <= h < up@.addresses.len() && (#[trigger] up@.addresses[h]).1 != 0;
                crate::maglev::lemma_top_weight(up@.addresses, up@.addresses.len(), h);
            }
            LbState::Maglev(MaglevTable::build(&entries, size as usize))
        },
    }
}

/// The identifiers of the instances that some groups list.
fn listed_ids(groups: &Vec<Arc<UpstreamGroup>>) -> (r: Vec<u64>)
    ensures
        forall|id: u64| #[trigger] r@.contains(id) <==> stands_in(groups_view(groups@), id),
{
    let ghost rows = groups_view(groups@);
    let mut ids: Vec<u64> = Vec::new();
    let mut i: usize = 0;
    while i < groups.len()
        invariant
            rows == groups_view(groups@),
            i <= groups@.len(),
            forall|id: u64| #[trigger] ids@.contains(id) <==> stands_in(rows.take(i as int), id),
        decreases groups@.len() - i,
    {
        let ghost so_far = ids@;
        let mut k: usize = 0;
        assert(rows[i as int] == groups@[i as int]@);
        assert(ids@ =~= so_far + rows[i as int].instances.take(0));
        while k < groups[i].instances.len()
            invariant
                i < groups@.len(),
                rows[i as int].instances == groups@[i as int].instances@,
                k <= rows[i as int].instances.len(),
                ids@ == so_far + rows[i as int].instances.take(k as int),
            decreases rows[i as int].instances.len() - k,
        {
            ids.push(groups[i].instances[k]);
            k = k + 1;
            assert(ids@ =~= so_far + rows[i as int].instances.take(k as int));
        }
        proof {
            let row = rows[i as int].instances;
            assert(row.take(k as int) =~= row);
            assert forall|id: u64| #[trigger] ids@.contains(id) <==> stands_in(
                rows.take(i as int + 1),
                id,
            ) by {
                lemma_stands_in_next(rows, i as int, id);
                lemma_contains_in_sum(so_far, row, id);
            }
        }
        i = i + 1;
    }
    assert(rows.take(i as int) =~= rows);
    ids
}

/// The identifiers of some groups.
fn group_ids(groups: &Vec<Arc<UpstreamGroup>>) -> (r: Vec<u64>)
    ensures
        forall|g: u64| #[trigger] r@.contains(g) <==> is_among(groups_view(groups@), g),
{
    let ghost rows = groups_view(groups@);
    let mut ids: Vec<u64> = Vec::new();
    let mut i: usize = 0;
    while i < groups.len()
        invariant
            rows == groups_view(groups@),
            i <= groups@.len(),
            ids@.len() == i,
            forall|j: int| 0 <= j < i ==> #[trigger] ids@[j] == rows[j].id,
        decreases groups@.len() - i,
    {
        assert(rows[i as int] == groups@[i as int]@);
        ids.push(groups[i].id);
        i = i + 1;
    }
    assert forall|g: u64| #[trigger] ids@.contains(g) <==> is_among(rows, g) by {
        if ids@.contains(g) {
            assert(rows[ids@.index_of(g)].id == g);
        }
        if is_among(rows, g) {
            let j = choose|j: int| 0 <= j < rows.len() && (#[trigger] rows[j]).id == g;
            assert(ids@[j] == g);
        }
    }
    ids
}

/// Drops from a map what stands under none of the wanted keys.
fn keep_only<T>(map: &mut HashMap<u64, T>, wanted: &Vec<u64>)
    ensures
        forall|id: u64| #[trigger]
            final(map)@.contains_key(id) <==> old(map)@.contains_key(id) && wanted@.contains(id),
        forall|id: u64| #[trigger]
            final(map)@.contains_key(id) ==> final(map)@[id] == old(map)@[id],
{
    let ghost all = map@;
    let mut kept: HashMap<u64, T> = HashMap::new();
    let mut n: usize = 0;
    while n < wanted.len()
        invariant
            n <= wanted@.len(),
            forall|id: u64| #[trigger]
                kept@.contains_key(id) <==> all.contains_key(id) && wanted@.take(n as int).contains(
                    id,
                ),
            forall|id: u64| #[trigger]
                map@.contains_key(id) <==> all.contains_key(id) && !wanted@.take(
                    n as int,
                ).contains(id),
            forall|id: u64| kept@.contains_key(id) ==> #[trigger] kept@[id] == all[id],
            forall|id: u64| map@.contains_key(id) ==> #[trigger] map@[id] == all[id],
        decreases wanted@.len() - n,
    {
        let id: u64 = wanted[n];
        match map.remove(&id) {
            Some(value) => {
                kept.insert(id, value);
            },
            None => {},
        }
        proof {
            let short = wanted@.take(n as int);
            let long = wanted@.take(n as int + 1);
            assert(long =~= short + seq![id]);
            assert forall|other: u64| #[trigger] long.contains(other) <==> short.contains(other)
                || other == id by {
                lemma_contains_in_sum(short, seq![id], other);
                assert(seq![id][0] == id);
            }
        }
        n = n + 1;
    }
    assert(wanted@.take(n as int) =~= wanted@);
    *map = kept;
}

proof fn lemma_contains_in_sum(a: Seq<u64>, b: Seq<u64>, x: u64)
    ensures
        (a + b).contains(x) <==> a.contains(x) || b.contains(x),
{
    let sum = a + b;
    if a.contains(x) {
        assert(sum[a.index_of(x)] == x);
    }
    if b.contains(x) {
        assert(sum[a.len() + b.index_of(x)] == x);
    }
    if sum.contains(x) {
        let i = sum.index_of(x);
        if i < a.len() {
            assert(a[i] == x);
        } else {
            assert(b[i - a.len()] == x);
        }
    }
}

/// The live set of upstreams.
#[derive(Debug)]
pub struct UpstreamRegistry {
    groups: Vec<Arc<UpstreamGroup>>,
    counters: HashMap<u64, GroupCounters>,
    built: u64,
    instances: HashMap<u64, UpstreamInstance>,
    issued: u64,
}

impl View for UpstreamRegistry {
    type V = RegistryView;

    closed spec fn view(&self) -> RegistryView {
        RegistryView {
            groups: groups_view(self.groups@),
            counters: self.counters@,
            built: self.built,
            instances: self.instances@.map_values(|i: UpstreamInstance| i@),
            issued: self.issued,
        }
    }
}

impl Default for UpstreamRegistry {
    fn default() -> (r: Self)
        ensures
            r@.wf(),
            r@.groups == Seq::<crate::upstream::group::GroupView>::empty(),
            r@.counters == Map::<u64, GroupCounters>::empty(),
            r@.built == 0,
            r@.instances == Map::<u64, crate::upstream::instance::InstanceView>::empty(),
            r@.issued == 0,
    {
        UpstreamRegistry::new()
    }
}

impl UpstreamRegistry {
    /// An empty registry.
    pub fn new() -> (r: Self)
        ensures
            r@.wf(),
            r@.groups == Seq::<crate::upstream::group::GroupView>::empty(),
            r@.counters == Map::<u64, GroupCounters>::empty(),
            r@.built == 0,
            r@.instances == Map::<u64, crate::upstream::instance::InstanceView>::empty(),
            r@.issued == 0,
    {
        let r = UpstreamRegistry {
            groups: Vec::new(),
            counters: HashMap::new(),
            built: 0,
            instances: HashMap::new(),
            issued: 0,
        };
        assert(r@.groups =~= Seq::<crate::upstream::group::GroupView>::empty());
        assert(r@.instances =~= Map::<u64, crate::upstream::instance::InstanceView>::empty());
        r
    }

    /// The position of the group with a name.
    fn find(&self, name: &String) -> (r: Option<usize>)
        ensures
            match r {
                Some(i) => i < self@.groups.len() && self@.groups[i as int].name == name@ && named(
                    self@.groups,
                    name@,
                ) == Some(self@.groups[i as int]),
                None => named(self@.groups, name@) is None,
            },
    {
        let mut i: usize = 0;
        assert(self@.groups.skip(0) =~= self@.groups);
        while i < self.groups.len()
            invariant
                i <= self.groups@.len(),
                named(self@.groups, name@) == named(self@.groups.skip(i as int), name@),
            decreases self.groups@.len() - i,
        {
            assert(self@.groups[i as int] == self.groups@[i as int]@);
            assert(self@.groups.skip(i as int).skip(1) =~= self@.groups.skip(i + 1));
            if self.groups[i].name == *name {
                return Some(i);
            }
            i = i + 1;
        }
        None
    }

    /// Gives the instance for an address: the one that a group already has for it, or else a fresh
    /// one under the next identifier.
    fn enlist(&mut self, group: Option<usize>, spec: &AddressSpec, health: &HealthConfig) -> (id:
        u64)
        requires
            based(old(self)@),
            old(self)@.issued < u64::MAX,
            group matches Some(g) ==> g < old(self)@.groups.len(),
        ensures
            match (match group {
                Some(g) => first_match(
                    old(self)@.instances,
                    old(self)@.groups[g as int].instances,
                    spec@,
                ),
                None => None,
            }) {
                Some(present) => id == present && final(self)@ == old(self)@,
                None => id == old(self)@.issued && final(self)@ == (RegistryView {
                    instances: old(self)@.instances.insert(
                        id,
                        crate::upstream::instance::InstanceView::fresh(
                            spec@.0,
                            spec@.1,
                            health@,
                        ),
                    ),
                    issued: (old(self)@.issued + 1) as u64,
                    ..old(self)@
                }),
            },
    {
        let ghost before = self@;
        match group {
            Some(g) => {
                let ghost ids = before.groups[g as int].instances;
                assert(ids == self.groups@[g as int].instances@);
                assert(ids.skip(0) =~= ids);
                let mut p: usize = 0;
                while p < self.groups[g].instances.len()
                    invariant
                        self@ == before,
                        before == old(self)@,
                        group == Some(g),
                        based(before),
                        g < self.groups@.len(),
                        ids == self.groups@[g as int].instances@,
                        ids == before.groups[g as int].instances,
                        p <= ids.len(),
                        first_match(before.instances, ids, spec@) == first_match(
                            before.instances,
                            ids.skip(p as int),
                            spec@,
                        ),
                    decreases ids.len() - p,
                {
                    let id: u64 = self.groups[g].instances[p];
                    assert(before.groups[g as int].instances[p as int] == id);
                    assert(before.instances.contains_key(id));
                    assert(ids.skip(p as int).skip(1) =~= ids.skip(p + 1));
                    match self.instances.get(&id) {
                        Some(instance) => {
                            if instance.serves(spec.address_string(), spec.weight()) {
                                return id;
                            }
                        },
                        None => {},
                    }
                    p = p + 1;
                }
            },
            None => {},
        }
        let id: u64 = self.issued;
        let instance = UpstreamInstance::new(
            spec.address_string().clone(),
            spec.weight(),
            health,
        );
        let ghost fresh = instance@;
        self.instances.insert(id, instance);
        self.issued = id + 1;
        assert(self@.instances =~= before.instances.insert(id, fresh));
        id
    }

    /// Gives the instances for all addresses of an upstream.
    fn enlist_all(&mut self, up: &Upstream) -> (ids: Vec<u64>)
        requires
            based(old(self)@),
            old(self)@.issued + up@.addresses.len() <= u64::MAX,
        ensures
            grown(old(self)@, final(self)@),
            final(self)@.issued <= old(self)@.issued + up@.addresses.len(),
            ids@.len() == up@.addresses.len(),
            forall|k: int|
                0 <= k < ids@.len() ==> placed(
                    old(self)@,
                    final(self)@,
                    up@,
                    k,
                    #[trigger] ids@[k],
                ) && final(self)@.instances.contains_key(ids@[k]),
            forall|id: u64| #[trigger]
                final(self)@.instances.contains_key(id) ==> old(self)@.instances.contains_key(id)
                    || ids@.contains(id),
            forall|k: int, l: int|
                0 <= k < l < ids@.len() && ids@[k] >= old(self)@.issued ==> #[trigger] ids@[k]
                    != #[trigger] ids@[l],
    {
        let ghost before = self@;
        let group: Option<usize> = match self.find(&up.name) {
            Some(g) => {
                assert(before.groups[g as int] == self.groups@[g as int]@);
                if self.groups[g].health == up.health {
                    Some(g)
                } else {
                    None
                }
            },
            None => None,
        };
        let mut ids: Vec<u64> = Vec::new();
        let mut k: usize = 0;
        while k < up.addresses.len()
            invariant
                k <= up.addresses@.len(),
                up@.addresses.len() == up.addresses@.len(),
                based(before),
                grown(before, self@),
                before.issued + up@.addresses.len() <= u64::MAX,
                self@.issued <= before.issued + k,
                group matches Some(g) ==> g < before.groups.len() && named(
                    before.groups,
                    up@.name,
                ) == Some(before.groups[g as int]) && before.groups[g as int].health == up@.health,
                group is None ==> match named(before.groups, up@.name) {
                    Some(g) => g.health != up@.health,
                    None => true,
                },
                ids@.len() == k,
                forall|h: int|
                    0 <= h < k ==> placed(before, self@, up@, h, #[trigger] ids@[h])
                        && self@.instances.contains_key(ids@[h]),
                forall|h: int| 0 <= h < k ==> #[trigger] ids@[h] < self@.issued,
                forall|id: u64| #[trigger]
                    self@.instances.contains_key(id) ==> before.instances.contains_key(id)
                        || ids@.contains(id),
                forall|h: int, l: int|
                    0 <= h < l < k && ids@[h] >= before.issued ==> #[trigger] ids@[h]
                        != #[trigger] ids@[l],
            decreases up.addresses@.len() - k,
        {
            let ghost mid = self@;
            let ghost wanted = up@.addresses[k as int];
            assert(wanted == up.addresses@[k as int]@);
            proof {
                lemma_grown_is_based(before, mid);
                lemma_kept_is_stable(before, mid, up@, wanted);
            }
            let id: u64 = self.enlist(group, &up.addresses[k], &up.health);
            assert(kept(mid, up@, wanted) == match group {
                Some(g) => first_match(mid.instances, mid.groups[g as int].instances, wanted),
                None => None,
            });
            let ghost placed_before = ids@;
            ids.push(id);
            proof {
                assert(ids@.last() == id);
                assert forall|other: u64| #[trigger]
                    self@.instances.contains_key(other) implies before.instances.contains_key(other)
                    || ids@.contains(other) by {
                    if other == id {
                        assert(ids@[k as int] == id);
                    } else if placed_before.contains(other) {
                        let h = placed_before.index_of(other);
                        assert(ids@[h] == other);
                    } else {
                        assert(mid.instances.contains_key(other));
                    }
                }
            }
            k = k + 1;
        }
        ids
    }

    /// Whether enough identifiers are left for the upstreams of a manifest.
    fn leaves_room(&self, upstreams: &[Upstream]) -> (r: bool)
        ensures
            r == has_room(self@, upstreams_view(upstreams@)),
    {
        let ghost ups = upstreams_view(upstreams@);
        if upstreams.len() as u64 > u64::MAX - self.built {
            return false;
        }
        let mut left: u64 = u64::MAX - self.issued;
        let mut i: usize = 0;
        while i < upstreams.len()
            invariant
                ups == upstreams_view(upstreams@),
                i <= upstreams@.len(),
                left == u64::MAX - self@.issued - address_count(ups, i as nat),
            decreases upstreams@.len() - i,
        {
            assert(ups[i as int] == upstreams@[i as int]@);
            let addresses: u64 = upstreams[i].addresses.len() as u64;
            if addresses > left {
                proof {
                    lemma_address_count(ups, i as nat + 1, ups.len());
                }
                return false;
            }
            left = left - addresses;
            i = i + 1;
        }
        true
    }

    /// Reconciles the registry to the upstreams of a manifest. The whole list is checked first, so
    /// a bad manifest leaves the running set untouched. Then each upstream gets a new group, which
    /// takes over the instances whose address and weight are unchanged, as long as the health
    /// policy is; every other address gets a fresh instance that has to prove itself. The rotation
    /// counter is carried over. Upstreams that are no longer listed are dropped; their instances,
    /// and those that were replaced, live on until they are retired, and so do the counters of the
    /// groups before.
    pub fn reconcile(&mut self, upstreams: &[Upstream]) -> (r: Result<(), ControlError>)
        requires
            old(self)@.wf(),
        ensures
            match r {
                Ok(()) => {
                    &&& faultless(upstreams_view(upstreams@))
                    &&& has_room(old(self)@, upstreams_view(upstreams@))
                    &&& reconciled(old(self)@, upstreams_view(upstreams@), final(self)@)
                },
                Err(e) => {
                    &&& *final(self) == *old(self)
                    &&& first_fault(upstreams_view(upstreams@), e@) || (faultless(
                        upstreams_view(upstreams@),
                    ) && !has_room(old(self)@, upstreams_view(upstreams@)) && e@
                        == crate::error::ErrorView::IdentifiersExhausted)
                },
            },
    {
        match validate_upstreams(upstreams) {
            Ok(()) => {},
            Err(e) => {
                return Err(e);
            },
        }
        if !self.leaves_room(upstreams) {
            return Err(ControlError::IdentifiersExhausted);
        }
        let ghost before = self@;
        let ghost ups = upstreams_view(upstreams@);
        proof {
            lemma_wf_is_based(before);
        }
        let mut next: Vec<Arc<UpstreamGroup>> = Vec::new();
        let mut counters: Vec<GroupCounters> = Vec::new();
        let mut i: usize = 0;
        while i < upstreams.len()
            invariant
                ups == upstreams_view(upstreams@),
                faultless(ups),
                i <= upstreams@.len(),
                based(before),
                grown(before, self@),
                before.built == self.built,
                has_room(before, ups),
                self@.issued <= before.issued + address_count(ups, i as nat),
                next@.len() == i,
                counters@ == Seq::new(i as nat, |j: int| carried(before, ups[j])),
                arranged(before, self@, ups, groups_view(next@)),
            decreases upstreams@.len() - i,
        {
            let up = &upstreams[i];
            let ghost mid = self@;
            let ghost rows = groups_view(next@);
            proof {
                assert(ups[i as int] == up@);
                assert(upstream_fault(ups, i as int) is None);
                lemma_grown_is_based(before, mid);
                lemma_address_count(ups, i as nat + 1, ups.len());
            }
            let rr: usize = match self.find(&up.name) {
                Some(g) => {
                    assert(mid.groups[g as int] == self.groups@[g as int]@);
                    assert(self@.counters.contains_key(self@.groups[g as int].id));
                    match self.counters.get(&self.groups[g].id) {
                        Some(counters) => counters.rr,
                        None => 0,
                    }
                },
                None => 0,
            };
            let instances: Vec<u64> = self.enlist_all(up);
            let hash_key: Option<HashKeySource> = match &up.hash {
                Some(hash) => Some(HashKeySource::of(hash)),
                None => None,
            };
            let group = UpstreamGroup {
                id: self.built + i as u64,
                name: up.name.clone(),
                health: up.health.clone(),
                instances,
                request_timeout_ms: up.request_timeout_ms,
                overall_timeout_ms: up.overall_timeout_ms,
                max_retries: up.max_retries,
                max_requests: up.circuit_breaker.max_requests as usize,
                outlier_consecutive: up.outlier_detection.consecutive_gateway_failures,
                outlier_base_ejection_ms: up.outlier_detection.base_ejection_time_ms,
                outlier_max_ejection_percent: up.outlier_detection.max_ejection_percent,
                lb: make_lb(up),
                hash_key,
            };
            let ghost row = group@;
            next.push(Arc::new(group));
            let counted = GroupCounters { rr, in_flight: 0 };
            assert(counted == carried(before, up@));
            counters.push(counted);
            proof {
                assert(row == settled(up@, (before.built + i) as u64, instances@));
                lemma_arranged_next(before, mid, self@, ups, rows, row);
                assert(groups_view(next@) =~= rows.push(row));
                assert(counters@ =~= Seq::new(i as nat + 1, |j: int| carried(before, ups[j])));
            }
            i = i + 1;
        }
        let ghost rows = groups_view(next@);
        let ghost full = self@;
        let ghost next_groups = next@;
        let ghost held_instances = self.instances;
        self.groups = next;
        let mut j: usize = 0;
        while j < counters.len()
            invariant
                j <= counters@.len(),
                counters@.len() == ups.len(),
                has_room(before, ups),
                self.built == before.built,
                self.groups@ == next_groups,
                self.instances == held_instances,
                self.issued == full.issued,
                forall|g: u64| #[trigger] before.counters.contains_key(g) ==> g < before.built,
                forall|g: u64| #[trigger]
                    self.counters@.contains_key(g) <==> before.counters.contains_key(g)
                        || before.built <= g < before.built + j,
                forall|g: u64| #[trigger]
                    before.counters.contains_key(g) ==> self.counters@[g] == before.counters[g],
                forall|k: int|
                    0 <= k < j ==> self.counters@[(before.built + k) as u64] == #[trigger] counters@[k],
            decreases counters@.len() - j,
        {
            self.counters.insert(self.built + j as u64, counters[j]);
            j = j + 1;
        }
        self.built = self.built + counters.len() as u64;
        proof {
            assert(self@.groups =~= rows);
            assert(self@.instances == full.instances);
            assert forall|i: int| 0 <= i < ups.len() implies self@.counters[(
            #[trigger] self@.groups[i]).id] == carried(before, ups[i]) by {
                assert(self@.counters[(before.built + i) as u64] == counters@[i]);
            }
            lemma_reconciled(before, full, self@, ups);
        }
        Ok(())
    }

    /// The group with a name, for a route to resolve its upstream. Whoever has it keeps it across
    /// reloads.
    pub fn group(&self, name: &str) -> (r: Option<Arc<UpstreamGroup>>)
        ensures
            match r {
                Some(g) => named(self@.groups, name@) == Some(g@),
                None => named(self@.groups, name@) is None,
            },
    {
        match self.find(&name.to_owned()) {
            Some(i) => {
                assert(self@.groups[i as int] == self.groups@[i as int]@);
                Some(share(&self.groups[i]))
            },
            None => None,
        }
    }

    /// Every current group, for the health supervisor to probe.
    pub fn groups(&self) -> (r: Vec<Arc<UpstreamGroup>>)
        ensures
            self@.groups == groups_view(r@),
    {
        let mut out: Vec<Arc<UpstreamGroup>> = Vec::new();
        let mut i: usize = 0;
        while i < self.groups.len()
            invariant
                i <= self.groups@.len(),
                out@ == self.groups@.take(i as int),
            decreases self.groups@.len() - i,
        {
            out.push(share(&self.groups[i]));
            i = i + 1;
            assert(out@ =~= self.groups@.take(i as int));
        }
        assert(self.groups@.take(i as int) =~= self.groups@);
        out
    }

    /// What is counted of a group, until it is retired.
    pub fn counters(&self, group: u64) -> (r: Option<GroupCounters>)
        ensures
            match r {
                Some(counters) => self@.counters.contains_key(group) && self@.counters[group]
                    == counters,
                None => !self@.counters.contains_key(group),
            },
    {
        match self.counters.get(&group) {
            Some(counters) => Some(*counters),
            None => None,
        }
    }

    /// The instance with an identifier, until it is retired.
    pub fn instance(&self, id: u64) -> (r: Option<&UpstreamInstance>)
        ensures
            match r {
                Some(i) => self@.instances.contains_key(id) && self@.instances[id] == i@,
                None => !self@.instances.contains_key(id),
            },
    {
        self.instances.get(&id)
    }

    /// Retires what nobody has any more: the instances that are listed neither by a group nor by one
    /// that is held, and the counters of groups that are neither current nor held.
    pub fn retire(&mut self, held: &Vec<Arc<UpstreamGroup>>)
        requires
            old(self)@.wf(),
        ensures
            final(self)@.wf(),
            final(self)@.groups == old(self)@.groups,
            final(self)@.issued == old(self)@.issued,
            final(self)@.built == old(self)@.built,
            forall|id: u64| #[trigger]
                final(self)@.instances.contains_key(id) <==> old(self)@.instances.contains_key(id)
                    && (old(self)@.listed(id) || stands_in(groups_view(held@), id)),
            forall|id: u64| #[trigger]
                final(self)@.instances.contains_key(id) ==> final(self)@.instances[id]
                    == old(self)@.instances[id],
            forall|g: u64| #[trigger]
                final(self)@.counters.contains_key(g) <==> old(self)@.counters.contains_key(g) && (
                is_among(old(self)@.groups, g) || is_among(groups_view(held@), g)),
            forall|g: u64| #[trigger]
                final(self)@.counters.contains_key(g) ==> final(self)@.counters[g]
                    == old(self)@.counters[g],
    {
        let ghost before = self@;
        let mut instances: Vec<u64> = listed_ids(&self.groups);
        let ghost listed = instances@;
        let mut held_instances: Vec<u64> = listed_ids(held);
        let ghost more = held_instances@;
        instances.append(&mut held_instances);
        let mut groups: Vec<u64> = group_ids(&self.groups);
        let ghost current = groups@;
        let mut held_groups: Vec<u64> = group_ids(held);
        let ghost others = held_groups@;
        groups.append(&mut held_groups);
        keep_only(&mut self.instances, &instances);
        keep_only(&mut self.counters, &groups);
        proof {
            assert forall|id: u64| #[trigger] instances@.contains(id) <==> before.listed(id)
                || stands_in(groups_view(held@), id) by {
                lemma_contains_in_sum(listed, more, id);
                assert(listed.contains(id) <==> stands_in(before.groups, id));
                assert(more.contains(id) <==> stands_in(groups_view(held@), id));
                assert(before.listed(id) <==> stands_in(before.groups, id));
            }
            assert forall|g: u64| #[trigger] groups@.contains(g) <==> is_among(before.groups, g)
                || is_among(groups_view(held@), g) by {
                lemma_contains_in_sum(current, others, g);
                assert(current.contains(g) <==> is_among(before.groups, g));
                assert(others.contains(g) <==> is_among(groups_view(held@), g));
            }
            assert forall|id: u64| #[trigger] self@.listed(id) implies self@.instances.contains_key(
                id,
            ) by {
                assert(before.listed(id));
                assert(instances@.contains(id));
            }
            assert forall|i: int| 0 <= i < self@.groups.len() implies self@.counters.contains_key((
            #[trigger] self@.groups[i]).id) by {
                assert(before.counters.contains_key(before.groups[i].id));
                assert(is_among(before.groups, before.groups[i].id));
                assert(groups@.contains(before.groups[i].id));
            }
            assert forall|g: u64| #[trigger] self@.counters.contains_key(g) implies g
                < self@.built by {
                assert(before.counters.contains_key(g));
            }
            assert forall|id: u64| #[trigger] self@.instances.contains_key(id) implies id
                < self@.issued by {
                assert(before.instances.contains_key(id));
            }
        }
    }

    /// The number of instances made so far.
    pub fn issued(&self) -> (r: u64)
        ensures
            r == self@.issued,
    {
        self.issued
    }

    /// Takes note of a successful probe of an instance. Nothing happens where it is gone.
    pub fn record_probe_success(&mut self, id: u64)
        ensures
            final(self)@ == if old(self)@.instances.contains_key(id) {
                (RegistryView {
                    instances: old(self)@.instances.insert(
                        id,
                        old(self)@.instances[id].succeeded(),
                    ),
                    ..old(self)@
                })
            } else {
                old(self)@
            },
            old(self)@.wf() ==> final(self)@.wf(),
    {
        match self.instances.remove(&id) {
            Some(mut instance) => {
                instance.record_probe_success();
                self.instances.insert(id, instance);
            },
            None => {},
        }
        assert(self@.instances =~= if old(self)@.instances.contains_key(id) {
            old(self)@.instances.insert(id, old(self)@.instances[id].succeeded())
        } else {
            old(self)@.instances
        });
        proof {
            lemma_same_lists(old(self)@, self@);
        }
    }

    /// Takes note of a failed probe of an instance. Nothing happens where it is gone.
    pub fn record_probe_failure(&mut self, id: u64)
        ensures
            final(self)@ == if old(self)@.instances.contains_key(id) {
                (RegistryView {
                    instances: old(self)@.instances.insert(id, old(self)@.instances[id].failed()),
                    ..old(self)@
                })
            } else {
                old(self)@
            },
            old(self)@.wf() ==> final(self)@.wf(),
    {
        match self.instances.remove(&id) {
            Some(mut instance) => {
                instance.record_probe_failure();
                self.instances.insert(id, instance);
            },
            None => {},
        }
        assert(self@.instances =~= if old(self)@.instances.contains_key(id) {
            old(self)@.instances.insert(id, old(self)@.instances[id].failed())
        } else {
            old(self)@.instances
        });
        proof {
            lemma_same_lists(old(self)@, self@);
        }
    }

    /// Advances the rotation counter of a group and returns where it stood. A group that is held goes
    /// on with a counter of its own, whatever reloads have come since.
    pub fn take_turn(&mut self, group: u64) -> (r: Option<usize>)
        ensures
            match r {
                Some(rr) => {
                    &&& old(self)@.counters.contains_key(group)
                    &&& rr == old(self)@.counters[group].rr
                    &&& final(self)@ == (RegistryView {
                        counters: old(self)@.counters.insert(
                            group,
                            GroupCounters {
                                rr: rr.wrapping_add(1),
                                ..old(self)@.counters[group]
                            },
                        ),
                        ..old(self)@
                    })
                },
                None => !old(self)@.counters.contains_key(group) && final(self)@ == old(self)@,
            },
            old(self)@.wf() ==> final(self)@.wf(),
    {
        let ghost before = self@;
        match self.counters.remove(&group) {
            Some(counters) => {
                self.counters.insert(
                    group,
                    GroupCounters { rr: counters.rr.wrapping_add(1), ..counters },
                );
                proof {
                    assert(self@.counters =~= before.counters.insert(
                        group,
                        GroupCounters { rr: counters.rr.wrapping_add(1), ..counters },
                    ));
                    lemma_same_lists(before, self@);
                }
                Some(counters.rr)
            },
            None => {
                assert(self@.counters =~= before.counters);
                None
            },
        }
    }
}

/// A group is found by its name exactly if some group has it.
proof fn lemma_named(groups: Seq<crate::upstream::group::GroupView>, name: Seq<char>)
    ensures
        named(groups, name) is None <==> forall|i: int|
            0 <= i < groups.len() ==> (#[trigger] groups[i]).name != name,
        named(groups, name) matches Some(g) ==> g.name == name && exists|i: int|
            0 <= i < groups.len() && #[trigger] groups[i] == g,
    decreases groups.len(),
{
    if groups.len() > 0 && groups[0].name != name {
        let rest = groups.skip(1);
        lemma_named(rest, name);
        assert(forall|i: int| 0 <= i < rest.len() ==> #[trigger] rest[i] == groups[i + 1]);
        assert(forall|i: int| 1 <= i < groups.len() ==> #[trigger] groups[i] == rest[i - 1]);
        if named(rest, name) is Some {
            let i = choose|i: int| 0 <= i < rest.len() && #[trigger] rest[i] == named(rest, name)->0;
            assert(groups[i + 1] == named(groups, name)->0);
        }
        if named(rest, name) is None {
            assert forall|i: int| 0 <= i < groups.len() implies (#[trigger] groups[i]).name
                != name by {
                if i > 0 {
                    assert(rest[i - 1].name != name);
                }
            }
        }
    }
}

/// Registries that list the same instances under the same names are well formed together.
proof fn lemma_same_lists(a: RegistryView, b: RegistryView)
    requires
        a.groups.len() == b.groups.len(),
        a.counters.dom() == b.counters.dom(),
        a.built == b.built,
        forall|i: int|
            0 <= i < a.groups.len() ==> (#[trigger] a.groups[i]).name == b.groups[i].name
                && a.groups[i].id == b.groups[i].id && a.groups[i].instances
                == b.groups[i].instances,
        a.instances.dom() == b.instances.dom(),
        a.issued == b.issued,
    ensures
        a.wf() ==> b.wf(),
{
    if a.wf() {
        assert forall|id: u64| #[trigger] b.listed(id) implies b.instances.contains_key(id) by {
            let (i, k) = choose|i: int, k: int|
                0 <= i < b.groups.len() && 0 <= k < b.groups[i].instances.len()
                    && #[trigger] b.groups[i].instances[k] == id;
            assert(a.groups[i].instances[k] == id);
            assert(a.listed(id));
        }
        assert forall|id: u64| #[trigger] b.instances.contains_key(id) implies id < b.issued by {
            assert(a.instances.contains_key(id));
        }
        assert forall|i: int, j: int| 0 <= i < j < b.groups.len() implies (
        #[trigger] b.groups[i]).name != (#[trigger] b.groups[j]).name && b.groups[i].id
            != b.groups[j].id by {
            assert(a.groups[i].name != a.groups[j].name);
        }
        assert forall|i: int| 0 <= i < b.groups.len() implies b.counters.contains_key((
        #[trigger] b.groups[i]).id) by {
            assert(a.counters.contains_key(a.groups[i].id));
        }
        assert forall|g: u64| #[trigger] b.counters.contains_key(g) implies g < b.built by {
            assert(a.counters.contains_key(g));
        }
    }
}

/// Every listed instance is there, and the identifiers of all instances were given out.
spec fn based(r: RegistryView) -> bool {
    &&& forall|i: int|
        0 <= i < r.groups.len() ==> r.counters.contains_key((#[trigger] r.groups[i]).id)
    &&& forall|i: int, k: int|
        0 <= i < r.groups.len() && 0 <= k < r.groups[i].instances.len()
            ==> r.instances.contains_key(#[trigger] r.groups[i].instances[k])
    &&& forall|id: u64| #[trigger] r.instances.contains_key(id) ==> id < r.issued
}

/// `s` is `r` with instances added under new identifiers.
spec fn grown(r: RegistryView, s: RegistryView) -> bool {
    &&& s.groups == r.groups
    &&& s.counters == r.counters
    &&& s.built == r.built
    &&& r.issued <= s.issued
    &&& forall|id: u64|
        #![trigger s.instances.contains_key(id)]
        #![trigger s.instances[id]]
        id < r.issued ==> s.instances.contains_key(id) == r.instances.contains_key(id)
            && s.instances[id] == r.instances[id]
    &&& forall|id: u64| #[trigger] s.instances.contains_key(id) ==> id < s.issued
}

proof fn lemma_grown_is_based(r: RegistryView, s: RegistryView)
    requires
        based(r),
        grown(r, s),
    ensures
        based(s),
{
    assert forall|i: int, k: int|
        0 <= i < s.groups.len() && 0 <= k < s.groups[i].instances.len() implies s.instances.contains_key(
    #[trigger] s.groups[i].instances[k]) by {
        let id = r.groups[i].instances[k];
        assert(r.instances.contains_key(id));
    }
}

/// What an address takes over does not depend on instances added since.
proof fn lemma_kept_is_stable(
    r: RegistryView,
    s: RegistryView,
    up: crate::manifest::UpstreamView,
    wanted: (Seq<char>, u32),
)
    requires
        based(r),
        grown(r, s),
    ensures
        kept(r, up, wanted) == kept(s, up, wanted),
        kept(r, up, wanted) matches Some(id) ==> id < r.issued && r.instances.contains_key(id),
{
    lemma_named(r.groups, up.name);
    if named(r.groups, up.name) is Some {
        let group = named(r.groups, up.name)->0;
        let i = choose|i: int| 0 <= i < r.groups.len() && #[trigger] r.groups[i] == group;
        assert forall|k: int| 0 <= k < group.instances.len() implies r.instances.contains_key(
            #[trigger] group.instances[k],
        ) by {
            assert(r.groups[i].instances[k] == group.instances[k]);
        }
        lemma_first_match_is_stable(r, s, group.instances, wanted);
    }
}

proof fn lemma_first_match_is_stable(
    r: RegistryView,
    s: RegistryView,
    ids: Seq<u64>,
    wanted: (Seq<char>, u32),
)
    requires
        based(r),
        grown(r, s),
        forall|k: int| 0 <= k < ids.len() ==> r.instances.contains_key(#[trigger] ids[k]),
    ensures
        first_match(r.instances, ids, wanted) == first_match(s.instances, ids, wanted),
        first_match(r.instances, ids, wanted) matches Some(id) ==> id < r.issued
            && r.instances.contains_key(id),
    decreases ids.len(),
{
    if ids.len() > 0 {
        assert(r.instances.contains_key(ids[0]));
        assert(s.instances[ids[0]] == r.instances[ids[0]]);
        let rest = ids.skip(1);
        assert forall|k: int| 0 <= k < rest.len() implies r.instances.contains_key(
            #[trigger] rest[k],
        ) by {
            assert(rest[k] == ids[k + 1]);
        }
        lemma_first_match_is_stable(r, s, rest, wanted);
    }
}

proof fn lemma_stands_in_next(
    rows: Seq<crate::upstream::group::GroupView>,
    i: int,
    id: u64,
)
    requires
        0 <= i < rows.len(),
    ensures
        stands_in(rows.take(i + 1), id) == (stands_in(rows.take(i), id)
            || rows[i].instances.contains(id)),
{
    let short = rows.take(i);
    let long = rows.take(i + 1);
    if stands_in(short, id) {
        let (j, k) = choose|j: int, k: int|
            0 <= j < short.len() && 0 <= k < short[j].instances.len()
                && #[trigger] short[j].instances[k] == id;
        assert(long[j].instances[k] == id);
    }
    if rows[i].instances.contains(id) {
        assert(long[i].instances[rows[i].instances.index_of(id)] == id);
    }
    if stands_in(long, id) {
        let (j, k) = choose|j: int, k: int|
            0 <= j < long.len() && 0 <= k < long[j].instances.len()
                && #[trigger] long[j].instances[k] == id;
        if j < i {
            assert(short[j].instances[k] == id);
        } else {
            assert(rows[i].instances[k] == id);
        }
    }
}

proof fn lemma_wf_is_based(r: RegistryView)
    requires
        r.wf(),
    ensures
        based(r),
        grown(r, r),
{
    assert forall|i: int, k: int|
        0 <= i < r.groups.len() && 0 <= k < r.groups[i].instances.len() implies r.instances.contains_key(
    #[trigger] r.groups[i].instances[k]) by {
        assert(r.listed(r.groups[i].instances[k]));
    }
}

proof fn lemma_address_count(ups: Seq<crate::manifest::UpstreamView>, m: nat, n: nat)
    requires
        m <= n,
    ensures
        address_count(ups, m) <= address_count(ups, n),
    decreases n,
{
    if m < n {
        lemma_address_count(ups, m, (n - 1) as nat);
    }
}

/// The groups built so far are those of the first upstreams, over instances in `s`.
spec fn arranged(
    before: RegistryView,
    s: RegistryView,
    ups: Seq<crate::manifest::UpstreamView>,
    rows: Seq<crate::upstream::group::GroupView>,
) -> bool {
    &&& rows.len() <= ups.len()
    &&& forall|i: int|
        0 <= i < rows.len() ==> #[trigger] rows[i] == settled(
            ups[i],
            (before.built + i) as u64,
            rows[i].instances,
        )
    &&& forall|i: int|
        0 <= i < rows.len() ==> (#[trigger] rows[i]).instances.len() == ups[i].addresses.len()
    &&& forall|i: int, k: int|
        0 <= i < rows.len() && 0 <= k < ups[i].addresses.len() ==> placed(
            before,
            s,
            ups[i],
            k,
            #[trigger] rows[i].instances[k],
        ) && s.instances.contains_key(rows[i].instances[k])
    &&& forall|id: u64| #[trigger]
        s.instances.contains_key(id) ==> before.instances.contains_key(id) || stands_in(rows, id)
    &&& forall|i: int, k: int, j: int, l: int|
        0 <= i < rows.len() && 0 <= k < ups[i].addresses.len() && 0 <= j < rows.len() && 0 <= l
            < ups[j].addresses.len() && #[trigger] rows[i].instances[k]
            == #[trigger] rows[j].instances[l] && rows[i].instances[k] >= before.issued ==> i == j
            && k == l
}

proof fn lemma_arranged_next(
    before: RegistryView,
    mid: RegistryView,
    after: RegistryView,
    ups: Seq<crate::manifest::UpstreamView>,
    rows: Seq<crate::upstream::group::GroupView>,
    row: crate::upstream::group::GroupView,
)
    requires
        based(before),
        based(mid),
        grown(before, mid),
        grown(mid, after),
        rows.len() < ups.len(),
        arranged(before, mid, ups, rows),
        row == settled(
            ups[rows.len() as int],
            (before.built + rows.len()) as u64,
            row.instances,
        ),
        row.instances.len() == ups[rows.len() as int].addresses.len(),
        forall|k: int|
            0 <= k < row.instances.len() ==> placed(
                mid,
                after,
                ups[rows.len() as int],
                k,
                #[trigger] row.instances[k],
            ) && after.instances.contains_key(row.instances[k]),
        forall|id: u64| #[trigger]
            after.instances.contains_key(id) ==> mid.instances.contains_key(id)
                || row.instances.contains(id),
        forall|k: int, l: int|
            0 <= k < l < row.instances.len() && row.instances[k] >= mid.issued
                ==> #[trigger] row.instances[k] != #[trigger] row.instances[l],
    ensures
        grown(before, after),
        arranged(before, after, ups, rows.push(row)),
{
    let n = rows.len() as int;
    let all = rows.push(row);
    assert forall|id: u64| id < before.issued implies #[trigger] after.instances.contains_key(id)
        == before.instances.contains_key(id) && after.instances[id] == before.instances[id] by {
        assert(mid.instances.contains_key(id) == before.instances.contains_key(id));
    }
    assert forall|k: int| 0 <= k < row.instances.len() implies (row.instances[k] < before.issued
        || row.instances[k] >= mid.issued) && placed(
        before,
        after,
        ups[n],
        k,
        #[trigger] row.instances[k],
    ) by {
        lemma_kept_is_stable(before, mid, ups[n], ups[n].addresses[k]);
        assert(placed(mid, after, ups[n], k, row.instances[k]));
    }
    assert forall|i: int, k: int|
        0 <= i < all.len() && 0 <= k < ups[i].addresses.len() implies placed(
        before,
        after,
        ups[i],
        k,
        #[trigger] all[i].instances[k],
    ) && after.instances.contains_key(all[i].instances[k]) by {
        if i < n {
            let id = rows[i].instances[k];
            assert(placed(before, mid, ups[i], k, id));
            assert(mid.instances.contains_key(id));
            assert(id < mid.issued);
            assert(after.instances[id] == mid.instances[id]);
        } else {
            assert(all[i] == row);
            assert(placed(before, after, ups[n], k, row.instances[k]));
        }
    }
    assert forall|id: u64| #[trigger]
        after.instances.contains_key(id) implies before.instances.contains_key(id) || stands_in(
        all,
        id,
    ) by {
        if row.instances.contains(id) {
            let k = row.instances.index_of(id);
            assert(all[n].instances[k] == id);
        } else if stands_in(rows, id) {
            let (i, k) = choose|i: int, k: int|
                0 <= i < rows.len() && 0 <= k < rows[i].instances.len()
                    && #[trigger] rows[i].instances[k] == id;
            assert(all[i].instances[k] == id);
        } else {
            assert(mid.instances.contains_key(id));
        }
    }
    assert forall|i: int, k: int, j: int, l: int|
        0 <= i < all.len() && 0 <= k < ups[i].addresses.len() && 0 <= j < all.len() && 0 <= l
            < ups[j].addresses.len() && #[trigger] all[i].instances[k]
            == #[trigger] all[j].instances[l] && all[i].instances[k]
            >= before.issued implies i == j && k == l by {
        let id = all[i].instances[k];
        if i < n && j < n {
            assert(rows[i].instances[k] == rows[j].instances[l]);
        } else if i < n {
            assert(mid.instances.contains_key(rows[i].instances[k]));
            assert(placed(before, after, ups[n], l, row.instances[l]));
        } else if j < n {
            assert(mid.instances.contains_key(rows[j].instances[l]));
            assert(placed(before, after, ups[n], k, row.instances[k]));
        } else {
            assert(placed(before, after, ups[n], k, row.instances[k]));
            assert(row.instances[k] >= mid.issued);
        }
    }
}

proof fn lemma_reconciled(
    before: RegistryView,
    full: RegistryView,
    after: RegistryView,
    ups: Seq<crate::manifest::UpstreamView>,
)
    requires
        faultless(ups),
        grown(before, full),
        full.issued <= before.issued + address_count(ups, ups.len()),
        arranged(before, full, ups, after.groups),
        after.groups.len() == ups.len(),
        after.issued == full.issued,
        after.instances == full.instances,
        has_room(before, ups),
        after.built == before.built + ups.len(),
        forall|i: int|
            0 <= i < ups.len() ==> after.counters[(#[trigger] after.groups[i]).id] == carried(
                before,
                ups[i],
            ),
        forall|g: u64| #[trigger]
            after.counters.contains_key(g) <==> before.counters.contains_key(g) || before.built <= g
                < after.built,
        forall|g: u64| #[trigger]
            before.counters.contains_key(g) ==> g < before.built && after.counters[g]
                == before.counters[g],
        forall|id: u64| #[trigger] before.instances.contains_key(id) ==> id < before.issued,
    ensures
        reconciled(before, ups, after),
{
    assert forall|i: int, k: int|
        0 <= i < ups.len() && 0 <= k < ups[i].addresses.len() implies placed(
        before,
        after,
        ups[i],
        k,
        #[trigger] after.groups[i].instances[k],
    ) && after.instances.contains_key(after.groups[i].instances[k]) by {
        let id = after.groups[i].instances[k];
        assert(placed(before, full, ups[i], k, id));
    }
    assert forall|id: u64| #[trigger] after.listed(id) implies after.instances.contains_key(id) by {
        let (i, k) = choose|i: int, k: int|
            0 <= i < after.groups.len() && 0 <= k < after.groups[i].instances.len()
                && #[trigger] after.groups[i].instances[k] == id;
        assert(full.instances.contains_key(after.groups[i].instances[k]));
    }
    assert forall|id: u64| #[trigger] after.instances.contains_key(id) implies
        before.instances.contains_key(id) || after.listed(id) by {
        if stands_in(after.groups, id) {
            let (i, k) = choose|i: int, k: int|
                0 <= i < after.groups.len() && 0 <= k < after.groups[i].instances.len()
                    && #[trigger] after.groups[i].instances[k] == id;
            assert(after.groups[i].instances[k] == id);
        }
    }
    assert forall|i: int, j: int| 0 <= i < j < after.groups.len() implies (
    #[trigger] after.groups[i]).name != (#[trigger] after.groups[j]).name && after.groups[i].id
        != after.groups[j].id by {
        assert(upstream_fault(ups, j) is None);
        assert(ups[i].name != ups[j].name);
    }
    assert forall|i: int| 0 <= i < after.groups.len() implies after.counters.contains_key((
    #[trigger] after.groups[i]).id) by {
        assert(after.groups[i].id == before.built + i);
    }
}

/// Health survives a reload: where the name and the health policy of an upstream are unchanged, an
/// address that the group already served with the same weight goes on with an instance of that
/// group that has this address and weight, in the state it was in.
pub proof fn lemma_unchanged_address_keeps_its_instance(
    before: RegistryView,
    ups: Seq<crate::manifest::UpstreamView>,
    after: RegistryView,
    g: int,
    p: int,
    i: int,
    k: int,
)
    requires
        before.wf(),
        reconciled(before, ups, after),
        0 <= g < before.groups.len(),
        0 <= p < before.groups[g].instances.len(),
        0 <= i < ups.len(),
        0 <= k < ups[i].addresses.len(),
        before.groups[g].name == ups[i].name,
        before.groups[g].health == ups[i].health,
        before.instances[before.groups[g].instances[p]].address == ups[i].addresses[k].0,
        before.instances[before.groups[g].instances[p]].weight == ups[i].addresses[k].1,
    ensures
        ({
            let id = after.groups[i].instances[k];
            &&& before.groups[g].instances.contains(id)
            &&& before.instances[id].address == ups[i].addresses[k].0
            &&& before.instances[id].weight == ups[i].addresses[k].1
            &&& after.instances[id] == before.instances[id]
        }),
{
    lemma_named_at(before.groups, g);
    lemma_first_match(before.instances, before.groups[g].instances, ups[i].addresses[k]);
    assert(placed(before, after, ups[i], k, after.groups[i].instances[k]));
}

/// The instance that goes on is the first one of the group that served the address with the same
/// weight.
pub proof fn lemma_unchanged_address_keeps_its_identity(
    before: RegistryView,
    ups: Seq<crate::manifest::UpstreamView>,
    after: RegistryView,
    g: int,
    p: int,
    i: int,
    k: int,
)
    requires
        before.wf(),
        reconciled(before, ups, after),
        0 <= g < before.groups.len(),
        0 <= p < before.groups[g].instances.len(),
        0 <= i < ups.len(),
        0 <= k < ups[i].addresses.len(),
        before.groups[g].name == ups[i].name,
        before.groups[g].health == ups[i].health,
        before.instances[before.groups[g].instances[p]].address == ups[i].addresses[k].0,
        before.instances[before.groups[g].instances[p]].weight == ups[i].addresses[k].1,
        forall|q: int|
            0 <= q < p ==> (
            before.instances[#[trigger] before.groups[g].instances[q]]).address
                != ups[i].addresses[k].0 || before.instances[before.groups[g].instances[q]].weight
                != ups[i].addresses[k].1,
    ensures
        after.groups[i].instances[k] == before.groups[g].instances[p],
        after.instances[after.groups[i].instances[k]]
            == before.instances[before.groups[g].instances[p]],
{
    lemma_named_at(before.groups, g);
    lemma_first_match_at(before.instances, before.groups[g].instances, ups[i].addresses[k], p);
    assert(placed(before, after, ups[i], k, after.groups[i].instances[k]));
}

/// A changed health policy probes an upstream anew: all of its instances are fresh, and none may
/// serve before a probe succeeds.
pub proof fn lemma_changed_policy_starts_over(
    before: RegistryView,
    ups: Seq<crate::manifest::UpstreamView>,
    after: RegistryView,
    i: int,
    k: int,
)
    requires
        before.wf(),
        reconciled(before, ups, after),
        0 <= i < ups.len(),
        0 <= k < ups[i].addresses.len(),
        named(before.groups, ups[i].name) matches Some(g) ==> g.health != ups[i].health,
    ensures
        !before.instances.contains_key(after.groups[i].instances[k]),
        after.instances[after.groups[i].instances[k]].state
            == crate::upstream::instance::ProbeState::pessimistic(),
        !after.instances[after.groups[i].instances[k]].state.healthy,
{
    assert(placed(before, after, ups[i], k, after.groups[i].instances[k]));
}

/// A new address, or a changed weight, gets a fresh instance that may not serve before a probe
/// succeeds.
pub proof fn lemma_new_address_starts_pessimistic(
    before: RegistryView,
    ups: Seq<crate::manifest::UpstreamView>,
    after: RegistryView,
    g: int,
    i: int,
    k: int,
)
    requires
        before.wf(),
        reconciled(before, ups, after),
        0 <= g < before.groups.len(),
        0 <= i < ups.len(),
        0 <= k < ups[i].addresses.len(),
        before.groups[g].name == ups[i].name,
        forall|q: int|
            0 <= q < before.groups[g].instances.len() ==> (
            before.instances[#[trigger] before.groups[g].instances[q]]).address
                != ups[i].addresses[k].0 || before.instances[before.groups[g].instances[q]].weight
                != ups[i].addresses[k].1,
    ensures
        !before.instances.contains_key(after.groups[i].instances[k]),
        after.instances[after.groups[i].instances[k]].state
            == crate::upstream::instance::ProbeState::pessimistic(),
        !after.instances[after.groups[i].instances[k]].state.healthy,
{
    lemma_named_at(before.groups, g);
    lemma_first_match(before.instances, before.groups[g].instances, ups[i].addresses[k]);
    assert(placed(before, after, ups[i], k, after.groups[i].instances[k]));
}

/// The rotation counter is carried across a reload, whatever else changed, and starts at zero for a
/// new upstream. Nothing is in flight in a group that was just built.
pub proof fn lemma_rotation_continues(
    before: RegistryView,
    ups: Seq<crate::manifest::UpstreamView>,
    after: RegistryView,
    i: int,
)
    requires
        before.wf(),
        reconciled(before, ups, after),
        0 <= i < ups.len(),
    ensures
        forall|g: int|
            0 <= g < before.groups.len() && (#[trigger] before.groups[g]).name == ups[i].name
                ==> after.counters[after.groups[i].id].rr == before.counters[before.groups[g].id].rr,
        named(before.groups, ups[i].name) is None ==> after.counters[after.groups[i].id].rr == 0,
        after.counters[after.groups[i].id].in_flight == 0,
{
    assert(after.counters[after.groups[i].id] == carried(before, ups[i]));
    assert forall|g: int| 0 <= g < before.groups.len() && (#[trigger] before.groups[g]).name
        == ups[i].name implies after.counters[after.groups[i].id].rr
        == before.counters[before.groups[g].id].rr by {
        lemma_named_at(before.groups, g);
    }
}

/// A group that is held keeps counters of its own: a reload leaves them as they are and gives them
/// to no group that it builds.
pub proof fn lemma_held_group_keeps_its_counters(
    before: RegistryView,
    ups: Seq<crate::manifest::UpstreamView>,
    after: RegistryView,
    g: u64,
)
    requires
        before.wf(),
        reconciled(before, ups, after),
        before.counters.contains_key(g),
    ensures
        after.counters.contains_key(g),
        after.counters[g] == before.counters[g],
        !is_among(after.groups, g),
{
    if is_among(after.groups, g) {
        let i = choose|i: int| 0 <= i < after.groups.len() && (#[trigger] after.groups[i]).id == g;
        assert(after.groups[i] == settled(
            ups[i],
            (before.built + i) as u64,
            after.groups[i].instances,
        ));
    }
}

/// Every current group is listed once, under a name of its own by which it is found, and there are
/// as many groups as the manifest has upstreams.
pub proof fn lemma_groups_are_listed_once(
    before: RegistryView,
    ups: Seq<crate::manifest::UpstreamView>,
    after: RegistryView,
    i: int,
    j: int,
)
    requires
        reconciled(before, ups, after),
        0 <= i < after.groups.len(),
        0 <= j < after.groups.len(),
    ensures
        after.groups.len() == ups.len(),
        after.groups[i].name == ups[i].name,
        named(after.groups, after.groups[i].name) == Some(after.groups[i]),
        after.groups[i].name == after.groups[j].name ==> i == j,
{
    lemma_named_at(after.groups, i);
    assert(after.groups[i] == settled(
        ups[i],
        (before.built + i) as u64,
        after.groups[i].instances,
    ));
    if i < j {
        assert(after.groups[i].name != after.groups[j].name);
    } else if j < i {
        assert(after.groups[j].name != after.groups[i].name);
    }
}

/// After a reload exactly the upstreams of the manifest have a group.
pub proof fn lemma_groups_follow_the_manifest(
    before: RegistryView,
    ups: Seq<crate::manifest::UpstreamView>,
    after: RegistryView,
    name: Seq<char>,
)
    requires
        reconciled(before, ups, after),
    ensures
        named(after.groups, name) is Some <==> exists|i: int|
            0 <= i < ups.len() && (#[trigger] ups[i]).name == name,
{
    lemma_named(after.groups, name);
    if named(after.groups, name) is Some {
        let i = choose|i: int| 0 <= i < after.groups.len() && (#[trigger] after.groups[i]).name
            == name;
        assert(after.groups[i] == settled(
        ups[i],
        (before.built + i) as u64,
        after.groups[i].instances,
    ));
        assert(ups[i].name == name);
    }
    if exists|i: int| 0 <= i < ups.len() && (#[trigger] ups[i]).name == name {
        let i = choose|i: int| 0 <= i < ups.len() && (#[trigger] ups[i]).name == name;
        assert(after.groups[i] == settled(
        ups[i],
        (before.built + i) as u64,
        after.groups[i].instances,
    ));
        assert(after.groups[i].name == name);
    }
}

/// A group that a reload drops or replaces lives on for those who hold it: all of its instances are
/// still there, in the state they were in.
pub proof fn lemma_dropped_instance_lives_on(
    before: RegistryView,
    ups: Seq<crate::manifest::UpstreamView>,
    after: RegistryView,
    g: int,
    k: int,
)
    requires
        before.wf(),
        reconciled(before, ups, after),
        0 <= g < before.groups.len(),
        0 <= k < before.groups[g].instances.len(),
    ensures
        after.instances.contains_key(before.groups[g].instances[k]),
        after.instances[before.groups[g].instances[k]]
            == before.instances[before.groups[g].instances[k]],
{
    assert(before.listed(before.groups[g].instances[k]));
}

/// An instance that is gone never comes back: a reload gives its identifier to no other.
pub proof fn lemma_gone_stays_gone(
    before: RegistryView,
    ups: Seq<crate::manifest::UpstreamView>,
    after: RegistryView,
    id: u64,
)
    requires
        before.wf(),
        reconciled(before, ups, after),
        id < before.issued,
        !before.instances.contains_key(id),
    ensures
        !after.instances.contains_key(id),
{
    if after.instances.contains_key(id) {
        assert(after.listed(id));
        let (i, k) = choose|i: int, k: int|
            0 <= i < after.groups.len() && 0 <= k < after.groups[i].instances.len()
                && #[trigger] after.groups[i].instances[k] == id;
        assert(placed(before, after, ups[i], k, after.groups[i].instances[k]));
        lemma_wf_is_based(before);
        lemma_kept_is_stable(before, before, ups[i], ups[i].addresses[k]);
    }
}

/// Reloading the same manifest changes nothing, as long as no upstream lists one address with one
/// weight twice: each group is built anew with the settings, the instances and the rotation counter
/// that it had, and the instances stay as they are.
pub proof fn lemma_reload_is_idempotent(
    before: RegistryView,
    ups: Seq<crate::manifest::UpstreamView>,
    once: RegistryView,
    twice: RegistryView,
)
    requires
        before.wf(),
        reconciled(before, ups, once),
        reconciled(once, ups, twice),
        forall|i: int, k: int, l: int|
            0 <= i < ups.len() && 0 <= k < l < ups[i].addresses.len()
                ==> #[trigger] ups[i].addresses[k] != #[trigger] ups[i].addresses[l],
    ensures
        twice.groups.len() == once.groups.len(),
        forall|i: int|
            0 <= i < once.groups.len() ==> #[trigger] twice.groups[i] == (
            crate::upstream::group::GroupView { id: twice.groups[i].id, ..once.groups[i] }),
        forall|i: int|
            0 <= i < once.groups.len() ==> twice.counters[(#[trigger] twice.groups[i]).id]
                == once.counters[once.groups[i].id],
        twice.instances == once.instances,
{
    lemma_wf_is_based(before);
    assert forall|i: int, k: int| 0 <= i < ups.len() && 0 <= k < ups[i].addresses.len() implies (
    once.instances[#[trigger] once.groups[i].instances[k]]).address == ups[i].addresses[k].0
        && once.instances[once.groups[i].instances[k]].weight == ups[i].addresses[k].1 by {
        lemma_placed_matches(before, once, ups[i], k, once.groups[i].instances[k]);
    }
    assert forall|i: int| 0 <= i < ups.len() implies #[trigger] twice.groups[i] == (
    crate::upstream::group::GroupView { id: twice.groups[i].id, ..once.groups[i] }) by {
        assert(once.groups[i] == settled(
            ups[i],
            (before.built + i) as u64,
            once.groups[i].instances,
        ));
        assert(twice.groups[i] == settled(
            ups[i],
            (once.built + i) as u64,
            twice.groups[i].instances,
        ));
        assert(once.groups[i].name == ups[i].name);
        lemma_named_at(once.groups, i);
        assert forall|k: int| 0 <= k < ups[i].addresses.len() implies #[trigger] twice.groups[i].instances[k]
            == once.groups[i].instances[k] by {
            assert(once.instances[once.groups[i].instances[k]].address == ups[i].addresses[k].0);
            assert forall|q: int| 0 <= q < k implies (
            once.instances[#[trigger] once.groups[i].instances[q]]).address
                != ups[i].addresses[k].0 || once.instances[once.groups[i].instances[q]].weight
                != ups[i].addresses[k].1 by {
                assert(ups[i].addresses[q] != ups[i].addresses[k]);
            }
            lemma_unchanged_address_keeps_its_identity(once, ups, twice, i, k, i, k);
        }
        assert(twice.groups[i].instances =~= once.groups[i].instances);
    }
    assert forall|i: int| 0 <= i < ups.len() implies twice.counters[(
    #[trigger] twice.groups[i]).id] == once.counters[once.groups[i].id] by {
        assert(once.groups[i] == settled(
            ups[i],
            (before.built + i) as u64,
            once.groups[i].instances,
        ));
        assert(once.counters[once.groups[i].id] == carried(before, ups[i]));
        lemma_rotation_continues(once, ups, twice, i);
        assert(once.groups[i].name == ups[i].name);
    }
    assert forall|id: u64| #[trigger] twice.instances.contains_key(id)
        == once.instances.contains_key(id) && (once.instances.contains_key(id)
        ==> twice.instances[id] == once.instances[id]) by {
        if twice.listed(id) {
            let (i, k) = choose|i: int, k: int|
                0 <= i < twice.groups.len() && 0 <= k < twice.groups[i].instances.len()
                    && #[trigger] twice.groups[i].instances[k] == id;
            assert(twice.groups[i].instances == once.groups[i].instances);
            assert(once.groups[i].instances[k] == id);
            assert(once.listed(id));
        }
    }
    assert(twice.instances =~= once.instances);
}

/// A group is found by its own name where no two groups share one.
proof fn lemma_named_at(groups: Seq<crate::upstream::group::GroupView>, g: int)
    requires
        0 <= g < groups.len(),
        forall|i: int, j: int|
            0 <= i < j < groups.len() ==> (#[trigger] groups[i]).name != (
            #[trigger] groups[j]).name,
    ensures
        named(groups, groups[g].name) == Some(groups[g]),
{
    lemma_named(groups, groups[g].name);
    let found = named(groups, groups[g].name)->0;
    let i = choose|i: int| 0 <= i < groups.len() && #[trigger] groups[i] == found;
    if i < g {
        assert(groups[i].name != groups[g].name);
    } else if g < i {
        assert(groups[g].name != groups[i].name);
    }
}

proof fn lemma_first_match_at(
    instances: Map<u64, crate::upstream::instance::InstanceView>,
    ids: Seq<u64>,
    wanted: (Seq<char>, u32),
    p: int,
)
    requires
        0 <= p < ids.len(),
        instances[ids[p]].address == wanted.0,
        instances[ids[p]].weight == wanted.1,
        forall|q: int|
            0 <= q < p ==> (instances[#[trigger] ids[q]]).address != wanted.0
                || instances[ids[q]].weight != wanted.1,
    ensures
        first_match(instances, ids, wanted) == Some(ids[p]),
    decreases p,
{
    if p > 0 {
        let rest = ids.skip(1);
        assert(instances[ids[0]].address != wanted.0 || instances[ids[0]].weight != wanted.1);
        assert forall|q: int| 0 <= q < p - 1 implies (instances[#[trigger] rest[q]]).address
            != wanted.0 || instances[rest[q]].weight != wanted.1 by {
            assert(rest[q] == ids[q + 1]);
        }
        lemma_first_match_at(instances, rest, wanted, p - 1);
    }
}

proof fn lemma_first_match(
    instances: Map<u64, crate::upstream::instance::InstanceView>,
    ids: Seq<u64>,
    wanted: (Seq<char>, u32),
)
    ensures
        match first_match(instances, ids, wanted) {
            Some(id) => ids.contains(id) && instances[id].address == wanted.0
                && instances[id].weight == wanted.1,
            None => forall|q: int|
                0 <= q < ids.len() ==> (instances[#[trigger] ids[q]]).address != wanted.0
                    || instances[ids[q]].weight != wanted.1,
        },
    decreases ids.len(),
{
    if ids.len() > 0 {
        let rest = ids.skip(1);
        lemma_first_match(instances, rest, wanted);
        assert forall|q: int| 1 <= q < ids.len() implies #[trigger] ids[q] == rest[q - 1] by {}
        if first_match(instances, rest, wanted) is Some {
            let id = first_match(instances, rest, wanted)->0;
            let q = choose|q: int| 0 <= q < rest.len() && rest[q] == id;
            assert(ids[q + 1] == id);
        }
        assert(ids.contains(ids[0]));
    }
}

proof fn lemma_placed_matches(
    before: RegistryView,
    after: RegistryView,
    up: crate::manifest::UpstreamView,
    k: int,
    id: u64,
)
    requires
        based(before),
        placed(before, after, up, k, id),
        0 <= k < up.addresses.len(),
    ensures
        after.instances[id].address == up.addresses[k].0,
        after.instances[id].weight == up.addresses[k].1,
{
    if kept(before, up, up.addresses[k]) is Some {
        let group = named(before.groups, up.name)->0;
        lemma_first_match(before.instances, group.instances, up.addresses[k]);
    }
}

/// Each group gets the settings that the operator declared for its upstream, each in its place, and
/// the load balancing and the hash key that were declared.
pub proof fn lemma_settings_are_as_declared(
    before: RegistryView,
    ups: Seq<crate::manifest::UpstreamView>,
    after: RegistryView,
    i: int,
)
    requires
        reconciled(before, ups, after),
        0 <= i < ups.len(),
    ensures
        after.groups[i].id == before.built + i,
        after.groups[i].name == ups[i].name,
        after.groups[i].health == ups[i].health,
        after.groups[i].request_timeout_ms == ups[i].request_timeout_ms,
        after.groups[i].overall_timeout_ms == ups[i].overall_timeout_ms,
        after.groups[i].max_retries == ups[i].max_retries,
        after.groups[i].max_requests == ups[i].circuit_breaker.max_requests,
        after.groups[i].outlier_consecutive
            == ups[i].outlier_detection.consecutive_gateway_failures,
        after.groups[i].outlier_base_ejection_ms
            == ups[i].outlier_detection.base_ejection_time_ms,
        after.groups[i].outlier_max_ejection_percent
            == ups[i].outlier_detection.max_ejection_percent,
        ups[i].lb_algorithm == LbAlgorithm::RoundRobin <==> after.groups[i].lb
            == crate::upstream::group::LbView::RoundRobin,
        ups[i].lb_algorithm == LbAlgorithm::LeastRequest <==> after.groups[i].lb
            == crate::upstream::group::LbView::LeastRequest,
        ups[i].lb_algorithm == LbAlgorithm::Maglev && ups[i].hash is Some ==> after.groups[i].lb
            == crate::upstream::group::LbView::Maglev(
            crate::maglev::maglev(ups[i].addresses, ups[i].hash->0.table_size as nat),
        ),
        ups[i].hash is None ==> after.groups[i].hash_key is None,
        ups[i].hash matches Some(hash) ==> after.groups[i].hash_key == Some(
            crate::upstream::group::HashKeyView::of(hash),
        ),
{
    assert(after.groups[i] == settled(
        ups[i],
        (before.built + i) as u64,
        after.groups[i].instances,
    ));
}

/// Each group has one instance per address of its upstream, in the order of the manifest, with that
/// address and that weight.
pub proof fn lemma_instances_are_as_declared(
    before: RegistryView,
    ups: Seq<crate::manifest::UpstreamView>,
    after: RegistryView,
    i: int,
    k: int,
)
    requires
        before.wf(),
        reconciled(before, ups, after),
        0 <= i < ups.len(),
        0 <= k < ups[i].addresses.len(),
    ensures
        after.groups[i].instances.len() == ups[i].addresses.len(),
        after.instances.contains_key(after.groups[i].instances[k]),
        after.instances[after.groups[i].instances[k]].address == ups[i].addresses[k].0,
        after.instances[after.groups[i].instances[k]].weight == ups[i].addresses[k].1,
{
    lemma_wf_is_based(before);
    assert(after.groups[i].instances.len() == ups[i].addresses.len());
    assert(after.listed(after.groups[i].instances[k]));
    lemma_placed_matches(before, after, ups[i], k, after.groups[i].instances[k]);
}

/// An instance that is not taken over is a new one: it has the thresholds of the declared health
/// policy and no probe has counted for it yet.
pub proof fn lemma_new_instance_has_the_declared_thresholds(
    before: RegistryView,
    ups: Seq<crate::manifest::UpstreamView>,
    after: RegistryView,
    i: int,
    k: int,
)
    requires
        before.wf(),
        reconciled(before, ups, after),
        0 <= i < ups.len(),
        0 <= k < ups[i].addresses.len(),
        !before.instances.contains_key(after.groups[i].instances[k]),
    ensures
        ({
            let fresh = after.instances[after.groups[i].instances[k]];
            &&& fresh.healthy_threshold == ups[i].health.healthy_threshold
            &&& fresh.unhealthy_threshold == ups[i].health.unhealthy_threshold
            &&& !fresh.state.healthy
            &&& !fresh.state.proven
            &&& fresh.state.successes == 0
            &&& fresh.state.failures == 0
        }),
{
    lemma_wf_is_based(before);
    lemma_kept_is_stable(before, before, ups[i], ups[i].addresses[k]);
    assert(placed(before, after, ups[i], k, after.groups[i].instances[k]));
}

/// A manifest is accepted exactly if every upstream has an address, no two share a name, and the
/// load balancing of each is accepted.
pub proof fn lemma_which_manifests_are_accepted(ups: Seq<crate::manifest::UpstreamView>)
    ensures
        faultless(ups) <==> {
            &&& forall|i: int| 0 <= i < ups.len() ==> (#[trigger] ups[i]).addresses.len() > 0
            &&& forall|i: int, j: int|
                0 <= i < j < ups.len() ==> (#[trigger] ups[i]).name != (#[trigger] ups[j]).name
            &&& forall|i: int|
                0 <= i < ups.len() ==> crate::manifest::lb_fault(#[trigger] ups[i]) is None
        },
{
    if faultless(ups) {
        assert forall|i: int| 0 <= i < ups.len() implies (#[trigger] ups[i]).addresses.len() > 0
            && crate::manifest::lb_fault(ups[i]) is None by {
            assert(upstream_fault(ups, i) is None);
        }
        assert forall|i: int, j: int| 0 <= i < j < ups.len() implies (#[trigger] ups[i]).name != (
        #[trigger] ups[j]).name by {
            assert(upstream_fault(ups, j) is None);
        }
    }
    if (forall|i: int| 0 <= i < ups.len() ==> (#[trigger] ups[i]).addresses.len() > 0) && (forall|
        i: int,
        j: int,
    |
        0 <= i < j < ups.len() ==> (#[trigger] ups[i]).name != (#[trigger] ups[j]).name) && (forall|
        i: int,
    |
        0 <= i < ups.len() ==> crate::manifest::lb_fault(#[trigger] ups[i]) is None) {
        assert forall|i: int| 0 <= i < ups.len() implies #[trigger] upstream_fault(
            ups,
            i,
        ) is None by {
            assert(ups[i].addresses.len() > 0);
        }
    }
}

/// What a refusal says is true: it names the first upstream that has a fault, and the fault that it
/// has. A missing address goes before a name that was used, and that before a load balancing that is
/// refused.
pub proof fn lemma_refusals_are_true(
    ups: Seq<crate::manifest::UpstreamView>,
    fault: crate::error::ErrorView,
) -> (i: int)
    requires
        first_fault(ups, fault),
    ensures
        0 <= i < ups.len(),
        forall|j: int|
            0 <= j < i ==> (#[trigger] ups[j]).addresses.len() > 0 && crate::manifest::lb_fault(
                ups[j],
            ) is None,
        forall|h: int, j: int|
            0 <= h < j < i ==> (#[trigger] ups[h]).name != (#[trigger] ups[j]).name,
        fault is EmptyUpstreamAddresses <==> ups[i].addresses.len() == 0,
        fault matches crate::error::ErrorView::EmptyUpstreamAddresses(name) ==> name == ups[i].name,
        fault is DuplicateUpstream <==> ups[i].addresses.len() > 0 && exists|j: int|
            0 <= j < i && (#[trigger] ups[j]).name == ups[i].name,
        fault matches crate::error::ErrorView::DuplicateUpstream(name) ==> name == ups[i].name,
        fault is InvalidUpstreamLb ==> crate::manifest::lb_fault(ups[i]) is Some,
        fault matches crate::error::ErrorView::InvalidUpstreamLb(name, reason) ==> name
            == ups[i].name && crate::manifest::lb_fault(ups[i]) == Some(reason),
        fault is EmptyUpstreamAddresses || fault is DuplicateUpstream || fault is InvalidUpstreamLb,
{
    let i = choose|i: int|
        {
            &&& 0 <= i < ups.len()
            &&& #[trigger] upstream_fault(ups, i) == Some(fault)
            &&& forall|j: int| 0 <= j < i ==> #[trigger] upstream_fault(ups, j) is None
        };
    assert(upstream_fault(ups, i) == Some(fault));
    assert forall|j: int| 0 <= j < i implies (#[trigger] ups[j]).addresses.len() > 0
        && crate::manifest::lb_fault(ups[j]) is None by {
        assert(upstream_fault(ups, j) is None);
    }
    assert forall|h: int, j: int| 0 <= h < j < i implies (#[trigger] ups[h]).name != (
    #[trigger] ups[j]).name by {
        assert(upstream_fault(ups, j) is None);
    }
    i
}

/// There is room for a manifest as long as neither the instances made nor the groups built, with one
/// for each address and one for each upstream, exceed what 64 bits can number. One upstream more
/// asks for as many identifiers as it has addresses.
pub proof fn lemma_what_room_means(
    before: RegistryView,
    ups: Seq<crate::manifest::UpstreamView>,
    up: crate::manifest::UpstreamView,
)
    ensures
        address_count(Seq::empty(), 0) == 0,
        address_count(ups.push(up), ups.len() + 1) == address_count(ups, ups.len())
            + up.addresses.len(),
        has_room(before, Seq::empty()),
        has_room(before, ups.push(up)) <==> before.issued + address_count(ups, ups.len())
            + up.addresses.len() <= u64::MAX && before.built + ups.len() + 1 <= u64::MAX,
{
    lemma_address_count_of_prefix(ups, up, ups.len());
    assert(ups.push(up)[ups.len() as int] == up);
}

proof fn lemma_address_count_of_prefix(
    ups: Seq<crate::manifest::UpstreamView>,
    up: crate::manifest::UpstreamView,
    n: nat,
)
    requires
        n <= ups.len(),
    ensures
        address_count(ups.push(up), n) == address_count(ups, n),
    decreases n,
{
    if n > 0 {
        lemma_address_count_of_prefix(ups, up, (n - 1) as nat);
        assert(ups.push(up)[n - 1] == ups[n - 1]);
    }
}

/// A group is found by its name: what is found has the name and is one of the groups, and nothing is
/// found only where no group has it.
pub proof fn lemma_groups_are_found_by_name(
    groups: Seq<crate::upstream::group::GroupView>,
    name: Seq<char>,
)
    ensures
        named(groups, name) is None <==> forall|i: int|
            0 <= i < groups.len() ==> (#[trigger] groups[i]).name != name,
        named(groups, name) matches Some(g) ==> g.name == name && exists|i: int|
            0 <= i < groups.len() && #[trigger] groups[i] == g,
{
    lemma_named(groups, name);
}

/// Whoever holds a group keeps all of its instances and its counters from being retired, and nothing
/// else does.
pub proof fn lemma_holding_covers_the_group(
    held: Seq<crate::upstream::group::GroupView>,
    i: int,
    k: int,
    id: u64,
    g: u64,
)
    ensures
        0 <= i < held.len() && 0 <= k < held[i].instances.len() ==> stands_in(
            held,
            held[i].instances[k],
        ),
        0 <= i < held.len() ==> is_among(held, held[i].id),
        (forall|j: int|
            0 <= j < held.len() ==> !(#[trigger] held[j]).instances.contains(id)) ==> !stands_in(
            held,
            id,
        ),
        (forall|j: int| 0 <= j < held.len() ==> (#[trigger] held[j]).id != g) ==> !is_among(held, g),
{
    if 0 <= i < held.len() && 0 <= k < held[i].instances.len() {
        assert(held[i].instances[k] == held[i].instances[k]);
    }
    if stands_in(held, id) {
        let (j, l) = choose|j: int, l: int|
            0 <= j < held.len() && 0 <= l < held[j].instances.len()
                && #[trigger] held[j].instances[l] == id;
        assert(held[j].instances.contains(id));
    }
}

/// The registry lists an instance exactly if one of its groups does.
pub proof fn lemma_listed_means_in_a_group(registry: RegistryView, id: u64)
    ensures
        registry.listed(id) <==> exists|i: int|
            0 <= i < registry.groups.len() && (#[trigger] registry.groups[i]).instances.contains(id),
{
    if registry.listed(id) {
        let (i, k) = choose|i: int, k: int|
            0 <= i < registry.groups.len() && 0 <= k < registry.groups[i].instances.len()
                && #[trigger] registry.groups[i].instances[k] == id;
        assert(registry.groups[i].instances.contains(id));
    }
    if exists|i: int|
        0 <= i < registry.groups.len() && (#[trigger] registry.groups[i]).instances.contains(id) {
        let i = choose|i: int|
            0 <= i < registry.groups.len() && (#[trigger] registry.groups[i]).instances.contains(id);
        let k = registry.groups[i].instances.index_of(id);
        assert(registry.groups[i].instances[k] == id);
    }
}

/// The values of groups and upstreams are those of the lists, in their order.
pub proof fn lemma_lists_are_as_held(groups: Seq<Arc<UpstreamGroup>>, ups: Seq<Upstream>, i: int)
    ensures
        groups_view(groups).len() == groups.len(),
        upstreams_view(ups).len() == ups.len(),
        0 <= i < groups.len() ==> groups_view(groups)[i] == groups[i]@,
        0 <= i < ups.len() ==> upstreams_view(ups)[i] == ups[i]@,
{
}

/// A hashing group looks its instances up in the table that is built from the addresses and weights
/// of its upstream: its instance at a place stands for the address at that place.
pub proof fn lemma_table_speaks_of_the_instances(
    before: RegistryView,
    ups: Seq<crate::manifest::UpstreamView>,
    after: RegistryView,
    i: int,
    slot: int,
)
    requires
        before.wf(),
        reconciled(before, ups, after),
        0 <= i < ups.len(),
        ups[i].lb_algorithm == LbAlgorithm::Maglev,
        crate::manifest::lb_fault(ups[i]) is None,
        0 <= slot < ups[i].hash->0.table_size,
    ensures
        ({
            let table = after.groups[i].lb->Maglev_0;
            let owner = table[slot];
            &&& after.groups[i].lb is Maglev
            &&& table.len() == ups[i].hash->0.table_size
            &&& 0 <= owner < after.groups[i].instances.len()
            &&& after.instances[after.groups[i].instances[owner]].address
                == ups[i].addresses[owner].0
            &&& ups[i].addresses[owner].1 > 0
        }),
{
    let m = ups[i].hash->0.table_size as nat;
    let entries = ups[i].addresses;
    let h = choose|h: int| 0 <= h < entries.len() && (#[trigger] entries[h]).1 != 0;
    crate::maglev::lemma_top_weight(entries, entries.len(), h);
    lemma_settings_are_as_declared(before, ups, after, i);
    crate::maglev::lemma_every_slot_is_owned(entries, m);
    let owner = crate::maglev::maglev(entries, m)[slot];
    lemma_instances_are_as_declared(before, ups, after, i, owner);
    if entries[owner].1 == 0 {
        crate::maglev::lemma_weightless_owns_nothing(entries, m, owner);
    }
}

/// New instances are never shared: two places that get one each get different ones, under
/// identifiers that were never given out before.
pub proof fn lemma_new_instances_are_distinct(
    before: RegistryView,
    ups: Seq<crate::manifest::UpstreamView>,
    after: RegistryView,
    i: int,
    k: int,
    j: int,
    l: int,
)
    requires
        before.wf(),
        reconciled(before, ups, after),
        0 <= i < ups.len(),
        0 <= k < ups[i].addresses.len(),
        0 <= j < ups.len(),
        0 <= l < ups[j].addresses.len(),
        i != j || k != l,
        !before.instances.contains_key(after.groups[i].instances[k]),
    ensures
        after.groups[i].instances[k] != after.groups[j].instances[l],
        before.issued <= after.groups[i].instances[k] < after.issued,
{
    lemma_wf_is_based(before);
    lemma_kept_is_stable(before, before, ups[i], ups[i].addresses[k]);
    assert(placed(before, after, ups[i], k, after.groups[i].instances[k]));
}

/// A reload adds nothing but what the manifest asks for: every new instance stands in a group, and
/// every new set of counters belongs to one.
pub proof fn lemma_nothing_else_is_added(
    before: RegistryView,
    ups: Seq<crate::manifest::UpstreamView>,
    after: RegistryView,
    id: u64,
    g: u64,
)
    requires
        before.wf(),
        reconciled(before, ups, after),
    ensures
        after.instances.contains_key(id) && !before.instances.contains_key(id) ==> stands_in(
            after.groups,
            id,
        ),
        after.counters.contains_key(g) && !before.counters.contains_key(g) ==> is_among(
            after.groups,
            g,
        ),
        after.built == before.built + ups.len(),
{
    if after.instances.contains_key(id) && !before.instances.contains_key(id) {
        assert(after.listed(id));
    }
    if after.counters.contains_key(g) && !before.counters.contains_key(g) {
        let i = g - before.built;
        assert(after.groups[i] == settled(ups[i], (before.built + i) as u64, after.groups[i].instances));
        assert(after.groups[i].id == g);
    }
}

} // verus!
