//! Active health checks: which instances are to be probed when, what a probe asks for, and what
//! its outcome means.
//!
//! One supervisor drives all instances. Each round it looks at the current groups, so a reload is
//! picked up without any bookkeeping of its own, and probes every instance whose interval has
//! elapsed. An instance that was never probed is probed at once.
use vstd::prelude::*;

use crate::manifest::HealthConfig;
use crate::upstream::registry::UpstreamRegistry;

verus! {

/// How long the supervisor sleeps at most.
pub const IDLE_MS: u64 = 5000;

/// How long the supervisor sleeps at least.
pub const MIN_SLEEP_MS: u64 = 20;

/// The nanoseconds of a millisecond.
pub const NANOS_PER_MS: u128 = 1_000_000;

/// What the last probe of an instance is remembered by: the name of its upstream and its address.
pub type ProbeKey = (Seq<char>, Seq<char>);

/// When an instance was last probed.
#[derive(Debug)]
pub struct LastProbe {
    upstream: String,
    address: String,
    at_ns: u64,
}

/// The probes that a list of entries remembers; a later entry stands for its key.
spec fn remembered(entries: Seq<LastProbe>) -> Map<ProbeKey, u64>
    decreases entries.len(),
{
    if entries.len() == 0 {
        Map::empty()
    } else {
        let last = entries.last();
        remembered(entries.drop_last()).insert((last.upstream@, last.address@), last.at_ns)
    }
}

/// The key of the instance at place `k` of the group at place `i`.
pub open spec fn probe_key(
    registry: crate::upstream::registry::RegistryView,
    i: int,
    k: int,
) -> ProbeKey {
    (registry.groups[i].name, registry.instances[registry.groups[i].instances[k]].address)
}

/// The time between two probes of an instance under a health policy.
pub open spec fn interval_ms(health: crate::manifest::HealthView) -> u64 {
    if health.interval_ms >= 1 {
        health.interval_ms
    } else {
        1
    }
}

/// Whether an instance is to be probed: it never was, or its interval has elapsed since.
pub open spec fn is_due(
    last: Map<ProbeKey, u64>,
    key: ProbeKey,
    interval: u64,
    now_ns: u64,
) -> bool {
    !last.contains_key(key) || (if now_ns > last[key] {
        now_ns - last[key]
    } else {
        0
    }) >= interval * NANOS_PER_MS
}

/// The last probes once the instances of the first `i` groups, and the first `k` of the next one,
/// have been looked at in order.
pub open spec fn last_after(
    last: Map<ProbeKey, u64>,
    registry: crate::upstream::registry::RegistryView,
    now_ns: u64,
    i: nat,
    k: nat,
) -> Map<ProbeKey, u64>
    decreases i, k,
{
    if k > 0 {
        let before = last_after(last, registry, now_ns, i, (k - 1) as nat);
        if is_due(
            before,
            probe_key(registry, i as int, k - 1),
            interval_ms(registry.groups[i as int].health),
            now_ns,
        ) {
            before.insert(probe_key(registry, i as int, k - 1), now_ns)
        } else {
            before
        }
    } else if i > 0 {
        last_after(
            last,
            registry,
            now_ns,
            (i - 1) as nat,
            registry.groups[i - 1].instances.len(),
        )
    } else {
        last
    }
}

/// Whether the instance at place `k` of the group at place `i` is probed in a round that began with
/// the last probes `last`.
pub open spec fn due_at(
    last: Map<ProbeKey, u64>,
    registry: crate::upstream::registry::RegistryView,
    now_ns: u64,
    i: nat,
    k: nat,
) -> bool {
    is_due(
        last_after(last, registry, now_ns, i, k),
        probe_key(registry, i as int, k as int),
        interval_ms(registry.groups[i as int].health),
        now_ns,
    )
}

/// The places that are probed, in order, up to place `k` of the group at place `i`.
pub open spec fn due_places(
    last: Map<ProbeKey, u64>,
    registry: crate::upstream::registry::RegistryView,
    now_ns: u64,
    i: nat,
    k: nat,
) -> Seq<(int, u64)>
    decreases i, k,
{
    if k > 0 {
        let before = due_places(last, registry, now_ns, i, (k - 1) as nat);
        if due_at(last, registry, now_ns, i, (k - 1) as nat) {
            before.push((i as int, registry.groups[i as int].instances[k - 1]))
        } else {
            before
        }
    } else if i > 0 {
        due_places(
            last,
            registry,
            now_ns,
            (i - 1) as nat,
            registry.groups[i - 1].instances.len(),
        )
    } else {
        Seq::empty()
    }
}

/// Whether some instance goes by the key.
pub open spec fn is_live(
    registry: crate::upstream::registry::RegistryView,
    key: ProbeKey,
) -> bool {
    exists|i: int, k: int|
        0 <= i < registry.groups.len() && 0 <= k < registry.groups[i].instances.len()
            && #[trigger] probe_key(registry, i, k) == key
}

/// The shortest interval among the first `n` groups, and no more than the idle time.
pub open spec fn shortest_interval(
    registry: crate::upstream::registry::RegistryView,
    n: nat,
) -> u64
    decreases n,
{
    if n == 0 {
        IDLE_MS
    } else {
        let rest = shortest_interval(registry, (n - 1) as nat);
        let this = interval_ms(registry.groups[n - 1].health);
        if this < rest {
            this
        } else {
            rest
        }
    }
}

/// How long the supervisor sleeps: the shortest interval, within bounds.
pub open spec fn sleep_of(registry: crate::upstream::registry::RegistryView) -> u64 {
    let period = shortest_interval(registry, registry.groups.len());
    if period < MIN_SLEEP_MS {
        MIN_SLEEP_MS
    } else {
        period
    }
}

/// An instance to be probed.
#[derive(Debug, Clone, Copy, PartialEq, Eq, Structural)]
pub struct ProbeTarget {
    /// The place of its group.
    pub group: usize,
    /// Its identifier.
    pub instance: u64,
}

/// What the supervisor does in a round.
#[derive(Debug)]
pub struct ProbePlan {
    /// The instances to probe now.
    pub due: Vec<ProbeTarget>,
    /// The time to sleep afterwards.
    pub sleep_ms: u64,
}

impl ProbePlan {
    /// The instances to probe, as plain values.
    pub open spec fn places(self) -> Seq<(int, u64)> {
        self.due@.map_values(|t: ProbeTarget| (t.group as int, t.instance))
    }
}

/// When each instance was last probed.
#[derive(Debug)]
pub struct ProbeSchedule {
    last: Vec<LastProbe>,
}

impl View for ProbeSchedule {
    type V = Map<ProbeKey, u64>;

    closed spec fn view(&self) -> Map<ProbeKey, u64> {
        remembered(self.last@)
    }
}

/// Finds when an instance was last probed.
fn last_probe(entries: &Vec<LastProbe>, upstream: &String, address: &String) -> (r: Option<u64>)
    ensures
        match r {
            Some(at) => remembered(entries@).contains_key((upstream@, address@)) && remembered(
                entries@,
            )[(upstream@, address@)] == at,
            None => !remembered(entries@).contains_key((upstream@, address@)),
        },
{
    let ghost key = (upstream@, address@);
    let mut n: usize = entries.len();
    assert(entries@.take(n as int) =~= entries@);
    while n > 0
        invariant
            n <= entries@.len(),
            key == (upstream@, address@),
            remembered(entries@).contains_key(key) == remembered(
                entries@.take(n as int),
            ).contains_key(key),
            remembered(entries@)[key] == remembered(entries@.take(n as int))[key],
        decreases n,
    {
        let ghost part = entries@.take(n as int);
        n = n - 1;
        assert(part.drop_last() =~= entries@.take(n as int));
        assert(part.last() == entries@[n as int]);
        if entries[n].upstream == *upstream && entries[n].address == *address {
            return Some(entries[n].at_ns);
        }
    }
    None
}

impl ProbeSchedule {
    /// The schedule before any probe.
    pub fn new() -> (r: Self)
        ensures
            r@ == Map::<ProbeKey, u64>::empty(),
    {
        ProbeSchedule { last: Vec::new() }
    }

    /// Plans a round at `now_ns` on a monotonic clock: every instance that is due is to be probed
    /// and counts as probed from now on, and instances that vanished are forgotten.
    pub fn tick(&mut self, registry: &UpstreamRegistry, now_ns: u64) -> (r: ProbePlan)
        requires
            registry@.wf(),
        ensures
            r.places() == due_places(old(self)@, registry@, now_ns, registry@.groups.len(), 0),
            r.sleep_ms == sleep_of(registry@),
            forall|key: ProbeKey| #[trigger]
                final(self)@.contains_key(key) <==> is_live(registry@, key),
            forall|key: ProbeKey| #[trigger]
                final(self)@.contains_key(key) ==> final(self)@[key] == last_after(
                    old(self)@,
                    registry@,
                    now_ns,
                    registry@.groups.len(),
                    0,
                )[key],
    {
        let ghost reg = registry@;
        let ghost last = self@;
        let groups = registry.groups();
        let mut next: Vec<LastProbe> = Vec::new();
        let mut due: Vec<ProbeTarget> = Vec::new();
        let mut period: u64 = IDLE_MS;
        let mut i: usize = 0;
        assert(due@.map_values(|t: ProbeTarget| (t.group as int, t.instance)) =~= Seq::<
            (int, u64),
        >::empty());
        assert(last.union_prefer_right(Map::<ProbeKey, u64>::empty()) =~= last);
        while i < groups.len()
            invariant
                reg == registry@,
                reg.wf(),
                last == self@,
                *self == *old(self),
                reg.groups == crate::upstream::registry::groups_view(groups@),
                i <= groups@.len(),
                period == shortest_interval(reg, i as nat),
                due@.map_values(|t: ProbeTarget| (t.group as int, t.instance)) == due_places(
                    last,
                    reg,
                    now_ns,
                    i as nat,
                    0,
                ),
                tracks(last, reg, now_ns, remembered(next@), i as nat, 0),
            decreases groups@.len() - i,
        {
            assert(reg.groups[i as int] == groups@[i as int]@);
            let interval: u64 = if groups[i].health.interval_ms >= 1 {
                groups[i].health.interval_ms
            } else {
                1
            };
            if interval < period {
                period = interval;
            }
            let mut k: usize = 0;
            while k < groups[i].instances.len()
                invariant
                    reg == registry@,
                    reg.wf(),
                    last == self@,
                    *self == *old(self),
                    reg.groups == crate::upstream::registry::groups_view(groups@),
                    i < groups@.len(),
                    reg.groups[i as int] == groups@[i as int]@,
                    interval == interval_ms(reg.groups[i as int].health),
                    period == shortest_interval(reg, (i + 1) as nat),
                    k <= groups@[i as int].instances@.len(),
                    due@.map_values(|t: ProbeTarget| (t.group as int, t.instance)) == due_places(
                        last,
                        reg,
                        now_ns,
                        i as nat,
                        k as nat,
                    ),
                    tracks(last, reg, now_ns, remembered(next@), i as nat, k as nat),
                decreases groups@[i as int].instances@.len() - k,
            {
                let id: u64 = groups[i].instances[k];
                proof {
                    assert(reg.groups[i as int].instances[k as int] == id);
                    assert(reg.listed(id));
                    assert(reg.instances.contains_key(id));
                }
                match registry.instance(id) {
                    Some(instance) => {
                        let address: String = instance.address().to_owned();
                        let ghost key = probe_key(reg, i as int, k as int);
                        assert(key == (groups@[i as int].name@, address@));
                        let known: Option<u64> = match last_probe(
                            &next,
                            &groups[i].name,
                            &address,
                        ) {
                            Some(at) => Some(at),
                            None => last_probe(&self.last, &groups[i].name, &address),
                        };
                        let is_due: bool = match known {
                            Some(at) => (now_ns.saturating_sub(at) as u128) >= (interval as u128)
                                * NANOS_PER_MS,
                            None => true,
                        };
                        let at_ns: u64 = match known {
                            Some(at) => if is_due {
                                now_ns
                            } else {
                                at
                            },
                            None => now_ns,
                        };
                        assert(is_due == due_at(last, reg, now_ns, i as nat, k as nat));
                        let ghost targets = due@;
                        if is_due {
                            due.push(ProbeTarget { group: i, instance: id });
                            assert(due@.map_values(|t: ProbeTarget| (t.group as int, t.instance))
                                =~= targets.map_values(
                                |t: ProbeTarget| (t.group as int, t.instance),
                            ).push((i as int, id)));
                        }
                        let ghost entries = next@;
                        next.push(
                            LastProbe { upstream: groups[i].name.clone(), address, at_ns },
                        );
                        proof {
                            assert(next@.drop_last() =~= entries);
                            lemma_tracks_next(
                                last,
                                reg,
                                now_ns,
                                remembered(entries),
                                i as nat,
                                k as nat,
                                at_ns,
                            );
                        }
                    },
                    None => {},
                }
                k = k + 1;
            }
            proof {
                lemma_tracks_row(last, reg, now_ns, remembered(next@), i as nat);
            }
            i = i + 1;
        }
        proof {
            lemma_seen_all(reg);
        }
        self.last = next;
        let sleep_ms: u64 = if period < MIN_SLEEP_MS {
            MIN_SLEEP_MS
        } else {
            period
        };
        ProbePlan { due, sleep_ms }
    }
}

/// Whether the key stands before place `k` of the group at place `i`.
spec fn seen(
    registry: crate::upstream::registry::RegistryView,
    key: ProbeKey,
    i: nat,
    k: nat,
) -> bool {
    exists|j: int, l: int|
        0 <= j < registry.groups.len() && 0 <= l < registry.groups[j].instances.len() && (j < i
            || (j == i && l < k)) && #[trigger] probe_key(registry, j, l) == key
}

/// The map `next` holds the keys seen so far, with the last probes that they have by now; of the
/// others the last probes are as they were.
spec fn tracks(
    last: Map<ProbeKey, u64>,
    registry: crate::upstream::registry::RegistryView,
    now_ns: u64,
    next: Map<ProbeKey, u64>,
    i: nat,
    k: nat,
) -> bool {
    &&& forall|key: ProbeKey| #[trigger] next.contains_key(key) <==> seen(registry, key, i, k)
    &&& last_after(last, registry, now_ns, i, k) == last.union_prefer_right(next)
}

proof fn lemma_tracks_next(
    last: Map<ProbeKey, u64>,
    registry: crate::upstream::registry::RegistryView,
    now_ns: u64,
    next: Map<ProbeKey, u64>,
    i: nat,
    k: nat,
    at_ns: u64,
)
    requires
        i < registry.groups.len(),
        k < registry.groups[i as int].instances.len(),
        tracks(last, registry, now_ns, next, i, k),
        due_at(last, registry, now_ns, i, k) ==> at_ns == now_ns,
        !due_at(last, registry, now_ns, i, k) ==> at_ns == last_after(
            last,
            registry,
            now_ns,
            i,
            k,
        )[probe_key(registry, i as int, k as int)],
    ensures
        tracks(
            last,
            registry,
            now_ns,
            next.insert(probe_key(registry, i as int, k as int), at_ns),
            i,
            k + 1,
        ),
{
    let this = probe_key(registry, i as int, k as int);
    let after = next.insert(this, at_ns);
    assert forall|key: ProbeKey| #[trigger] after.contains_key(key) <==> seen(
        registry,
        key,
        i,
        k + 1,
    ) by {
        if seen(registry, key, i, k + 1) && key != this {
            let (j, l) = choose|j: int, l: int|
                0 <= j < registry.groups.len() && 0 <= l < registry.groups[j].instances.len() && (j
                    < i || (j == i && l < k + 1)) && #[trigger] probe_key(registry, j, l) == key;
            assert(probe_key(registry, j, l) == key && (j < i || l < k));
            assert(seen(registry, key, i, k));
        }
        if seen(registry, key, i, k) {
            let (j, l) = choose|j: int, l: int|
                0 <= j < registry.groups.len() && 0 <= l < registry.groups[j].instances.len() && (j
                    < i || (j == i && l < k)) && #[trigger] probe_key(registry, j, l) == key;
            assert(probe_key(registry, j, l) == key);
        }
    }
    assert(last_after(last, registry, now_ns, i, k + 1) =~= last.union_prefer_right(after));
}

proof fn lemma_tracks_row(
    last: Map<ProbeKey, u64>,
    registry: crate::upstream::registry::RegistryView,
    now_ns: u64,
    next: Map<ProbeKey, u64>,
    i: nat,
)
    requires
        i < registry.groups.len(),
        tracks(last, registry, now_ns, next, i, registry.groups[i as int].instances.len()),
    ensures
        tracks(last, registry, now_ns, next, i + 1, 0),
{
    let n = registry.groups[i as int].instances.len();
    assert forall|key: ProbeKey| seen(registry, key, i, n) == #[trigger] seen(
        registry,
        key,
        i + 1,
        0,
    ) by {
        if seen(registry, key, i, n) {
            let (j, l) = choose|j: int, l: int|
                0 <= j < registry.groups.len() && 0 <= l < registry.groups[j].instances.len() && (j
                    < i || (j == i && l < n)) && #[trigger] probe_key(registry, j, l) == key;
            assert(probe_key(registry, j, l) == key);
        }
        if seen(registry, key, i + 1, 0) {
            let (j, l) = choose|j: int, l: int|
                0 <= j < registry.groups.len() && 0 <= l < registry.groups[j].instances.len() && (j
                    < i + 1 || (j == i + 1 && l < 0)) && #[trigger] probe_key(registry, j, l)
                    == key;
            assert(probe_key(registry, j, l) == key);
        }
    }
}

proof fn lemma_seen_all(registry: crate::upstream::registry::RegistryView)
    ensures
        forall|key: ProbeKey|
            #[trigger] seen(registry, key, registry.groups.len(), 0) <==> is_live(registry, key),
{
    let n = registry.groups.len();
    assert forall|key: ProbeKey| #[trigger] seen(registry, key, n, 0) <==> is_live(
        registry,
        key,
    ) by {
        if seen(registry, key, n, 0) {
            let (j, l) = choose|j: int, l: int|
                0 <= j < registry.groups.len() && 0 <= l < registry.groups[j].instances.len() && (j
                    < n || (j == n && l < 0)) && #[trigger] probe_key(registry, j, l) == key;
            assert(probe_key(registry, j, l) == key);
        }
        if is_live(registry, key) {
            let (j, l) = choose|j: int, l: int|
                0 <= j < registry.groups.len() && 0 <= l < registry.groups[j].instances.len()
                    && #[trigger] probe_key(registry, j, l) == key;
            assert(probe_key(registry, j, l) == key);
        }
    }
}

/// What a probe asks for.
#[derive(Debug)]
pub struct ProbeRequest {
    /// The address that is requested.
    pub uri: String,
    /// The time that the answer may take.
    pub timeout_ms: u64,
}

/// What came of a probe.
#[derive(Debug, Clone, Copy, PartialEq, Eq, Structural)]
pub enum ProbeOutcome {
    /// The address and the path make no request.
    Malformed,
    /// No answer came in time.
    TimedOut,
    /// The connection failed.
    Failed,
    /// An answer came with this status.
    Answered(u16),
}

/// The address that a probe of an instance requests.
pub open spec fn probe_uri(address: Seq<char>, path: Seq<char>) -> Seq<char> {
    "http://"@ + address + path
}

/// The time that a probe may take under a health policy.
pub open spec fn timeout_ms(health: crate::manifest::HealthView) -> u64 {
    if health.timeout_ms >= 1 {
        health.timeout_ms
    } else {
        1
    }
}

/// Whether an outcome counts as a success: only an answer with a status of the 2xx class does.
pub open spec fn is_success(outcome: ProbeOutcome) -> bool {
    outcome matches ProbeOutcome::Answered(status) && 200 <= status < 300
}

/// Whether `hyper` builds a request for an address.
pub uninterp spec fn request_builds(uri: Seq<char>) -> bool;

/// `hyper::Request::builder` with the method, an address and a body: building fails exactly where
/// the text is no address. Which texts are is `hyper`'s grammar, and only named here.
#[verifier::external_body]
fn can_request(uri: &str) -> (r: bool)
    ensures
        r == request_builds(uri@),
{
    hyper::Request::builder().method("GET").uri(uri).body(()).is_ok()
}

/// The probe of an instance, where its address and path make a request.
pub fn prepare_probe(address: &str, health: &HealthConfig) -> (r: Option<ProbeRequest>)
    ensures
        match r {
            Some(request) => {
                &&& request_builds(probe_uri(address@, health@.path))
                &&& request.uri@ == probe_uri(address@, health@.path)
                &&& request.timeout_ms == timeout_ms(health@)
            },
            None => !request_builds(probe_uri(address@, health@.path)),
        },
{
    let uri: String = uri_of_probe(address, health);
    let builds: bool = can_request(uri.as_str());
    request_for_probe(uri, builds, health)
}

/// The address that a probe of an instance requests.
pub fn uri_of_probe(address: &str, health: &HealthConfig) -> (r: String)
    ensures
        r@ == probe_uri(address@, health@.path),
{
    let mut uri: String = "http://".to_owned();
    uri.append(address);
    uri.append(health.path.as_str());
    uri
}

/// The probe that requests an address, given whether the address makes a request.
pub fn request_for_probe(uri: String, builds: bool, health: &HealthConfig) -> (r: Option<
    ProbeRequest,
>)
    ensures
        match r {
            Some(request) => builds && request.uri@ == uri@ && request.timeout_ms == timeout_ms(
                health@,
            ),
            None => !builds,
        },
{
    if !builds {
        return None;
    }
    let timeout_ms: u64 = if health.timeout_ms >= 1 {
        health.timeout_ms
    } else {
        1
    };
    Some(ProbeRequest { uri, timeout_ms })
}

/// Takes note of what came of a probe of an instance.
pub fn settle_probe(registry: &mut UpstreamRegistry, instance: u64, outcome: ProbeOutcome)
    ensures
        old(registry)@.wf() ==> final(registry)@.wf(),
        final(registry)@.groups == old(registry)@.groups,
        final(registry)@.counters == old(registry)@.counters,
        final(registry)@.built == old(registry)@.built,
        final(registry)@.issued == old(registry)@.issued,
        final(registry)@.instances == if !old(registry)@.instances.contains_key(instance) {
            old(registry)@.instances
        } else if is_success(outcome) {
            old(registry)@.instances.insert(
                instance,
                old(registry)@.instances[instance].succeeded(),
            )
        } else {
            old(registry)@.instances.insert(instance, old(registry)@.instances[instance].failed())
        },
{
    let success: bool = match outcome {
        ProbeOutcome::Answered(status) => 200 <= status && status < 300,
        _ => false,
    };
    if success {
        registry.record_probe_success(instance);
    } else {
        registry.record_probe_failure(instance);
    }
}

/// The first place that a key has in a round decides by the last probe before the round: an
/// instance that was never probed is probed at once, and one that was is probed again as soon as
/// its interval has elapsed and not before.
pub proof fn lemma_round_keeps_intervals(
    last: Map<ProbeKey, u64>,
    registry: crate::upstream::registry::RegistryView,
    now_ns: u64,
    i: nat,
    k: nat,
)
    requires
        i < registry.groups.len(),
        k < registry.groups[i as int].instances.len(),
        forall|j: int, l: int|
            0 <= j < registry.groups.len() && 0 <= l < registry.groups[j].instances.len() && (j < i
                || (j == i && l < k)) ==> #[trigger] probe_key(registry, j, l) != probe_key(
                registry,
                i as int,
                k as int,
            ),
    ensures
        due_at(last, registry, now_ns, i, k) <==> is_due(
            last,
            probe_key(registry, i as int, k as int),
            interval_ms(registry.groups[i as int].health),
            now_ns,
        ),
{
    lemma_unseen_is_unchanged(
        last,
        registry,
        now_ns,
        i,
        k,
        probe_key(registry, i as int, k as int),
    );
}

proof fn lemma_unseen_is_unchanged(
    last: Map<ProbeKey, u64>,
    registry: crate::upstream::registry::RegistryView,
    now_ns: u64,
    i: nat,
    k: nat,
    key: ProbeKey,
)
    requires
        i <= registry.groups.len(),
        k > 0 ==> i < registry.groups.len() && k <= registry.groups[i as int].instances.len(),
        forall|j: int, l: int|
            0 <= j < registry.groups.len() && 0 <= l < registry.groups[j].instances.len() && (j < i
                || (j == i && l < k)) ==> #[trigger] probe_key(registry, j, l) != key,
    ensures
        last_after(last, registry, now_ns, i, k).contains_key(key) == last.contains_key(key),
        last.contains_key(key) ==> last_after(last, registry, now_ns, i, k)[key] == last[key],
    decreases i, k,
{
    if k > 0 {
        lemma_unseen_is_unchanged(last, registry, now_ns, i, (k - 1) as nat, key);
        assert(probe_key(registry, i as int, k - 1) != key);
    } else if i > 0 {
        lemma_unseen_is_unchanged(
            last,
            registry,
            now_ns,
            (i - 1) as nat,
            registry.groups[i - 1].instances.len(),
            key,
        );
    }
}

/// No instance is probed twice in a round: a place whose key was already probed is left alone.
pub proof fn lemma_round_probes_once(
    last: Map<ProbeKey, u64>,
    registry: crate::upstream::registry::RegistryView,
    now_ns: u64,
    i: nat,
    k: nat,
    j: nat,
    l: nat,
)
    requires
        j < registry.groups.len(),
        l < registry.groups[j as int].instances.len(),
        i < registry.groups.len(),
        k < registry.groups[i as int].instances.len(),
        i < j || (i == j && k < l),
        due_at(last, registry, now_ns, i, k),
        probe_key(registry, i as int, k as int) == probe_key(registry, j as int, l as int),
    ensures
        !due_at(last, registry, now_ns, j, l),
{
    lemma_probed_stays_probed(last, registry, now_ns, i, k, j, l);
}

proof fn lemma_probed_stays_probed(
    last: Map<ProbeKey, u64>,
    registry: crate::upstream::registry::RegistryView,
    now_ns: u64,
    i: nat,
    k: nat,
    j: nat,
    l: nat,
)
    requires
        j <= registry.groups.len(),
        l > 0 ==> j < registry.groups.len() && l <= registry.groups[j as int].instances.len(),
        i < registry.groups.len(),
        k < registry.groups[i as int].instances.len(),
        i < j || (i == j && k < l),
        due_at(last, registry, now_ns, i, k),
    ensures
        last_after(last, registry, now_ns, j, l).contains_key(
            probe_key(registry, i as int, k as int),
        ),
        last_after(last, registry, now_ns, j, l)[probe_key(registry, i as int, k as int)] == now_ns,
    decreases j, l,
{
    if l > 0 {
        if !(i == j && k == l - 1) {
            lemma_probed_stays_probed(last, registry, now_ns, i, k, j, (l - 1) as nat);
        }
    } else {
        lemma_probed_stays_probed(
            last,
            registry,
            now_ns,
            i,
            k,
            (j - 1) as nat,
            registry.groups[j - 1].instances.len(),
        );
    }
}

/// The supervisor never sleeps past an interval by more than the least sleep, nor past the idle
/// time.
pub proof fn lemma_sleep_is_bounded(registry: crate::upstream::registry::RegistryView, i: int)
    requires
        0 <= i < registry.groups.len(),
    ensures
        MIN_SLEEP_MS <= sleep_of(registry) <= IDLE_MS,
        sleep_of(registry) > MIN_SLEEP_MS ==> sleep_of(registry) <= interval_ms(
            registry.groups[i].health,
        ),
{
    lemma_shortest_interval(registry, registry.groups.len(), i);
}

proof fn lemma_shortest_interval(
    registry: crate::upstream::registry::RegistryView,
    n: nat,
    i: int,
)
    requires
        n <= registry.groups.len(),
    ensures
        shortest_interval(registry, n) <= IDLE_MS,
        0 <= i < n ==> shortest_interval(registry, n) <= interval_ms(registry.groups[i].health),
    decreases n,
{
    if n > 0 {
        lemma_shortest_interval(registry, (n - 1) as nat, i);
    }
}

/// At its first place in a round, an instance that was never probed is due, and one that was last
/// probed at `at_ns` is due exactly if its declared interval has elapsed since: as many milliseconds
/// as the health policy of its group says, and one at the least.
pub proof fn lemma_due_on_the_declared_interval(
    last: Map<ProbeKey, u64>,
    registry: crate::upstream::registry::RegistryView,
    now_ns: u64,
    i: nat,
    k: nat,
    at_ns: u64,
)
    requires
        i < registry.groups.len(),
        k < registry.groups[i as int].instances.len(),
        forall|j: int, l: int|
            0 <= j < registry.groups.len() && 0 <= l < registry.groups[j].instances.len() && (j < i
                || (j == i && l < k)) ==> #[trigger] probe_key(registry, j, l) != probe_key(
                registry,
                i as int,
                k as int,
            ),
    ensures
        !last.contains_key(probe_key(registry, i as int, k as int)) ==> due_at(
            last,
            registry,
            now_ns,
            i,
            k,
        ),
        last.contains_key(probe_key(registry, i as int, k as int)) && last[probe_key(
            registry,
            i as int,
            k as int,
        )] == at_ns && registry.groups[i as int].health.interval_ms >= 1 ==> (due_at(
            last,
            registry,
            now_ns,
            i,
            k,
        ) <==> now_ns - at_ns >= registry.groups[i as int].health.interval_ms * 1_000_000),
        last.contains_key(probe_key(registry, i as int, k as int)) && last[probe_key(
            registry,
            i as int,
            k as int,
        )] == at_ns && registry.groups[i as int].health.interval_ms == 0 ==> (due_at(
            last,
            registry,
            now_ns,
            i,
            k,
        ) <==> now_ns - at_ns >= 1_000_000),
{
    lemma_round_keeps_intervals(last, registry, now_ns, i, k);
    let ms = registry.groups[i as int].health.interval_ms;
    assert(ms >= 1 ==> ms * 1_000_000 >= 1_000_000);
}

/// An instance is known by the name of its group and its own address.
pub proof fn lemma_instances_are_known_by_name_and_address(
    registry: crate::upstream::registry::RegistryView,
    i: int,
    k: int,
    j: int,
    l: int,
)
    ensures
        probe_key(registry, i, k) == probe_key(registry, j, l) <==> registry.groups[i].name
            == registry.groups[j].name
            && registry.instances[registry.groups[i].instances[k]].address
            == registry.instances[registry.groups[j].instances[l]].address,
{
}

/// What is remembered after a round: the instant of the round for an instance that was probed in it,
/// and what was remembered before for every other.
pub proof fn lemma_round_is_remembered(
    last: Map<ProbeKey, u64>,
    registry: crate::upstream::registry::RegistryView,
    now_ns: u64,
    key: ProbeKey,
)
    ensures
        ({
            let after = last_after(last, registry, now_ns, registry.groups.len(), 0);
            &&& (exists|i: nat, k: nat|
                i < registry.groups.len() && k < registry.groups[i as int].instances.len()
                    && #[trigger] due_at(last, registry, now_ns, i, k) && probe_key(
                    registry,
                    i as int,
                    k as int,
                ) == key) ==> after.contains_key(key) && after[key] == now_ns
            &&& (forall|i: nat, k: nat|
                i < registry.groups.len() && k < registry.groups[i as int].instances.len()
                    && #[trigger] due_at(last, registry, now_ns, i, k) ==> probe_key(
                    registry,
                    i as int,
                    k as int,
                ) != key) ==> after.contains_key(key) == last.contains_key(key) && (
            last.contains_key(key) ==> after[key] == last[key])
        }),
{
    let n = registry.groups.len();
    if exists|i: nat, k: nat|
        i < n && k < registry.groups[i as int].instances.len() && #[trigger] due_at(
            last,
            registry,
            now_ns,
            i,
            k,
        ) && probe_key(registry, i as int, k as int) == key {
        let (i, k) = choose|i: nat, k: nat|
            i < n && k < registry.groups[i as int].instances.len() && #[trigger] due_at(
                last,
                registry,
                now_ns,
                i,
                k,
            ) && probe_key(registry, i as int, k as int) == key;
        lemma_probed_stays_probed(last, registry, now_ns, i, k, n, 0);
    } else {
        lemma_unprobed_is_unchanged(last, registry, now_ns, n, 0, key);
    }
}

proof fn lemma_unprobed_is_unchanged(
    last: Map<ProbeKey, u64>,
    registry: crate::upstream::registry::RegistryView,
    now_ns: u64,
    i: nat,
    k: nat,
    key: ProbeKey,
)
    requires
        i <= registry.groups.len(),
        k > 0 ==> i < registry.groups.len() && k <= registry.groups[i as int].instances.len(),
        forall|j: nat, l: nat|
            j < registry.groups.len() && l < registry.groups[j as int].instances.len()
                && #[trigger] due_at(last, registry, now_ns, j, l) ==> probe_key(
                registry,
                j as int,
                l as int,
            ) != key,
    ensures
        last_after(last, registry, now_ns, i, k).contains_key(key) == last.contains_key(key),
        last.contains_key(key) ==> last_after(last, registry, now_ns, i, k)[key] == last[key],
    decreases i, k,
{
    if k > 0 {
        lemma_unprobed_is_unchanged(last, registry, now_ns, i, (k - 1) as nat, key);
        if due_at(last, registry, now_ns, i, (k - 1) as nat) {
            assert(probe_key(registry, i as int, k - 1) != key);
        }
    } else if i > 0 {
        lemma_unprobed_is_unchanged(
            last,
            registry,
            now_ns,
            (i - 1) as nat,
            registry.groups[i - 1].instances.len(),
            key,
        );
    }
}

/// The probes of a round are exactly the places that are due: each of them stands in the list, and
/// nothing else does.
pub proof fn lemma_due_places_are_those_due(
    last: Map<ProbeKey, u64>,
    registry: crate::upstream::registry::RegistryView,
    now_ns: u64,
    i: nat,
    k: nat,
)
    requires
        i < registry.groups.len(),
        k < registry.groups[i as int].instances.len(),
        due_at(last, registry, now_ns, i, k),
    ensures
        due_places(last, registry, now_ns, registry.groups.len(), 0).contains(
            (i as int, registry.groups[i as int].instances[k as int]),
        ),
{
    lemma_due_place_is_listed(last, registry, now_ns, i, k, registry.groups.len(), 0);
}

proof fn lemma_due_place_is_listed(
    last: Map<ProbeKey, u64>,
    registry: crate::upstream::registry::RegistryView,
    now_ns: u64,
    i: nat,
    k: nat,
    j: nat,
    l: nat,
)
    requires
        j <= registry.groups.len(),
        l > 0 ==> j < registry.groups.len() && l <= registry.groups[j as int].instances.len(),
        i < registry.groups.len(),
        k < registry.groups[i as int].instances.len(),
        i < j || (i == j && k < l),
        due_at(last, registry, now_ns, i, k),
    ensures
        due_places(last, registry, now_ns, j, l).contains(
            (i as int, registry.groups[i as int].instances[k as int]),
        ),
    decreases j, l,
{
    let place = (i as int, registry.groups[i as int].instances[k as int]);
    let list = due_places(last, registry, now_ns, j, l);
    if l > 0 {
        let before = due_places(last, registry, now_ns, j, (l - 1) as nat);
        if i == j && k == l - 1 {
            assert(list[before.len() as int] == place);
        } else {
            lemma_due_place_is_listed(last, registry, now_ns, i, k, j, (l - 1) as nat);
            assert(list[before.index_of(place)] == place);
        }
    } else {
        lemma_due_place_is_listed(
            last,
            registry,
            now_ns,
            i,
            k,
            (j - 1) as nat,
            registry.groups[j - 1].instances.len(),
        );
    }
}

/// Every probe of a round is of a place that is due.
pub proof fn lemma_probes_are_due(
    last: Map<ProbeKey, u64>,
    registry: crate::upstream::registry::RegistryView,
    now_ns: u64,
    p: int,
) -> (at: (nat, nat))
    requires
        0 <= p < due_places(last, registry, now_ns, registry.groups.len(), 0).len(),
    ensures
        at.0 < registry.groups.len(),
        at.1 < registry.groups[at.0 as int].instances.len(),
        due_at(last, registry, now_ns, at.0, at.1),
        due_places(last, registry, now_ns, registry.groups.len(), 0)[p] == (
            at.0 as int,
            registry.groups[at.0 as int].instances[at.1 as int],
        ),
{
    lemma_listed_place_is_due(last, registry, now_ns, registry.groups.len(), 0, p)
}

proof fn lemma_listed_place_is_due(
    last: Map<ProbeKey, u64>,
    registry: crate::upstream::registry::RegistryView,
    now_ns: u64,
    j: nat,
    l: nat,
    p: int,
) -> (at: (nat, nat))
    requires
        j <= registry.groups.len(),
        l > 0 ==> j < registry.groups.len() && l <= registry.groups[j as int].instances.len(),
        0 <= p < due_places(last, registry, now_ns, j, l).len(),
    ensures
        at.0 < j || (at.0 == j && at.1 < l),
        at.0 < registry.groups.len(),
        at.1 < registry.groups[at.0 as int].instances.len(),
        due_at(last, registry, now_ns, at.0, at.1),
        due_places(last, registry, now_ns, j, l)[p] == (
            at.0 as int,
            registry.groups[at.0 as int].instances[at.1 as int],
        ),
    decreases j, l,
{
    if l > 0 {
        let before = due_places(last, registry, now_ns, j, (l - 1) as nat);
        if p < before.len() {
            lemma_listed_place_is_due(last, registry, now_ns, j, (l - 1) as nat, p)
        } else {
            (j, (l - 1) as nat)
        }
    } else {
        lemma_listed_place_is_due(
            last,
            registry,
            now_ns,
            (j - 1) as nat,
            registry.groups[j - 1].instances.len(),
            p,
        )
    }
}

/// The sleep after a round is five seconds where nothing is declared shorter, the shortest declared
/// interval otherwise, and twenty milliseconds at the least.
pub proof fn lemma_sleep_is_the_shortest_interval(
    registry: crate::upstream::registry::RegistryView,
)
    ensures
        20 <= sleep_of(registry) <= 5000,
        forall|i: int|
            0 <= i < registry.groups.len() ==> sleep_of(registry) <= 20 || sleep_of(registry)
                <= (#[trigger] registry.groups[i]).health.interval_ms,
        sleep_of(registry) == 5000 || sleep_of(registry) == 20 || exists|i: int|
            0 <= i < registry.groups.len() && (#[trigger] registry.groups[i]).health.interval_ms
                == sleep_of(registry),
        (exists|i: int|
            0 <= i < registry.groups.len() && (#[trigger] registry.groups[i]).health.interval_ms
                <= 20) <==> sleep_of(registry) == 20,
{
    let n = registry.groups.len();
    lemma_shortest_is_one(registry, n);
    assert forall|i: int| 0 <= i < registry.groups.len() implies sleep_of(registry) <= 20
        || sleep_of(registry) <= (#[trigger] registry.groups[i]).health.interval_ms by {
        lemma_shortest_interval(registry, n, i);
    }
    if exists|i: int|
        0 <= i < registry.groups.len() && (#[trigger] registry.groups[i]).health.interval_ms <= 20 {
        let i = choose|i: int|
            0 <= i < registry.groups.len() && (#[trigger] registry.groups[i]).health.interval_ms
                <= 20;
        lemma_shortest_interval(registry, n, i);
    }
    if n > 0 {
        lemma_shortest_interval(registry, n, 0);
    }
}

proof fn lemma_shortest_is_one(registry: crate::upstream::registry::RegistryView, n: nat)
    requires
        n <= registry.groups.len(),
    ensures
        1 <= shortest_interval(registry, n) <= 5000,
        shortest_interval(registry, n) == 5000 || exists|i: int|
            0 <= i < n && ((#[trigger] registry.groups[i]).health.interval_ms == shortest_interval(
                registry,
                n,
            ) || (registry.groups[i].health.interval_ms == 0 && shortest_interval(registry, n)
                == 1)),
    decreases n,
{
    if n > 0 {
        lemma_shortest_is_one(registry, (n - 1) as nat);
        let rest = shortest_interval(registry, (n - 1) as nat);
        let this = registry.groups[n - 1].health.interval_ms;
        if shortest_interval(registry, n) == rest && rest != 5000 {
            let i = choose|i: int|
                0 <= i < n - 1 && ((#[trigger] registry.groups[i]).health.interval_ms == rest || (
                registry.groups[i].health.interval_ms == 0 && rest == 1));
            assert(registry.groups[i].health.interval_ms == rest || (
            registry.groups[i].health.interval_ms == 0 && rest == 1));
        } else {
            assert(registry.groups[n - 1].health.interval_ms == this);
        }
    }
}

/// A probe requests the path of the health policy at the address of the instance over plain HTTP,
/// and has as long as the policy says, a millisecond at the least.
pub proof fn lemma_probe_is_as_declared(
    address: Seq<char>,
    health: crate::manifest::HealthView,
)
    ensures
        probe_uri(address, health.path).len() == 7 + address.len() + health.path.len(),
        probe_uri(address, health.path).take(7) == seq!['h', 't', 't', 'p', ':', '/', '/'],
        probe_uri(address, health.path).subrange(7, 7 + address.len() as int) == address,
        probe_uri(address, health.path).skip(7 + address.len() as int) == health.path,
        health.timeout_ms >= 1 ==> timeout_ms(health) == health.timeout_ms,
        health.timeout_ms == 0 ==> timeout_ms(health) == 1,
{
    reveal_strlit("http://");
    let uri = probe_uri(address, health.path);
    assert(uri.take(7) =~= seq!['h', 't', 't', 'p', ':', '/', '/']);
    assert(uri.subrange(7, 7 + address.len() as int) =~= address);
    assert(uri.skip(7 + address.len() as int) =~= health.path);
}

/// A probe succeeds exactly if an answer comes whose status has two hundreds.
pub proof fn lemma_only_2xx_succeeds(outcome: ProbeOutcome, status: u16)
    ensures
        is_success(ProbeOutcome::Answered(status)) <==> status / 100 == 2,
        is_success(outcome) ==> outcome is Answered,
{
}

/// The probes of a round go in the order of the groups, and in a group in the order of its
/// instances, each place standing in the list once.
pub proof fn lemma_probes_go_in_order(
    last: Map<ProbeKey, u64>,
    registry: crate::upstream::registry::RegistryView,
    now_ns: u64,
    p: int,
    q: int,
) -> (at: ((nat, nat), (nat, nat)))
    requires
        0 <= p < q < due_places(last, registry, now_ns, registry.groups.len(), 0).len(),
    ensures
        at.0.0 < at.1.0 || (at.0.0 == at.1.0 && at.0.1 < at.1.1),
        at.1.0 < registry.groups.len(),
        at.0.1 < registry.groups[at.0.0 as int].instances.len(),
        at.1.1 < registry.groups[at.1.0 as int].instances.len(),
        due_places(last, registry, now_ns, registry.groups.len(), 0)[p] == (
            at.0.0 as int,
            registry.groups[at.0.0 as int].instances[at.0.1 as int],
        ),
        due_places(last, registry, now_ns, registry.groups.len(), 0)[q] == (
            at.1.0 as int,
            registry.groups[at.1.0 as int].instances[at.1.1 as int],
        ),
{
    lemma_listed_places_are_ordered(last, registry, now_ns, registry.groups.len(), 0, p, q)
}

proof fn lemma_listed_places_are_ordered(
    last: Map<ProbeKey, u64>,
    registry: crate::upstream::registry::RegistryView,
    now_ns: u64,
    j: nat,
    l: nat,
    p: int,
    q: int,
) -> (at: ((nat, nat), (nat, nat)))
    requires
        j <= registry.groups.len(),
        l > 0 ==> j < registry.groups.len() && l <= registry.groups[j as int].instances.len(),
        0 <= p < q < due_places(last, registry, now_ns, j, l).len(),
    ensures
        at.0.0 < at.1.0 || (at.0.0 == at.1.0 && at.0.1 < at.1.1),
        at.1.0 < registry.groups.len(),
        at.0.1 < registry.groups[at.0.0 as int].instances.len(),
        at.1.1 < registry.groups[at.1.0 as int].instances.len(),
        due_places(last, registry, now_ns, j, l)[p] == (
            at.0.0 as int,
            registry.groups[at.0.0 as int].instances[at.0.1 as int],
        ),
        due_places(last, registry, now_ns, j, l)[q] == (
            at.1.0 as int,
            registry.groups[at.1.0 as int].instances[at.1.1 as int],
        ),
    decreases j, l,
{
    if l > 0 {
        let before = due_places(last, registry, now_ns, j, (l - 1) as nat);
        if q < before.len() {
            lemma_listed_places_are_ordered(last, registry, now_ns, j, (l - 1) as nat, p, q)
        } else {
            let first = lemma_listed_place_is_due(last, registry, now_ns, j, (l - 1) as nat, p);
            (first, (j, (l - 1) as nat))
        }
    } else {
        lemma_listed_places_are_ordered(
            last,
            registry,
            now_ns,
            (j - 1) as nat,
            registry.groups[j - 1].instances.len(),
            p,
            q,
        )
    }
}

/// An instance is looked at once in a round: where a group lists an address again, the later place
/// is not probed.
pub proof fn lemma_later_places_are_not_probed(
    last: Map<ProbeKey, u64>,
    registry: crate::upstream::registry::RegistryView,
    now_ns: u64,
    i: nat,
    k: nat,
    j: nat,
    l: nat,
)
    requires
        registry.wf(),
        i < registry.groups.len(),
        j < registry.groups.len(),
        k < registry.groups[i as int].instances.len(),
        l < registry.groups[j as int].instances.len(),
        i < j || (i == j && k < l),
        probe_key(registry, i as int, k as int) == probe_key(registry, j as int, l as int),
    ensures
        !due_at(last, registry, now_ns, j, l),
{
    if i < j {
        assert(registry.groups[i as int].name != registry.groups[j as int].name);
    }
    lemma_looked_at_is_not_due(last, registry, now_ns, i, k, l);
}

proof fn lemma_looked_at_is_not_due(
    last: Map<ProbeKey, u64>,
    registry: crate::upstream::registry::RegistryView,
    now_ns: u64,
    i: nat,
    k: nat,
    l: nat,
)
    requires
        i < registry.groups.len(),
        k < l <= registry.groups[i as int].instances.len(),
    ensures
        !is_due(
            last_after(last, registry, now_ns, i, l),
            probe_key(registry, i as int, k as int),
            interval_ms(registry.groups[i as int].health),
            now_ns,
        ),
    decreases l,
{
    if l > k + 1 {
        lemma_looked_at_is_not_due(last, registry, now_ns, i, k, (l - 1) as nat);
    }
}

/// A key is live exactly if some group of that name lists an instance of that address.
pub proof fn lemma_live_keys_are_those_listed(
    registry: crate::upstream::registry::RegistryView,
    name: Seq<char>,
    address: Seq<char>,
)
    ensures
        is_live(registry, (name, address)) <==> exists|i: int, k: int|
            0 <= i < registry.groups.len() && 0 <= k < registry.groups[i].instances.len()
                && registry.groups[i].name == name
                && registry.instances[#[trigger] registry.groups[i].instances[k]].address
                == address,
{
    if is_live(registry, (name, address)) {
        let (i, k) = choose|i: int, k: int|
            0 <= i < registry.groups.len() && 0 <= k < registry.groups[i].instances.len()
                && #[trigger] probe_key(registry, i, k) == (name, address);
        let id = registry.groups[i].instances[k];
        assert(registry.instances[id].address == address);
    }
    if exists|i: int, k: int|
        0 <= i < registry.groups.len() && 0 <= k < registry.groups[i].instances.len()
            && registry.groups[i].name == name
            && registry.instances[#[trigger] registry.groups[i].instances[k]].address == address {
        let (i, k) = choose|i: int, k: int|
            0 <= i < registry.groups.len() && 0 <= k < registry.groups[i].instances.len()
                && registry.groups[i].name == name
                && registry.instances[#[trigger] registry.groups[i].instances[k]].address
                == address;
        assert(probe_key(registry, i, k) == (name, address));
    }
}

/// A plan names the places of its targets, in their order.
pub proof fn lemma_plan_is_as_held(plan: ProbePlan, p: int)
    ensures
        plan.places().len() == plan.due@.len(),
        0 <= p < plan.due@.len() ==> plan.places()[p].0 == plan.due@[p].group && plan.places()[p].1
            == plan.due@[p].instance,
{
}

} // verus!
