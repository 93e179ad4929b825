//! Native rate limiting on the fast path: a coarse token-bucket floor that is consulted before any
//! filter runs.
//!
//! A limiter is keyed by route (one bucket for all clients) or by client address. Client buckets
//! stand in a table of fixed size, and a hash that is seeded for each limiter picks the slot, so no
//! flood of addresses can make the limiter grow. The price is that two clients may share a slot.
//!
//! A limiter is changed by each request, so whoever shares one between threads puts it under a lock.
use std::collections::hash_map::{DefaultHasher, RandomState};
use std::hash::{BuildHasher, Hasher};
use vstd::prelude::*;

use crate::bucket::{apply_bucket, Bucket};
use crate::clock::now_millis;

verus! {

/// The slots of a table of client buckets.
pub const IP_SLOTS: usize = 65536;

/// The time between two refills of a limiter's buckets.
pub const REFILL_INTERVAL_MS: u64 = 1000;

/// What a limiter keys its buckets by.
#[derive(Debug, Clone, Copy, PartialEq, Eq, Structural)]
pub enum RateLimitKeyKind {
    /// One bucket for the whole route.
    Route,
    /// A bucket per client address.
    ClientIp,
}

impl RateLimitKeyKind {
    /// The name of the key in the manifest.
    pub fn name(&self) -> (r: &'static str)
        ensures
            r@ == match *self {
                RateLimitKeyKind::Route => "route"@,
                RateLimitKeyKind::ClientIp => "client-ip"@,
            },
    {
        match self {
            RateLimitKeyKind::Route => "route",
            RateLimitKeyKind::ClientIp => "client-ip",
        }
    }
}

/// The rate limit of a route as the operator declares it.
#[derive(Debug, Clone, Copy, PartialEq, Eq, Structural)]
pub struct RouteRateLimit {
    /// The requests per second.
    pub rate: u64,
    /// The requests that may come at once.
    pub burst: u64,
    /// What the limit is keyed by.
    pub key: RateLimitKeyKind,
}

/// The address of a client.
#[derive(Debug, Clone, Copy, PartialEq, Eq)]
pub enum IpAddr {
    /// An IPv4 address, as its four octets.
    V4([u8; 4]),
    /// An IPv6 address, as its sixteen octets.
    V6([u8; 16]),
}

/// The answer of a limiter.
#[derive(Debug, Clone, Copy, PartialEq, Eq, Structural)]
pub enum RateLimitDecision {
    /// A token was available: forward the request.
    Allow,
    /// The bucket was empty: refuse the request. Where nobody else draws on the bucket, a token will
    /// be there after `retry_after_ms` at the latest; the largest value stands for never.
    Limit {
        retry_after_ms: u64,
    },
}

/// The octets of the IPv4 address that an IPv6 address maps, if it maps one.
pub open spec fn mapped_v4(octets: Seq<u8>) -> Option<Seq<u8>> {
    if (forall|i: int| 0 <= i < 10 ==> octets[i] == 0) && octets[10] == 0xff && octets[11]
        == 0xff {
        Some(octets.subrange(12, 16))
    } else {
        None
    }
}

/// The key of a client: its four octets and four zeros for IPv4, also where an IPv6 address maps
/// it, and the network half of the address for IPv6.
pub open spec fn key_of(peer: IpAddr) -> Seq<u8> {
    match peer {
        IpAddr::V4(octets) => octets@ + seq![0u8, 0, 0, 0],
        IpAddr::V6(octets) => match mapped_v4(octets@) {
            Some(v4) => v4 + seq![0u8, 0, 0, 0],
            None => octets@.subrange(0, 8),
        },
    }
}

/// The parameters of a limiter's buckets.
pub open spec fn bucket_of(cfg: RouteRateLimit) -> Bucket {
    Bucket {
        capacity: cfg.burst,
        refill_tokens: cfg.rate,
        refill_interval_ms: REFILL_INTERVAL_MS,
    }
}

/// What one request does to a bucket.
pub open spec fn charged(cell: (u64, u64), spec: Bucket, now_ms: u64) -> (u64, u64) {
    crate::bucket::applied(cell, 1, spec, now_ms).0
}

/// The answer to one request from a bucket.
pub open spec fn decided(cell: (u64, u64), spec: Bucket, now_ms: u64) -> RateLimitDecision {
    let outcome = crate::bucket::applied(cell, 1, spec, now_ms).1;
    if outcome.allowed {
        RateLimitDecision::Allow
    } else {
        RateLimitDecision::Limit { retry_after_ms: outcome.retry_after_ms }
    }
}

/// The buckets of a limiter as plain values.
#[verifier::ext_equal]
pub struct LimiterView {
    /// The states of the buckets.
    pub cells: Seq<(u64, u64)>,
    /// The seed of the hash that picks a client's slot; none where one bucket serves all.
    pub seed: Option<Seq<Seq<u8>>>,
}

impl LimiterView {
    /// The slot of a client.
    pub open spec fn slot(self, peer: IpAddr) -> int {
        slot_of(self.seed, peer)
    }

    /// The buckets after a request of a client.
    pub open spec fn after(self, spec: Bucket, peer: IpAddr, now_ms: u64) -> LimiterView {
        let slot = self.slot(peer);
        LimiterView {
            cells: self.cells.update(slot, charged(self.cells[slot], spec, now_ms)),
            seed: self.seed,
        }
    }

    /// The answer to a request of a client.
    pub open spec fn answer(self, spec: Bucket, peer: IpAddr, now_ms: u64) -> RateLimitDecision {
        decided(self.cells[self.slot(peer)], spec, now_ms)
    }

    /// Whether no bucket holds more tokens than its capacity.
    pub open spec fn within(self, spec: Bucket) -> bool {
        forall|i: int| 0 <= i < self.cells.len() ==> (#[trigger] self.cells[i]).0 <= spec.capacity
    }

    /// The buckets after some requests, each of a client at an instant.
    pub open spec fn after_all(self, spec: Bucket, calls: Seq<(IpAddr, u64)>) -> LimiterView
        decreases calls.len(),
    {
        if calls.len() == 0 {
            self
        } else {
            self.after_all(spec, calls.drop_last()).after(spec, calls.last().0, calls.last().1)
        }
    }

    /// The number of buckets is fixed by what the limiter is keyed by.
    pub open spec fn wf(self) -> bool {
        self.cells.len() == if self.seed is Some {
            IP_SLOTS as nat
        } else {
            1
        }
    }
}

/// The slot that a hash stands for.
pub open spec fn slot_of_hash(hash: u64) -> int {
    hash as int % IP_SLOTS as int
}

/// The slot of a client: the seeded hash of its key, modulo the number of slots; the only slot
/// where there is no seed.
pub open spec fn slot_of(seed: Option<Seq<Seq<u8>>>, peer: IpAddr) -> int {
    match seed {
        None => 0,
        Some(seed) => slot_of_hash(
            <DefaultHasher as vstd::std_specs::hash::DefaultHasherAdditionalSpecFns>::spec_finish(
                seed.push(key_of(peer)),
            ),
        ),
    }
}

/// The number of buckets that a limiter has under a key.
pub open spec fn slots_of_key(key: RateLimitKeyKind) -> nat {
    match key {
        RateLimitKeyKind::Route => 1,
        RateLimitKeyKind::ClientIp => IP_SLOTS as nat,
    }
}

/// `RandomState::new` draws the keys of a hash at random; nothing is claimed of them.
pub assume_specification[ RandomState::new ]() -> RandomState
;

/// `RandomState::build_hasher` starts a hasher under the keys of the `RandomState`. The keys are
/// random, so nothing is claimed of the hasher's state.
pub assume_specification[ <RandomState as BuildHasher>::build_hasher ](
    state: &RandomState,
) -> DefaultHasher
;

/// `DefaultHasher::clone` copies a hasher, keys and input so far alike.
pub assume_specification[ <DefaultHasher as Clone>::clone ](hasher: &DefaultHasher) -> (r:
    DefaultHasher)
    ensures
        r@ == hasher@,
;

/// The key that a client's bucket is found by. An IPv4 client counts as one client whether it
/// arrives as such or mapped into IPv6; an IPv6 client counts by its network, so that it gains
/// nothing by changing addresses within it.
pub fn ip_key_bytes(peer: IpAddr) -> (r: [u8; 8])
    ensures
        r@ == key_of(peer),
{
    match peer {
        IpAddr::V4(o) => {
            let r: [u8; 8] = [o[0], o[1], o[2], o[3], 0, 0, 0, 0];
            assert(r@ =~= key_of(peer));
            r
        },
        IpAddr::V6(o) => {
            let mut zeros: usize = 0;
            while zeros < 10 && o[zeros] == 0
                invariant
                    zeros <= 10,
                    forall|i: int| 0 <= i < zeros ==> o@[i] == 0,
                decreases 10 - zeros,
            {
                zeros = zeros + 1;
            }
            if zeros == 10 && o[10] == 0xff && o[11] == 0xff {
                let r: [u8; 8] = [o[12], o[13], o[14], o[15], 0, 0, 0, 0];
                assert(r@ =~= key_of(peer));
                r
            } else {
                let r: [u8; 8] = [o[0], o[1], o[2], o[3], o[4], o[5], o[6], o[7]];
                assert(r@ =~= key_of(peer));
                r
            }
        },
    }
}

/// The slot that a hash stands for.
pub fn slot_for_hash(hash: u64) -> (r: usize)
    ensures
        r == slot_of_hash(hash),
        r < IP_SLOTS,
{
    assert(((hash as usize) & 0xffff) as u64 == hash % 0x1_0000) by (bit_vector);
    (hash as usize) & (IP_SLOTS - 1)
}

/// The slot of a client in a table under a seeded hash.
fn slot_for_ip(peer: IpAddr, seeded: &DefaultHasher) -> (r: usize)
    ensures
        r == slot_of(Some(seeded@), peer),
        r < IP_SLOTS,
{
    let key: [u8; 8] = ip_key_bytes(peer);
    let mut hasher: DefaultHasher = seeded.clone();
    hasher.write(key.as_slice());
    slot_for_hash(hasher.finish())
}

/// Charges one request to a bucket: its state afterwards, and the answer.
pub fn charge(cell: (u64, u64), spec: Bucket, now_ms: u64) -> (r: ((u64, u64), RateLimitDecision))
    requires
        spec.refill_interval_ms > 0,
    ensures
        r.0 == charged(cell, spec, now_ms),
        r.1 == decided(cell, spec, now_ms),
{
    let (next, outcome) = apply_bucket(Some(cell), 1, spec, now_ms);
    if outcome.allowed {
        (next, RateLimitDecision::Allow)
    } else {
        (next, RateLimitDecision::Limit { retry_after_ms: outcome.retry_after_ms })
    }
}

/// The buckets of a new limiter, each of them untouched: no tokens, credited up to the epoch. Such
/// a bucket refills from the epoch on its first use, so it reads as full.
pub fn fresh_cells(key: RateLimitKeyKind) -> (r: Vec<(u64, u64)>)
    ensures
        r@ == Seq::new(slots_of_key(key), |i: int| (0u64, 0u64)),
{
    let len: usize = match key {
        RateLimitKeyKind::Route => 1,
        RateLimitKeyKind::ClientIp => IP_SLOTS,
    };
    let mut cells: Vec<(u64, u64)> = Vec::new();
    while cells.len() < len
        invariant
            cells@.len() <= len,
            forall|i: int| 0 <= i < cells@.len() ==> #[trigger] cells@[i] == (0u64, 0u64),
        decreases len - cells.len(),
    {
        cells.push((0, 0));
    }
    assert(cells@ =~= Seq::new(slots_of_key(key), |i: int| (0u64, 0u64)));
    cells
}

/// The compiled rate limiter of one route.
pub struct NativeRateLimit {
    spec: Bucket,
    cells: Vec<(u64, u64)>,
    hasher: Option<DefaultHasher>,
}

impl View for NativeRateLimit {
    type V = LimiterView;

    closed spec fn view(&self) -> LimiterView {
        LimiterView {
            cells: self.cells@,
            seed: match self.hasher {
                Some(hasher) => Some(hasher@),
                None => None,
            },
        }
    }
}

impl NativeRateLimit {
    /// The parameters of the buckets.
    pub closed spec fn spec_bucket(&self) -> Bucket {
        self.spec
    }

    #[verifier::type_invariant]
    spec fn type_inv(self) -> bool {
        &&& self.spec.refill_interval_ms > 0
        &&& self@.wf()
    }

    /// Builds a limiter from what the operator declared: one bucket for a route, and a table of
    /// fixed size under a seed of its own for clients. No bucket was touched yet.
    pub fn new(cfg: RouteRateLimit) -> (r: Self)
        ensures
            r.spec_bucket() == bucket_of(cfg),
            r@.cells == Seq::new(slots_of_key(cfg.key), |i: int| (0u64, 0u64)),
            r@.seed is Some <==> cfg.key == RateLimitKeyKind::ClientIp,
            r@.wf(),
            r@.within(bucket_of(cfg)),
    {
        let spec = Bucket {
            capacity: cfg.burst,
            refill_tokens: cfg.rate,
            refill_interval_ms: REFILL_INTERVAL_MS,
        };
        let cells: Vec<(u64, u64)> = fresh_cells(cfg.key);
        let hasher: Option<DefaultHasher> = match cfg.key {
            RateLimitKeyKind::Route => None,
            RateLimitKeyKind::ClientIp => Some(RandomState::new().build_hasher()),
        };
        NativeRateLimit { spec, cells, hasher }
    }

    /// The slot of a client's bucket.
    pub fn slot(&self, peer: IpAddr) -> (r: usize)
        ensures
            r == self@.slot(peer),
            r < self@.cells.len(),
    {
        proof {
            use_type_invariant(self);
        }
        match &self.hasher {
            None => 0,
            Some(hasher) => slot_for_ip(peer, hasher),
        }
    }

    /// The number of buckets, which never changes.
    pub fn slots(&self) -> (r: usize)
        ensures
            r == self@.cells.len(),
    {
        self.cells.len()
    }

    /// Answers one request of the client at `peer`, which is the address of the connection, at what
    /// the wall clock shows.
    pub fn check(&mut self, peer: IpAddr) -> (r: RateLimitDecision)
        ensures
            exists|elapsed: Option<(u64, u32)>|
                {
                    &&& #[trigger] crate::clock::is_time(elapsed)
                    &&& r == old(self)@.answer(
                        old(self).spec_bucket(),
                        peer,
                        crate::clock::millis_of(elapsed),
                    )
                    &&& final(self)@ == old(self)@.after(
                        old(self).spec_bucket(),
                        peer,
                        crate::clock::millis_of(elapsed),
                    )
                },
            final(self).spec_bucket() == old(self).spec_bucket(),
            final(self)@.wf(),
            old(self)@.within(old(self).spec_bucket()) ==> final(self)@.within(
                final(self).spec_bucket(),
            ),
    {
        let now_ms: u64 = now_millis();
        self.check_at(peer, now_ms)
    }

    /// [`check`](Self::check) against a given clock: one token of the client's bucket, or a refusal.
    /// No other bucket is touched.
    pub fn check_at(&mut self, peer: IpAddr, now_ms: u64) -> (r: RateLimitDecision)
        ensures
            r == old(self)@.answer(old(self).spec_bucket(), peer, now_ms),
            final(self)@ == old(self)@.after(old(self).spec_bucket(), peer, now_ms),
            final(self).spec_bucket() == old(self).spec_bucket(),
            final(self)@.wf(),
            old(self)@.within(old(self).spec_bucket()) ==> final(self)@.within(
                final(self).spec_bucket(),
            ),
    {
        proof {
            use_type_invariant(&*self);
            if self@.within(self.spec) {
                lemma_tokens_stay_within(self@, self.spec, peer, now_ms);
            }
        }
        let slot: usize = self.slot(peer);
        let (next, answer) = charge(self.cells[slot], self.spec, now_ms);
        self.cells[slot] = next;
        answer
    }
}

/// No bucket ever holds more tokens than its capacity.
pub proof fn lemma_tokens_stay_within(
    buckets: LimiterView,
    spec: Bucket,
    peer: IpAddr,
    now_ms: u64,
)
    requires
        buckets.wf(),
        buckets.within(spec),
        spec.refill_interval_ms > 0,
    ensures
        buckets.after(spec, peer, now_ms).within(spec),
{
    crate::bucket::lemma_capacity_bounds_tokens(
        buckets.cells[buckets.slot(peer)],
        1,
        spec,
        now_ms,
    );
}

/// A client that arrives over IPv4 and the same client mapped into IPv6 share a bucket.
pub proof fn lemma_mapped_address_is_one_client(buckets: LimiterView, v4: IpAddr, v6: IpAddr)
    requires
        v4 is V4,
        v6 is V6,
        mapped_v4(v6->V6_0@) == Some(v4->V4_0@),
    ensures
        key_of(v4) == key_of(v6),
        buckets.slot(v4) == buckets.slot(v6),
{
}

/// Addresses of one IPv6 network share a bucket.
pub proof fn lemma_network_is_one_client(buckets: LimiterView, a: IpAddr, b: IpAddr)
    requires
        a is V6,
        b is V6,
        mapped_v4(a->V6_0@) is None,
        mapped_v4(b->V6_0@) is None,
        a->V6_0@.subrange(0, 8) == b->V6_0@.subrange(0, 8),
    ensures
        key_of(a) == key_of(b),
        buckets.slot(a) == buckets.slot(b),
{
}

/// Addresses of different IPv6 networks have different keys, and so have different IPv4 addresses.
pub proof fn lemma_keys_tell_clients_apart(a: IpAddr, b: IpAddr)
    ensures
        a is V4 && b is V4 && a->V4_0@ != b->V4_0@ ==> key_of(a) != key_of(b),
        a is V6 && b is V6 && mapped_v4(a->V6_0@) is None && mapped_v4(b->V6_0@) is None
            && a->V6_0@.subrange(0, 8) != b->V6_0@.subrange(0, 8) ==> key_of(a) != key_of(b),
{
    if a is V4 && b is V4 && key_of(a) == key_of(b) {
        let x = a->V4_0@;
        let y = b->V4_0@;
        assert(key_of(a).subrange(0, 4) =~= x);
        assert(key_of(b).subrange(0, 4) =~= y);
    }
}

/// Clients with one key are one client: whichever of them asks, the answer and what it leaves behind
/// are the same. A limiter without a seed counts all clients as one.
pub proof fn lemma_one_key_is_one_client(
    buckets: LimiterView,
    spec: Bucket,
    a: IpAddr,
    b: IpAddr,
    now_ms: u64,
)
    requires
        buckets.seed is None || key_of(a) == key_of(b),
    ensures
        buckets.answer(spec, a, now_ms) == buckets.answer(spec, b, now_ms),
        buckets.after(spec, a, now_ms) == buckets.after(spec, b, now_ms),
{
}

/// The table never grows: no requests, from however many clients, change the number of buckets or
/// the seed.
pub proof fn lemma_table_is_fixed(buckets: LimiterView, spec: Bucket, calls: Seq<(IpAddr, u64)>)
    requires
        buckets.wf(),
    ensures
        buckets.after_all(spec, calls).wf(),
        buckets.after_all(spec, calls).cells.len() == buckets.cells.len(),
        buckets.after_all(spec, calls).seed == buckets.seed,
    decreases calls.len(),
{
    if calls.len() > 0 {
        lemma_table_is_fixed(buckets, spec, calls.drop_last());
    }
}

proof fn lemma_slot_in_table(buckets: LimiterView, peer: IpAddr)
    requires
        buckets.wf(),
    ensures
        0 <= buckets.slot(peer) < buckets.cells.len(),
{
}

/// Clients in different slots do not affect each other: whatever requests follow, the answer to one
/// client is the same as if a request of the other had not been made.
pub proof fn lemma_slots_are_isolated(
    buckets: LimiterView,
    spec: Bucket,
    peer: IpAddr,
    now_ms: u64,
    calls: Seq<(IpAddr, u64)>,
    other: IpAddr,
    later_ms: u64,
)
    requires
        buckets.wf(),
        buckets.slot(peer) != buckets.slot(other),
    ensures
        buckets.after(spec, peer, now_ms).after_all(spec, calls).answer(spec, other, later_ms)
            == buckets.after_all(spec, calls).answer(spec, other, later_ms),
{
    lemma_slot_in_table(buckets, peer);
    lemma_slot_in_table(buckets, other);
    lemma_bucket_is_its_own(
        buckets.after(spec, peer, now_ms),
        buckets,
        spec,
        calls,
        buckets.slot(other),
    );
}

/// What some requests do to a bucket depends on that bucket alone.
proof fn lemma_bucket_is_its_own(
    a: LimiterView,
    b: LimiterView,
    spec: Bucket,
    calls: Seq<(IpAddr, u64)>,
    slot: int,
)
    requires
        a.wf(),
        b.wf(),
        a.seed == b.seed,
        0 <= slot < a.cells.len(),
        a.cells[slot] == b.cells[slot],
    ensures
        a.after_all(spec, calls).seed == a.seed,
        b.after_all(spec, calls).seed == b.seed,
        a.after_all(spec, calls).cells[slot] == b.after_all(spec, calls).cells[slot],
    decreases calls.len(),
{
    if calls.len() > 0 {
        let rest = calls.drop_last();
        lemma_bucket_is_its_own(a, b, spec, rest, slot);
        lemma_table_is_fixed(a, spec, rest);
        lemma_table_is_fixed(b, spec, rest);
        lemma_slot_in_table(a.after_all(spec, rest), calls.last().0);
    }
}

/// A refused client that waits as long as it was advised is served, where nobody else drew on its
/// bucket meanwhile.
pub proof fn lemma_retry_is_served(buckets: LimiterView, spec: Bucket, peer: IpAddr, now_ms: u64)
    requires
        buckets.wf(),
        spec.refill_interval_ms > 0,
        buckets.answer(spec, peer, now_ms) is Limit,
        buckets.answer(spec, peer, now_ms)->retry_after_ms < u64::MAX,
        now_ms + buckets.answer(spec, peer, now_ms)->retry_after_ms <= u64::MAX,
    ensures
        buckets.after(spec, peer, now_ms).answer(
            spec,
            peer,
            (now_ms + buckets.answer(spec, peer, now_ms)->retry_after_ms) as u64,
        ) == RateLimitDecision::Allow,
{
    lemma_slot_in_table(buckets, peer);
    crate::bucket::lemma_advice_is_kept(buckets.cells[buckets.slot(peer)], 1, spec, now_ms);
}

/// Where a bucket can hold a token and refills, and the clock is not behind it, a refusal advises to
/// wait for one refill.
pub proof fn lemma_advice_is_one_refill(
    buckets: LimiterView,
    spec: Bucket,
    peer: IpAddr,
    now_ms: u64,
)
    requires
        buckets.wf(),
        spec.refill_interval_ms > 0,
        spec.capacity > 0,
        spec.refill_tokens > 0,
        buckets.answer(spec, peer, now_ms) is Limit,
        buckets.cells[buckets.slot(peer)].1 <= now_ms,
    ensures
        buckets.answer(spec, peer, now_ms)->retry_after_ms == spec.refill_interval_ms,
{
    crate::bucket::lemma_wait_for_one(buckets.cells[buckets.slot(peer)], spec, now_ms);
}

/// A clock that steps back refills nothing: once a client was refused at an instant, every request
/// of it at that instant or an earlier one is refused too.
pub proof fn lemma_steps_back_stay_refused(
    buckets: LimiterView,
    spec: Bucket,
    peer: IpAddr,
    now_ms: u64,
    times: Seq<u64>,
    earlier_ms: u64,
)
    requires
        buckets.wf(),
        spec.refill_interval_ms > 0,
        buckets.answer(spec, peer, now_ms) is Limit,
        forall|i: int| 0 <= i < times.len() ==> #[trigger] times[i] <= now_ms,
        earlier_ms <= now_ms,
    ensures
        buckets.after(spec, peer, now_ms).after_all(
            spec,
            times.map_values(|t: u64| (peer, t)),
        ).answer(spec, peer, earlier_ms) is Limit,
{
    lemma_slot_in_table(buckets, peer);
    lemma_steps_back_change_nothing(buckets, spec, peer, now_ms, times);
    crate::bucket::lemma_backward_clock_adds_nothing(
        buckets.cells[buckets.slot(peer)],
        1,
        spec,
        now_ms,
        earlier_ms,
    );
}

proof fn lemma_steps_back_change_nothing(
    buckets: LimiterView,
    spec: Bucket,
    peer: IpAddr,
    now_ms: u64,
    times: Seq<u64>,
)
    requires
        buckets.wf(),
        spec.refill_interval_ms > 0,
        buckets.answer(spec, peer, now_ms) is Limit,
        forall|i: int| 0 <= i < times.len() ==> #[trigger] times[i] <= now_ms,
    ensures
        buckets.after(spec, peer, now_ms).after_all(spec, times.map_values(|t: u64| (peer, t)))
            == buckets.after(spec, peer, now_ms),
    decreases times.len(),
{
    let first = buckets.after(spec, peer, now_ms);
    let calls = times.map_values(|t: u64| (peer, t));
    if times.len() > 0 {
        let rest = times.drop_last();
        assert forall|i: int| 0 <= i < rest.len() implies #[trigger] rest[i] <= now_ms by {
            assert(rest[i] == times[i]);
        }
        lemma_steps_back_change_nothing(buckets, spec, peer, now_ms, rest);
        assert(calls.drop_last() =~= rest.map_values(|t: u64| (peer, t)));
        lemma_slot_in_table(buckets, peer);
        crate::bucket::lemma_backward_clock_adds_nothing(
            buckets.cells[buckets.slot(peer)],
            1,
            spec,
            now_ms,
            times.last(),
        );
        assert(first.after(spec, peer, times.last()).cells =~= first.cells);
    }
}

/// The buckets after `n` requests of one client at one instant.
pub open spec fn after_burst(
    buckets: LimiterView,
    spec: Bucket,
    peer: IpAddr,
    now_ms: u64,
    n: nat,
) -> LimiterView
    decreases n,
{
    if n == 0 {
        buckets
    } else {
        after_burst(buckets, spec, peer, now_ms, (n - 1) as nat).after(spec, peer, now_ms)
    }
}

/// A new limiter starts full and drains: of requests of one client at one instant, the first
/// `burst` are allowed and every later one is refused, once the clock is far enough past the epoch
/// for an untouched bucket to have filled.
pub proof fn lemma_new_limiter_starts_full_and_drains(
    buckets: LimiterView,
    cfg: RouteRateLimit,
    peer: IpAddr,
    now_ms: u64,
    n: nat,
)
    requires
        buckets.wf(),
        forall|i: int| 0 <= i < buckets.cells.len() ==> #[trigger] buckets.cells[i] == (0u64, 0u64),
        (now_ms as int / REFILL_INTERVAL_MS as int) * cfg.rate >= cfg.burst,
    ensures
        after_burst(buckets, bucket_of(cfg), peer, now_ms, n).answer(bucket_of(cfg), peer, now_ms)
            == RateLimitDecision::Allow <==> n < cfg.burst,
{
    let spec = bucket_of(cfg);
    let slot = buckets.slot(peer);
    lemma_burst_drains_slot(buckets, spec, peer, now_ms, n);
    crate::bucket::lemma_burst(buckets.cells[slot], spec, now_ms, n);
    crate::bucket::lemma_zero_cell_reads_as_full(spec, now_ms);
}

/// However far the clock leaps, of requests of one client at one instant no more than the burst are
/// allowed.
pub proof fn lemma_leap_grants_a_burst(
    buckets: LimiterView,
    spec: Bucket,
    peer: IpAddr,
    now_ms: u64,
    n: nat,
)
    requires
        buckets.wf(),
        spec.refill_interval_ms > 0,
        after_burst(buckets, spec, peer, now_ms, n).answer(spec, peer, now_ms)
            == RateLimitDecision::Allow,
    ensures
        n < spec.capacity,
{
    let slot = buckets.slot(peer);
    lemma_burst_drains_slot(buckets, spec, peer, now_ms, n);
    crate::bucket::lemma_burst(buckets.cells[slot], spec, now_ms, n);
    crate::bucket::lemma_capacity_bounds_tokens(buckets.cells[slot], 1, spec, now_ms);
}

proof fn lemma_burst_drains_slot(
    buckets: LimiterView,
    spec: Bucket,
    peer: IpAddr,
    now_ms: u64,
    n: nat,
)
    requires
        buckets.wf(),
    ensures
        after_burst(buckets, spec, peer, now_ms, n).wf(),
        after_burst(buckets, spec, peer, now_ms, n).slot(peer) == buckets.slot(peer),
        after_burst(buckets, spec, peer, now_ms, n).cells[buckets.slot(peer)]
            == crate::bucket::drained(buckets.cells[buckets.slot(peer)], spec, now_ms, n),
    decreases n,
{
    if n > 0 {
        lemma_burst_drains_slot(buckets, spec, peer, now_ms, (n - 1) as nat);
        let before = after_burst(buckets, spec, peer, now_ms, (n - 1) as nat);
        lemma_slot_in_table(before, peer);
    }
}

/// The slot of an IPv4 client is the seeded hash of all four of its octets, padded to eight, reduced
/// to one of 65536 slots.
pub proof fn lemma_slot_of_v4(buckets: LimiterView, seed: Seq<Seq<u8>>, octets: [u8; 4])
    requires
        buckets.seed == Some(seed),
    ensures
        buckets.slot(IpAddr::V4(octets))
            == <DefaultHasher as vstd::std_specs::hash::DefaultHasherAdditionalSpecFns>::spec_finish(
            seed.push(seq![octets@[0], octets@[1], octets@[2], octets@[3], 0u8, 0u8, 0u8, 0u8]),
        ) as int % 65536,
{
    assert(key_of(IpAddr::V4(octets)) =~= seq![
        octets@[0],
        octets@[1],
        octets@[2],
        octets@[3],
        0u8,
        0u8,
        0u8,
        0u8,
    ]);
}

/// The slot of an IPv4 client that arrives mapped into IPv6 is the seeded hash of all four octets of
/// the IPv4 address, padded to eight.
pub proof fn lemma_slot_of_mapped_v4(buckets: LimiterView, seed: Seq<Seq<u8>>, octets: [u8; 16])
    requires
        buckets.seed == Some(seed),
        forall|i: int| 0 <= i < 10 ==> octets@[i] == 0,
        octets@[10] == 255,
        octets@[11] == 255,
    ensures
        buckets.slot(IpAddr::V6(octets))
            == <DefaultHasher as vstd::std_specs::hash::DefaultHasherAdditionalSpecFns>::spec_finish(
            seed.push(seq![octets@[12], octets@[13], octets@[14], octets@[15], 0u8, 0u8, 0u8, 0u8]),
        ) as int % 65536,
{
    assert(key_of(IpAddr::V6(octets)) =~= seq![
        octets@[12],
        octets@[13],
        octets@[14],
        octets@[15],
        0u8,
        0u8,
        0u8,
        0u8,
    ]);
}

/// The slot of any other IPv6 client is the seeded hash of all eight octets of its network.
pub proof fn lemma_slot_of_v6(buckets: LimiterView, seed: Seq<Seq<u8>>, octets: [u8; 16], at: int)
    requires
        buckets.seed == Some(seed),
        (0 <= at < 10 && octets@[at] != 0) || octets@[10] != 255 || octets@[11] != 255,
    ensures
        buckets.slot(IpAddr::V6(octets))
            == <DefaultHasher as vstd::std_specs::hash::DefaultHasherAdditionalSpecFns>::spec_finish(
            seed.push(
                seq![
                    octets@[0],
                    octets@[1],
                    octets@[2],
                    octets@[3],
                    octets@[4],
                    octets@[5],
                    octets@[6],
                    octets@[7],
                ],
            ),
        ) as int % 65536,
{
    assert(key_of(IpAddr::V6(octets)) =~= seq![
        octets@[0],
        octets@[1],
        octets@[2],
        octets@[3],
        octets@[4],
        octets@[5],
        octets@[6],
        octets@[7],
    ]);
}

/// What an operator declares is what the buckets get: the burst as their capacity, the rate as the
/// tokens of each refill, and a refill each thousand milliseconds. A route has one bucket, and
/// clients have 65536.
pub proof fn lemma_buckets_are_as_declared(cfg: RouteRateLimit)
    ensures
        bucket_of(cfg).capacity == cfg.burst,
        bucket_of(cfg).refill_tokens == cfg.rate,
        bucket_of(cfg).refill_interval_ms == 1000,
        slots_of_key(RateLimitKeyKind::Route) == 1,
        slots_of_key(RateLimitKeyKind::ClientIp) == 65536,
{
}

/// Each second brings the declared rate, no more and no less, up to the burst: a bucket asked once a
/// number of whole seconds after the instant it is credited up to holds that many rates more.
pub proof fn lemma_second_brings_the_rate(
    cfg: RouteRateLimit,
    cell: (u64, u64),
    secs: nat,
    millis: nat,
)
    requires
        millis < 1000,
        cell.0 <= cfg.burst,
        cell.1 + 1000 * secs + millis <= u64::MAX,
    ensures
        ({
            let now_ms = (cell.1 + 1000 * secs + millis) as u64;
            let held = cell.0 + secs * cfg.rate;
            let tokens = if held < cfg.burst {
                held
            } else {
                cfg.burst as int
            };
            &&& decided(cell, bucket_of(cfg), now_ms) == RateLimitDecision::Allow <==> tokens >= 1
            &&& tokens >= 1 ==> charged(cell, bucket_of(cfg), now_ms).0 == tokens - 1
            &&& tokens < 1 ==> charged(cell, bucket_of(cfg), now_ms).0 == tokens
            &&& charged(cell, bucket_of(cfg), now_ms).1 == cell.1 + 1000 * secs
        }),
{
    let now_ms = (cell.1 + 1000 * secs + millis) as u64;
    crate::bucket::lemma_whole_intervals(cell, bucket_of(cfg), now_ms, secs, millis);
}

/// A request touches the bucket of its client and no other.
pub proof fn lemma_other_buckets_stay(
    buckets: LimiterView,
    spec: Bucket,
    peer: IpAddr,
    now_ms: u64,
    i: int,
)
    requires
        buckets.wf(),
        0 <= i < buckets.cells.len(),
        i != buckets.slot(peer),
    ensures
        buckets.after(spec, peer, now_ms).cells[i] == buckets.cells[i],
        buckets.after(spec, peer, now_ms).cells[buckets.slot(peer)] == charged(
            buckets.cells[buckets.slot(peer)],
            spec,
            now_ms,
        ),
        buckets.answer(spec, peer, now_ms) == decided(
            buckets.cells[buckets.slot(peer)],
            spec,
            now_ms,
        ),
{
    lemma_slot_in_table(buckets, peer);
}

/// The key of a client holds, octet by octet, its IPv4 address and four zeros, or the network half of
/// its IPv6 address. Which of them it is for an IPv6 address goes by its first twelve octets.
pub proof fn lemma_key_octets(v4: [u8; 4], v6: [u8; 16], at: int)
    ensures
        key_of(IpAddr::V4(v4)) == seq![v4@[0], v4@[1], v4@[2], v4@[3], 0u8, 0u8, 0u8, 0u8],
        (forall|i: int| 0 <= i < 10 ==> v6@[i] == 0) && v6@[10] == 255 && v6@[11] == 255 ==> key_of(
            IpAddr::V6(v6),
        ) == seq![v6@[12], v6@[13], v6@[14], v6@[15], 0u8, 0u8, 0u8, 0u8],
        (0 <= at < 10 && v6@[at] != 0) || v6@[10] != 255 || v6@[11] != 255 ==> key_of(
            IpAddr::V6(v6),
        ) == seq![v6@[0], v6@[1], v6@[2], v6@[3], v6@[4], v6@[5], v6@[6], v6@[7]],
{
    assert(key_of(IpAddr::V4(v4)) =~= seq![v4@[0], v4@[1], v4@[2], v4@[3], 0u8, 0u8, 0u8, 0u8]);
    if (forall|i: int| 0 <= i < 10 ==> v6@[i] == 0) && v6@[10] == 255 && v6@[11] == 255 {
        assert(key_of(IpAddr::V6(v6)) =~= seq![
            v6@[12],
            v6@[13],
            v6@[14],
            v6@[15],
            0u8,
            0u8,
            0u8,
            0u8,
        ]);
    }
    if (0 <= at < 10 && v6@[at] != 0) || v6@[10] != 255 || v6@[11] != 255 {
        assert(mapped_v4(v6@) is None);
        assert(key_of(IpAddr::V6(v6)) =~= seq![
            v6@[0],
            v6@[1],
            v6@[2],
            v6@[3],
            v6@[4],
            v6@[5],
            v6@[6],
            v6@[7],
        ]);
    }
}

/// A hash stands for its remainder modulo 65536, and a limiter without a seed has one slot.
pub proof fn lemma_slot_is_the_remainder(hash: u64, buckets: LimiterView, peer: IpAddr)
    ensures
        slot_of_hash(hash) == hash as int % 65536,
        buckets.seed is None ==> buckets.slot(peer) == 0,
{
}

/// A request is for one token: it is answered and charged as the bucket answers and charges a cost
/// of one, and a refusal passes on the advice of the bucket.
pub proof fn lemma_request_costs_one(cell: (u64, u64), spec: Bucket, now_ms: u64)
    ensures
        ({
            let (next, outcome) = crate::bucket::applied(cell, 1, spec, now_ms);
            &&& charged(cell, spec, now_ms) == next
            &&& outcome.allowed ==> decided(cell, spec, now_ms) == RateLimitDecision::Allow
            &&& !outcome.allowed ==> decided(cell, spec, now_ms) is Limit && decided(
                cell,
                spec,
                now_ms,
            )->retry_after_ms == outcome.retry_after_ms
        }),
{
}

/// A request is answered from the bucket of its client alone, and charged to it, whatever the limiter
/// is keyed by. It leaves the seed and the number of buckets as they are.
pub proof fn lemma_request_is_met_from_its_bucket(
    buckets: LimiterView,
    spec: Bucket,
    peer: IpAddr,
    now_ms: u64,
)
    requires
        buckets.wf(),
    ensures
        0 <= buckets.slot(peer) < buckets.cells.len(),
        buckets.answer(spec, peer, now_ms) == decided(
            buckets.cells[buckets.slot(peer)],
            spec,
            now_ms,
        ),
        buckets.after(spec, peer, now_ms).cells[buckets.slot(peer)] == charged(
            buckets.cells[buckets.slot(peer)],
            spec,
            now_ms,
        ),
        buckets.after(spec, peer, now_ms).cells.len() == buckets.cells.len(),
        buckets.after(spec, peer, now_ms).seed == buckets.seed,
{
}

} // verus!
