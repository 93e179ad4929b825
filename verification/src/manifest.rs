//! The parts of a manifest that describe upstreams: what the operator declares, and the rules that
//! a load-balancing configuration has to meet.
use vstd::prelude::*;

use crate::maglev::MAX_TABLE_SIZE;
use crate::prime::check_prime;

verus! {

/// The table size of a hashing upstream that names none.
pub const DEFAULT_TABLE_SIZE: u32 = 65537;

/// How an upstream's instances are probed.
#[derive(Debug)]
pub struct HealthConfig {
    /// The path that is requested.
    pub path: String,
    /// The time between two probes of one instance.
    pub interval_ms: u64,
    /// The time that one probe may take.
    pub timeout_ms: u64,
    /// The successes in a row that bring an instance back.
    pub healthy_threshold: u32,
    /// The failures in a row that take an instance out.
    pub unhealthy_threshold: u32,
    /// A port of its own for probes.
    pub port: Option<u16>,
}

/// [`HealthConfig`] as plain values.
#[verifier::ext_equal]
pub struct HealthView {
    pub path: Seq<char>,
    pub interval_ms: u64,
    pub timeout_ms: u64,
    pub healthy_threshold: u32,
    pub unhealthy_threshold: u32,
    pub port: Option<u16>,
}

impl View for HealthConfig {
    type V = HealthView;

    open spec fn view(&self) -> HealthView {
        HealthView {
            path: self.path@,
            interval_ms: self.interval_ms,
            timeout_ms: self.timeout_ms,
            healthy_threshold: self.healthy_threshold,
            unhealthy_threshold: self.unhealthy_threshold,
            port: self.port,
        }
    }
}

impl Clone for HealthConfig {
    fn clone(&self) -> (r: Self)
        ensures
            r@ == self@,
    {
        HealthConfig {
            path: self.path.clone(),
            interval_ms: self.interval_ms,
            timeout_ms: self.timeout_ms,
            healthy_threshold: self.healthy_threshold,
            unhealthy_threshold: self.unhealthy_threshold,
            port: self.port,
        }
    }
}

impl PartialEq for HealthConfig {
    fn eq(&self, other: &Self) -> (r: bool) {
        let same_port: bool = match (self.port, other.port) {
            (Some(a), Some(b)) => a == b,
            (None, None) => true,
            _ => false,
        };
        let r: bool = self.path == other.path && self.interval_ms == other.interval_ms
            && self.timeout_ms == other.timeout_ms && self.healthy_threshold
            == other.healthy_threshold && self.unhealthy_threshold == other.unhealthy_threshold
            && same_port;
        r
    }
}

impl vstd::std_specs::cmp::PartialEqSpecImpl for HealthConfig {
    open spec fn obeys_eq_spec() -> bool {
        true
    }

    open spec fn eq_spec(&self, other: &Self) -> bool {
        self@ == other@
    }
}

/// One address of an upstream.
#[derive(Debug)]
pub enum AddressSpec {
    /// An address of weight one.
    Bare(String),
    /// An address with a weight.
    Weighted {
        address: String,
        weight: u32,
    },
}

impl View for AddressSpec {
    type V = (Seq<char>, u32);

    open spec fn view(&self) -> (Seq<char>, u32) {
        match self {
            AddressSpec::Bare(address) => (address@, 1),
            AddressSpec::Weighted { address, weight } => (address@, *weight),
        }
    }
}

impl AddressSpec {
    /// The address.
    pub fn address(&self) -> (r: &str)
        ensures
            r@ == self@.0,
    {
        match self {
            AddressSpec::Bare(address) => address.as_str(),
            AddressSpec::Weighted { address, .. } => address.as_str(),
        }
    }

    /// The address, as it is stored.
    pub(crate) fn address_string(&self) -> (r: &String)
        ensures
            r@ == self@.0,
    {
        match self {
            AddressSpec::Bare(address) => address,
            AddressSpec::Weighted { address, .. } => address,
        }
    }

    /// The weight; one where none is given.
    pub fn weight(&self) -> (r: u32)
        ensures
            r == self@.1,
    {
        match self {
            AddressSpec::Bare(_) => 1,
            AddressSpec::Weighted { weight, .. } => *weight,
        }
    }
}

/// How an upstream spreads requests over its instances.
#[derive(Debug, Clone, Copy, PartialEq, Eq, Structural)]
pub enum LbAlgorithm {
    /// One instance after the other.
    RoundRobin,
    /// The less busy of two instances picked at random.
    LeastRequest,
    /// Consistent hashing of a request key.
    Maglev,
}

/// What a hashing upstream hashes.
#[derive(Debug, Clone, Copy, PartialEq, Eq, Structural)]
pub enum HashKeyKind {
    /// The value of a request header.
    Header,
    /// The address of the client.
    SourceIp,
}

/// The hash block of an upstream.
#[derive(Debug)]
pub struct HashConfig {
    /// What is hashed.
    pub key: HashKeyKind,
    /// The header whose value is hashed.
    pub header: Option<String>,
    /// The number of slots of the lookup table.
    pub table_size: u32,
}

/// [`HashConfig`] as plain values.
#[verifier::ext_equal]
pub struct HashView {
    pub key: HashKeyKind,
    pub header: Option<Seq<char>>,
    pub table_size: u32,
}

impl View for HashConfig {
    type V = HashView;

    open spec fn view(&self) -> HashView {
        HashView {
            key: self.key,
            header: match self.header {
                Some(header) => Some(header@),
                None => None,
            },
            table_size: self.table_size,
        }
    }
}

/// The limit on concurrent requests to an upstream.
#[derive(Debug, Clone, Copy, PartialEq, Eq, Structural)]
pub struct CircuitBreaker {
    /// The requests that may be in flight at once; zero for no limit.
    pub max_requests: u32,
}

impl Default for CircuitBreaker {
    fn default() -> (r: Self)
        ensures
            r.max_requests == 0,
    {
        CircuitBreaker { max_requests: 0 }
    }
}

/// When an instance that keeps failing requests is set aside.
#[derive(Debug, Clone, Copy, PartialEq, Eq, Structural)]
pub struct OutlierDetection {
    /// The gateway failures in a row that eject an instance; zero to eject none.
    pub consecutive_gateway_failures: u32,
    /// How long the first ejection lasts.
    pub base_ejection_time_ms: u64,
    /// The share of instances that may be ejected at once.
    pub max_ejection_percent: u32,
}

impl Default for OutlierDetection {
    fn default() -> (r: Self)
        ensures
            r.consecutive_gateway_failures == 0,
            r.base_ejection_time_ms == 0,
            r.max_ejection_percent == 0,
    {
        OutlierDetection {
            consecutive_gateway_failures: 0,
            base_ejection_time_ms: 0,
            max_ejection_percent: 0,
        }
    }
}

/// An upstream as the operator declares it.
#[derive(Debug)]
pub struct Upstream {
    /// The name that routes refer to.
    pub name: String,
    /// The instances.
    pub addresses: Vec<AddressSpec>,
    /// How requests are spread.
    pub lb_algorithm: LbAlgorithm,
    /// The hash block.
    pub hash: Option<HashConfig>,
    /// How instances are probed.
    pub health: HealthConfig,
    /// The time that one attempt may take.
    pub request_timeout_ms: u64,
    /// The attempts after the first.
    pub max_retries: u32,
    /// The time that all attempts together may take; zero for no limit.
    pub overall_timeout_ms: u64,
    /// The limit on concurrent requests.
    pub circuit_breaker: CircuitBreaker,
    /// When failing instances are set aside.
    pub outlier_detection: OutlierDetection,
}

/// [`Upstream`] as plain values.
#[verifier::ext_equal]
pub struct UpstreamView {
    pub name: Seq<char>,
    pub addresses: Seq<(Seq<char>, u32)>,
    pub lb_algorithm: LbAlgorithm,
    pub hash: Option<HashView>,
    pub health: HealthView,
    pub request_timeout_ms: u64,
    pub max_retries: u32,
    pub overall_timeout_ms: u64,
    pub circuit_breaker: CircuitBreaker,
    pub outlier_detection: OutlierDetection,
}

impl View for Upstream {
    type V = UpstreamView;

    open spec fn view(&self) -> UpstreamView {
        UpstreamView {
            name: self.name@,
            addresses: self.addresses@.map_values(|a: AddressSpec| a@),
            lb_algorithm: self.lb_algorithm,
            hash: match self.hash {
                Some(hash) => Some(hash@),
                None => None,
            },
            health: self.health@,
            request_timeout_ms: self.request_timeout_ms,
            max_retries: self.max_retries,
            overall_timeout_ms: self.overall_timeout_ms,
            circuit_breaker: self.circuit_breaker,
            outlier_detection: self.outlier_detection,
        }
    }
}

/// Why a load-balancing configuration is refused.
#[derive(Debug, Clone, Copy, PartialEq, Eq, Structural)]
pub enum LbFault {
    /// A hashing upstream has no hash block.
    MissingHash,
    /// The lookup table is larger than [`MAX_TABLE_SIZE`].
    TableTooLarge,
    /// The size of the lookup table is not a prime.
    TableNotPrime,
    /// Every address of a hashing upstream has weight zero, so none could own a slot.
    NoWeight,
}

/// Why the load-balancing configuration of an upstream is refused, if it is.
pub open spec fn lb_fault(up: UpstreamView) -> Option<LbFault> {
    if up.lb_algorithm != LbAlgorithm::Maglev {
        None
    } else {
        match up.hash {
            None => Some(LbFault::MissingHash),
            Some(hash) => if hash.table_size > MAX_TABLE_SIZE {
                Some(LbFault::TableTooLarge)
            } else if !crate::prime::is_prime(hash.table_size as int) {
                Some(LbFault::TableNotPrime)
            } else if forall|k: int|
                0 <= k < up.addresses.len() ==> (#[trigger] up.addresses[k]).1 == 0 {
                Some(LbFault::NoWeight)
            } else {
                None
            },
        }
    }
}

impl Upstream {
    /// Checks the load-balancing configuration: a hashing upstream has a hash block with a prime
    /// table size in range, and an address that has a weight.
    pub fn validate_lb(&self) -> (r: Result<(), LbFault>)
        ensures
            match r {
                Ok(()) => lb_fault(self@) is None,
                Err(fault) => lb_fault(self@) == Some(fault),
            },
    {
        if self.lb_algorithm != LbAlgorithm::Maglev {
            return Ok(());
        }
        match &self.hash {
            None => Err(LbFault::MissingHash),
            Some(hash) => {
                if hash.table_size > MAX_TABLE_SIZE {
                    return Err(LbFault::TableTooLarge);
                }
                if !check_prime(hash.table_size) {
                    return Err(LbFault::TableNotPrime);
                }
                let mut k: usize = 0;
                while k < self.addresses.len()
                    invariant
                        k <= self.addresses@.len(),
                        self.lb_algorithm == LbAlgorithm::Maglev,
                        self@.hash == Some(hash@),
                        hash.table_size <= MAX_TABLE_SIZE,
                        crate::prime::is_prime(hash.table_size as int),
                        forall|i: int| 0 <= i < k ==> (#[trigger] self@.addresses[i]).1 == 0,
                    decreases self.addresses@.len() - k,
                {
                    assert(self@.addresses[k as int] == self.addresses@[k as int]@);
                    if self.addresses[k].weight() > 0 {
                        return Ok(());
                    }
                    k = k + 1;
                }
                Err(LbFault::NoWeight)
            },
        }
    }
}

/// The values of a health policy are the declared ones, each in its place.
pub proof fn lemma_health_is_as_declared(health: HealthConfig)
    ensures
        health@.path == health.path@,
        health@.interval_ms == health.interval_ms,
        health@.timeout_ms == health.timeout_ms,
        health@.healthy_threshold == health.healthy_threshold,
        health@.unhealthy_threshold == health.unhealthy_threshold,
        health@.port == health.port,
{
}

/// The values of an upstream are the declared ones, each in its place. An address without a weight
/// weighs one.
pub proof fn lemma_upstream_is_as_declared(up: Upstream, k: int)
    ensures
        up@.name == up.name@,
        up@.addresses.len() == up.addresses@.len(),
        0 <= k < up.addresses@.len() ==> match up.addresses@[k] {
            AddressSpec::Bare(address) => up@.addresses[k].0 == address@ && up@.addresses[k].1 == 1,
            AddressSpec::Weighted { address, weight } => up@.addresses[k].0 == address@
                && up@.addresses[k].1 == weight,
        },
        up@.lb_algorithm == up.lb_algorithm,
        up@.health == up.health@,
        up@.request_timeout_ms == up.request_timeout_ms,
        up@.max_retries == up.max_retries,
        up@.overall_timeout_ms == up.overall_timeout_ms,
        up@.circuit_breaker.max_requests == up.circuit_breaker.max_requests,
        up@.outlier_detection.consecutive_gateway_failures
            == up.outlier_detection.consecutive_gateway_failures,
        up@.outlier_detection.base_ejection_time_ms == up.outlier_detection.base_ejection_time_ms,
        up@.outlier_detection.max_ejection_percent == up.outlier_detection.max_ejection_percent,
        up.hash is None ==> up@.hash is None,
        up.hash matches Some(hash) ==> up@.hash is Some && up@.hash->0.key == hash.key
            && up@.hash->0.table_size == hash.table_size,
        up.hash matches Some(hash) ==> match hash.header {
            Some(header) => up@.hash->0.header == Some(header@),
            None => up@.hash->0.header is None,
        },
{
}

/// Which load-balancing configurations are accepted: any that does not hash, and one that hashes
/// over a table whose size is a prime of at most 5000011 and has an address with a weight.
pub proof fn lemma_which_lb_is_accepted(up: UpstreamView)
    ensures
        up.lb_algorithm != LbAlgorithm::Maglev ==> lb_fault(up) is None,
        up.lb_algorithm == LbAlgorithm::Maglev ==> (lb_fault(up) is None <==> {
            &&& up.hash is Some
            &&& 2 <= up.hash->0.table_size <= 5_000_011
            &&& forall|a: int, b: int|
                2 <= a && 2 <= b ==> #[trigger] (a * b) != up.hash->0.table_size
            &&& exists|k: int| 0 <= k < up.addresses.len() && (#[trigger] up.addresses[k]).1 > 0
        }),
{
    if up.hash is Some {
        crate::prime::lemma_prime_has_no_factors(up.hash->0.table_size as int);
    }
}

/// Why a hashing configuration is refused: the first that applies of a missing block, a table of
/// more than 5000011 slots, a number of slots that is no prime, and no address with a weight.
pub proof fn lemma_why_lb_is_refused(up: UpstreamView)
    requires
        up.lb_algorithm == LbAlgorithm::Maglev,
    ensures
        lb_fault(up) == Some(LbFault::MissingHash) <==> up.hash is None,
        lb_fault(up) == Some(LbFault::TableTooLarge) <==> up.hash is Some && up.hash->0.table_size
            > 5_000_011,
        lb_fault(up) == Some(LbFault::TableNotPrime) <==> up.hash is Some && up.hash->0.table_size
            <= 5_000_011 && (up.hash->0.table_size < 2 || exists|a: int, b: int|
            2 <= a && 2 <= b && #[trigger] (a * b) == up.hash->0.table_size),
{
    if up.hash is Some {
        crate::prime::lemma_prime_has_no_factors(up.hash->0.table_size as int);
    }
}

} // verus!
