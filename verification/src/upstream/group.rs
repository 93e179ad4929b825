//! A group: the instances of one upstream with the settings that requests to it run under.
use vstd::prelude::*;

use crate::maglev::MaglevTable;
use crate::manifest::{HashConfig, HashKeyKind, HealthConfig};

verus! {

/// How a group picks an instance.
#[derive(Debug)]
pub enum LbState {
    /// One instance after the other.
    RoundRobin,
    /// The less busy of two instances picked at random.
    LeastRequest,
    /// The instance that owns the slot of the request's key.
    Maglev(MaglevTable),
}

/// [`LbState`] as plain values.
#[verifier::ext_equal]
pub enum LbView {
    RoundRobin,
    LeastRequest,
    Maglev(Seq<int>),
}

impl View for LbState {
    type V = LbView;

    open spec fn view(&self) -> LbView {
        match self {
            LbState::RoundRobin => LbView::RoundRobin,
            LbState::LeastRequest => LbView::LeastRequest,
            LbState::Maglev(table) => LbView::Maglev(table@),
        }
    }
}

/// Where a hashing group takes the key of a request from.
#[derive(Debug)]
pub enum HashKeySource {
    /// The value of the header with this name, in lower case.
    Header(String),
    /// The address of the client.
    SourceIp,
}

/// [`HashKeySource`] as plain values.
#[verifier::ext_equal]
pub enum HashKeyView {
    Header(Seq<char>),
    SourceIp,
}

impl View for HashKeySource {
    type V = HashKeyView;

    open spec fn view(&self) -> HashKeyView {
        match self {
            HashKeySource::Header(name) => HashKeyView::Header(name@),
            HashKeySource::SourceIp => HashKeyView::SourceIp,
        }
    }
}

/// A character with `A` to `Z` moved to `a` to `z`, and every other one left alone.
pub open spec fn ascii_lower(c: char) -> char {
    if 'A' <= c <= 'Z' {
        ((c as u32) + 32) as char
    } else {
        c
    }
}

/// `str::to_ascii_lowercase` copies a string with its ASCII capital letters in lower case and
/// everything else unchanged.
pub assume_specification[ str::to_ascii_lowercase ](s: &str) -> (r: String)
    ensures
        r@ == s@.map_values(|c: char| ascii_lower(c)),
;

impl HashKeyView {
    /// The key source that a hash block describes.
    pub open spec fn of(hash: crate::manifest::HashView) -> HashKeyView {
        match hash.key {
            HashKeyKind::Header => HashKeyView::Header(
                match hash.header {
                    Some(header) => header.map_values(|c: char| ascii_lower(c)),
                    None => Seq::empty(),
                },
            ),
            HashKeyKind::SourceIp => HashKeyView::SourceIp,
        }
    }
}

impl HashKeySource {
    /// The key source that a hash block describes. Header names are compared in lower case.
    pub fn of(hash: &HashConfig) -> (r: Self)
        ensures
            r@ == HashKeyView::of(hash@),
    {
        match hash.key {
            HashKeyKind::Header => match &hash.header {
                Some(header) => HashKeySource::Header(header.as_str().to_ascii_lowercase()),
                None => HashKeySource::Header(String::new()),
            },
            HashKeyKind::SourceIp => HashKeySource::SourceIp,
        }
    }
}

/// What is counted of a group while it serves.
#[derive(Debug, Clone, Copy, PartialEq, Eq, Structural)]
pub struct GroupCounters {
    /// The rotation counter of round-robin picks.
    pub rr: usize,
    /// The requests in flight.
    pub in_flight: usize,
}

/// The instances of one upstream with the settings that requests to it run under. A group is shared
/// by all who resolved it, and never changes.
#[derive(Debug)]
pub struct UpstreamGroup {
    /// The identifier that the registry gave the group, by which its counters are found.
    pub id: u64,
    /// The name of the upstream.
    pub name: String,
    /// The health policy that its instances run under.
    pub health: HealthConfig,
    /// The instances, by the identifiers that the registry gave them.
    pub instances: Vec<u64>,
    /// The time that one attempt may take.
    pub request_timeout_ms: u64,
    /// The time that all attempts together may take; zero for no limit.
    pub overall_timeout_ms: u64,
    /// The attempts after the first.
    pub max_retries: u32,
    /// The requests that may be in flight at once; zero for no limit.
    pub max_requests: usize,
    /// The gateway failures in a row that eject an instance.
    pub outlier_consecutive: u32,
    /// How long the first ejection lasts.
    pub outlier_base_ejection_ms: u64,
    /// The share of instances that may be ejected at once.
    pub outlier_max_ejection_percent: u32,
    /// How an instance is picked.
    pub lb: LbState,
    /// Where the key of a request comes from.
    pub hash_key: Option<HashKeySource>,
}

/// [`UpstreamGroup`] as plain values.
#[verifier::ext_equal]
pub struct GroupView {
    pub id: u64,
    pub name: Seq<char>,
    pub health: crate::manifest::HealthView,
    pub instances: Seq<u64>,
    pub request_timeout_ms: u64,
    pub overall_timeout_ms: u64,
    pub max_retries: u32,
    pub max_requests: usize,
    pub outlier_consecutive: u32,
    pub outlier_base_ejection_ms: u64,
    pub outlier_max_ejection_percent: u32,
    pub lb: LbView,
    pub hash_key: Option<HashKeyView>,
}

impl View for UpstreamGroup {
    type V = GroupView;

    open spec fn view(&self) -> GroupView {
        GroupView {
            id: self.id,
            name: self.name@,
            health: self.health@,
            instances: self.instances@,
            request_timeout_ms: self.request_timeout_ms,
            overall_timeout_ms: self.overall_timeout_ms,
            max_retries: self.max_retries,
            max_requests: self.max_requests,
            outlier_consecutive: self.outlier_consecutive,
            outlier_base_ejection_ms: self.outlier_base_ejection_ms,
            outlier_max_ejection_percent: self.outlier_max_ejection_percent,
            lb: self.lb@,
            hash_key: match self.hash_key {
                Some(source) => Some(source@),
                None => None,
            },
        }
    }
}

/// The values of a group are those that it holds, each in its place.
pub proof fn lemma_group_is_as_held(group: UpstreamGroup)
    ensures
        group@.id == group.id,
        group@.name == group.name@,
        group@.health == group.health@,
        group@.instances == group.instances@,
        group@.request_timeout_ms == group.request_timeout_ms,
        group@.overall_timeout_ms == group.overall_timeout_ms,
        group@.max_retries == group.max_retries,
        group@.max_requests == group.max_requests,
        group@.outlier_consecutive == group.outlier_consecutive,
        group@.outlier_base_ejection_ms == group.outlier_base_ejection_ms,
        group@.outlier_max_ejection_percent == group.outlier_max_ejection_percent,
        group.lb is RoundRobin <==> group@.lb is RoundRobin,
        group.lb is LeastRequest <==> group@.lb is LeastRequest,
        group.lb matches LbState::Maglev(table) ==> group@.lb == LbView::Maglev(table@),
        group.hash_key is None <==> group@.hash_key is None,
        group.hash_key matches Some(HashKeySource::Header(name)) ==> group@.hash_key == Some(
            HashKeyView::Header(name@),
        ),
        group.hash_key matches Some(HashKeySource::SourceIp) ==> group@.hash_key == Some(
            HashKeyView::SourceIp,
        ),
{
}

/// A hashing group takes its key from the header that the hash block names, in lower case, or from
/// the address of the client, as the block says.
pub proof fn lemma_key_is_as_declared(hash: crate::manifest::HashView)
    ensures
        hash.key == HashKeyKind::SourceIp ==> HashKeyView::of(hash) == HashKeyView::SourceIp,
        hash.key == HashKeyKind::Header ==> HashKeyView::of(hash) is Header,
        hash.key == HashKeyKind::Header && hash.header is None ==> HashKeyView::of(hash)->Header_0
            == Seq::<char>::empty(),
        hash.key == HashKeyKind::Header && hash.header is Some ==> {
            &&& HashKeyView::of(hash)->Header_0.len() == hash.header->0.len()
            &&& forall|i: int|
                0 <= i < hash.header->0.len() ==> #[trigger] HashKeyView::of(hash)->Header_0[i]
                    == if 'A' <= hash.header->0[i] <= 'Z' {
                    ((hash.header->0[i] as u32) + 32) as char
                } else {
                    hash.header->0[i]
                }
        },
{
}

} // verus!
