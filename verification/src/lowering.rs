//! Lowers a filter entry of the manifest into the options that the host loads the filter under.
use vstd::prelude::*;

verus! {

/// How far a filter is trusted.
#[derive(Debug, Clone, Copy, PartialEq, Eq, Structural)]
pub enum IsolationKind {
    /// The instances of the filter are pooled.
    Trusted,
    /// Each request gets a fresh instance of the filter.
    Untrusted,
}

/// A scheme that a filter may call out under.
#[derive(Debug, Clone, Copy, PartialEq, Eq, Structural)]
pub enum SchemeKind {
    Https,
    Http,
}

impl SchemeKind {
    /// The port that a destination of the scheme has where none is given.
    pub open spec fn port(self) -> u16 {
        match self {
            SchemeKind::Https => 443,
            SchemeKind::Http => 80,
        }
    }

    /// The port that a destination of the scheme has where none is given.
    pub fn default_port(&self) -> (r: u16)
        ensures
            r == self.port(),
    {
        match self {
            SchemeKind::Https => 443,
            SchemeKind::Http => 80,
        }
    }
}

/// The token bucket that a filter is metered by.
#[derive(Debug, Clone, Copy, PartialEq, Eq, Structural)]
pub struct BucketLimit {
    pub capacity: u64,
    pub refill_tokens: u64,
    pub refill_interval_ms: u64,
}

/// A destination that a filter may call, as the manifest gives it.
#[derive(Debug)]
pub struct Destination {
    pub scheme: SchemeKind,
    pub host: String,
    /// The port, where it is not the one of the scheme.
    pub port: Option<u16>,
}

/// [`Destination`] as plain values.
#[verifier::ext_equal]
pub struct DestinationView {
    pub scheme: SchemeKind,
    pub host: Seq<char>,
    pub port: Option<u16>,
}

impl View for Destination {
    type V = DestinationView;

    open spec fn view(&self) -> DestinationView {
        DestinationView { scheme: self.scheme, host: self.host@, port: self.port }
    }
}

/// What a filter may call out to, as the manifest gives it.
#[derive(Debug)]
pub struct Outbound {
    pub allow: Vec<Destination>,
    /// The private networks that destinations may lie in.
    pub allow_private: Vec<String>,
    pub connect_timeout_ms: u64,
    pub total_timeout_ms: u64,
    pub max_response_bytes: u64,
    pub max_concurrent: u32,
}

/// [`Outbound`] as plain values.
#[verifier::ext_equal]
pub struct OutboundView {
    pub allow: Seq<DestinationView>,
    pub allow_private: Seq<Seq<char>>,
    pub connect_timeout_ms: u64,
    pub total_timeout_ms: u64,
    pub max_response_bytes: u64,
    pub max_concurrent: u32,
}

impl View for Outbound {
    type V = OutboundView;

    open spec fn view(&self) -> OutboundView {
        OutboundView {
            allow: self.allow@.map_values(|d: Destination| d@),
            allow_private: self.allow_private@.map_values(|n: String| n@),
            connect_timeout_ms: self.connect_timeout_ms,
            total_timeout_ms: self.total_timeout_ms,
            max_response_bytes: self.max_response_bytes,
            max_concurrent: self.max_concurrent,
        }
    }
}

/// What the manifest says of how a filter is loaded. An unset knob leaves the host's default.
#[derive(Debug)]
pub struct FilterEntry {
    pub isolation: IsolationKind,
    pub init_deadline_ms: Option<u64>,
    pub request_deadline_ms: Option<u64>,
    pub max_memory_bytes: Option<u64>,
    pub ratelimit: Option<BucketLimit>,
    pub outbound: Option<Outbound>,
}

/// [`FilterEntry`] as plain values.
#[verifier::ext_equal]
pub struct FilterView {
    pub isolation: IsolationKind,
    pub init_deadline_ms: Option<u64>,
    pub request_deadline_ms: Option<u64>,
    pub max_memory_bytes: Option<u64>,
    pub ratelimit: Option<BucketLimit>,
    pub outbound: Option<OutboundView>,
}

impl View for FilterEntry {
    type V = FilterView;

    open spec fn view(&self) -> FilterView {
        FilterView {
            isolation: self.isolation,
            init_deadline_ms: self.init_deadline_ms,
            request_deadline_ms: self.request_deadline_ms,
            max_memory_bytes: self.max_memory_bytes,
            ratelimit: self.ratelimit,
            outbound: match self.outbound {
                Some(outbound) => Some(outbound@),
                None => None,
            },
        }
    }
}

/// A destination that the host lets a filter call.
#[derive(Debug)]
pub struct AllowEntry {
    pub scheme: SchemeKind,
    pub host: String,
    pub port: u16,
}

/// [`AllowEntry`] as plain values.
#[verifier::ext_equal]
pub struct AllowView {
    pub scheme: SchemeKind,
    pub host: Seq<char>,
    pub port: u16,
}

impl View for AllowEntry {
    type V = AllowView;

    open spec fn view(&self) -> AllowView {
        AllowView { scheme: self.scheme, host: self.host@, port: self.port }
    }
}

/// What the host lets a filter call out to.
#[derive(Debug)]
pub struct OutboundOptions {
    pub allow: Vec<AllowEntry>,
    pub allow_private: Vec<String>,
    pub connect_timeout_ms: u64,
    pub total_timeout_ms: u64,
    pub max_response_bytes: u64,
    pub max_concurrent: u32,
}

/// [`OutboundOptions`] as plain values.
#[verifier::ext_equal]
pub struct OutboundOptionsView {
    pub allow: Seq<AllowView>,
    pub allow_private: Seq<Seq<char>>,
    pub connect_timeout_ms: u64,
    pub total_timeout_ms: u64,
    pub max_response_bytes: u64,
    pub max_concurrent: u32,
}

impl View for OutboundOptions {
    type V = OutboundOptionsView;

    open spec fn view(&self) -> OutboundOptionsView {
        OutboundOptionsView {
            allow: self.allow@.map_values(|a: AllowEntry| a@),
            allow_private: self.allow_private@.map_values(|n: String| n@),
            connect_timeout_ms: self.connect_timeout_ms,
            total_timeout_ms: self.total_timeout_ms,
            max_response_bytes: self.max_response_bytes,
            max_concurrent: self.max_concurrent,
        }
    }
}

/// The options that the host loads a filter under. An option that is not set has the host's
/// default.
#[derive(Debug)]
pub struct LoadOptions {
    pub isolation: IsolationKind,
    pub init_deadline_ms: Option<u64>,
    pub request_deadline_ms: Option<u64>,
    pub max_memory_bytes: Option<u64>,
    pub ratelimit: Option<BucketLimit>,
    pub outbound: Option<OutboundOptions>,
}

/// [`LoadOptions`] as plain values.
#[verifier::ext_equal]
pub struct OptionsView {
    pub isolation: IsolationKind,
    pub init_deadline_ms: Option<u64>,
    pub request_deadline_ms: Option<u64>,
    pub max_memory_bytes: Option<u64>,
    pub ratelimit: Option<BucketLimit>,
    pub outbound: Option<OutboundOptionsView>,
}

impl View for LoadOptions {
    type V = OptionsView;

    open spec fn view(&self) -> OptionsView {
        OptionsView {
            isolation: self.isolation,
            init_deadline_ms: self.init_deadline_ms,
            request_deadline_ms: self.request_deadline_ms,
            max_memory_bytes: self.max_memory_bytes,
            ratelimit: self.ratelimit,
            outbound: match self.outbound {
                Some(outbound) => Some(outbound@),
                None => None,
            },
        }
    }
}

impl OptionsView {
    /// The options with every default of the host.
    pub open spec fn defaults(isolation: IsolationKind) -> OptionsView {
        OptionsView {
            isolation,
            init_deadline_ms: None,
            request_deadline_ms: None,
            max_memory_bytes: None,
            ratelimit: None,
            outbound: None,
        }
    }

    /// The options that a filter entry describes.
    pub open spec fn of(entry: FilterView) -> OptionsView {
        OptionsView {
            isolation: entry.isolation,
            init_deadline_ms: entry.init_deadline_ms,
            request_deadline_ms: entry.request_deadline_ms,
            max_memory_bytes: entry.max_memory_bytes,
            ratelimit: entry.ratelimit,
            outbound: match entry.outbound {
                Some(outbound) => Some(OutboundOptionsView::of(outbound)),
                None => None,
            },
        }
    }
}

impl AllowView {
    /// The destination that the host allows for one of the manifest.
    pub open spec fn of(destination: DestinationView) -> AllowView {
        AllowView {
            scheme: destination.scheme,
            host: destination.host,
            port: match destination.port {
                Some(port) => port,
                None => destination.scheme.port(),
            },
        }
    }
}

impl OutboundOptionsView {
    /// What the host lets a filter call out to, for what the manifest gives.
    pub open spec fn of(outbound: OutboundView) -> OutboundOptionsView {
        OutboundOptionsView {
            allow: outbound.allow.map_values(|d: DestinationView| AllowView::of(d)),
            allow_private: outbound.allow_private,
            connect_timeout_ms: outbound.connect_timeout_ms,
            total_timeout_ms: outbound.total_timeout_ms,
            max_response_bytes: outbound.max_response_bytes,
            max_concurrent: outbound.max_concurrent,
        }
    }
}

impl LoadOptions {
    /// The options of a trusted filter, with the host's defaults.
    pub fn trusted() -> (r: Self)
        ensures
            r@ == OptionsView::defaults(IsolationKind::Trusted),
    {
        LoadOptions {
            isolation: IsolationKind::Trusted,
            init_deadline_ms: None,
            request_deadline_ms: None,
            max_memory_bytes: None,
            ratelimit: None,
            outbound: None,
        }
    }

    /// The options of an untrusted filter, with the host's defaults.
    pub fn untrusted() -> (r: Self)
        ensures
            r@ == OptionsView::defaults(IsolationKind::Untrusted),
    {
        LoadOptions {
            isolation: IsolationKind::Untrusted,
            init_deadline_ms: None,
            request_deadline_ms: None,
            max_memory_bytes: None,
            ratelimit: None,
            outbound: None,
        }
    }

    /// The options with another deadline for initialisation.
    pub fn with_init_deadline_ms(self, ms: u64) -> (r: Self)
        ensures
            r@ == (OptionsView { init_deadline_ms: Some(ms), ..self@ }),
    {
        LoadOptions { init_deadline_ms: Some(ms), ..self }
    }

    /// The options with another deadline for a request.
    pub fn with_request_deadline_ms(self, ms: u64) -> (r: Self)
        ensures
            r@ == (OptionsView { request_deadline_ms: Some(ms), ..self@ }),
    {
        LoadOptions { request_deadline_ms: Some(ms), ..self }
    }

    /// The options with another limit of memory.
    pub fn with_max_memory_bytes(self, bytes: u64) -> (r: Self)
        ensures
            r@ == (OptionsView { max_memory_bytes: Some(bytes), ..self@ }),
    {
        LoadOptions { max_memory_bytes: Some(bytes), ..self }
    }

    /// The options with a token bucket.
    pub fn with_ratelimit_bucket(
        self,
        capacity: u64,
        refill_tokens: u64,
        refill_interval_ms: u64,
    ) -> (r: Self)
        ensures
            r@ == (OptionsView {
                ratelimit: Some(BucketLimit { capacity, refill_tokens, refill_interval_ms }),
                ..self@
            }),
    {
        LoadOptions {
            ratelimit: Some(BucketLimit { capacity, refill_tokens, refill_interval_ms }),
            ..self
        }
    }

    /// The options with calls out to the given destinations.
    pub fn with_outbound(
        self,
        allow: Vec<AllowEntry>,
        allow_private: Vec<String>,
        connect_timeout_ms: u64,
        total_timeout_ms: u64,
        max_response_bytes: u64,
        max_concurrent: u32,
    ) -> (r: Self)
        ensures
            r@ == (OptionsView {
                outbound: Some(
                    OutboundOptionsView {
                        allow: allow@.map_values(|a: AllowEntry| a@),
                        allow_private: allow_private@.map_values(|n: String| n@),
                        connect_timeout_ms,
                        total_timeout_ms,
                        max_response_bytes,
                        max_concurrent,
                    },
                ),
                ..self@
            }),
    {
        LoadOptions {
            outbound: Some(
                OutboundOptions {
                    allow,
                    allow_private,
                    connect_timeout_ms,
                    total_timeout_ms,
                    max_response_bytes,
                    max_concurrent,
                },
            ),
            ..self
        }
    }
}

/// The destinations that the host allows for those of the manifest.
fn lower_destinations(allow: &Vec<Destination>) -> (r: Vec<AllowEntry>)
    ensures
        r@.map_values(|a: AllowEntry| a@) == allow@.map_values(|d: Destination| d@).map_values(
            |d: DestinationView| AllowView::of(d),
        ),
{
    let mut out: Vec<AllowEntry> = Vec::new();
    let mut i: usize = 0;
    while i < allow.len()
        invariant
            i <= allow@.len(),
            out@.len() == i,
            forall|j: int| 0 <= j < i ==> (#[trigger] out@[j])@ == AllowView::of(allow@[j]@),
        decreases allow@.len() - i,
    {
        let destination = &allow[i];
        let port: u16 = match destination.port {
            Some(port) => port,
            None => destination.scheme.default_port(),
        };
        out.push(
            AllowEntry { scheme: destination.scheme, host: destination.host.clone(), port },
        );
        i += 1;
    }
    assert(out@.map_values(|a: AllowEntry| a@) =~= allow@.map_values(
        |d: Destination| d@,
    ).map_values(|d: DestinationView| AllowView::of(d)));
    out
}

/// A copy of a list of texts.
fn copy_texts(texts: &Vec<String>) -> (r: Vec<String>)
    ensures
        r@.map_values(|n: String| n@) == texts@.map_values(|n: String| n@),
{
    let mut out: Vec<String> = Vec::new();
    let mut i: usize = 0;
    while i < texts.len()
        invariant
            i <= texts@.len(),
            out@.len() == i,
            forall|j: int| 0 <= j < i ==> (#[trigger] out@[j])@ == texts@[j]@,
        decreases texts@.len() - i,
    {
        out.push(texts[i].clone());
        i += 1;
    }
    assert(out@.map_values(|n: String| n@) =~= texts@.map_values(|n: String| n@));
    out
}

impl FilterEntry {
    /// The options that the host loads the filter under: the isolation, and every knob that is
    /// set. A knob that is not set keeps the host's default.
    pub fn load_options(&self) -> (r: LoadOptions)
        ensures
            r@ == OptionsView::of(self@),
    {
        let mut opts: LoadOptions = match self.isolation {
            IsolationKind::Trusted => LoadOptions::trusted(),
            IsolationKind::Untrusted => LoadOptions::untrusted(),
        };
        if let Some(ms) = self.init_deadline_ms {
            opts = opts.with_init_deadline_ms(ms);
        }
        if let Some(ms) = self.request_deadline_ms {
            opts = opts.with_request_deadline_ms(ms);
        }
        if let Some(bytes) = self.max_memory_bytes {
            opts = opts.with_max_memory_bytes(bytes);
        }
        if let Some(rl) = self.ratelimit {
            opts = opts.with_ratelimit_bucket(rl.capacity, rl.refill_tokens, rl.refill_interval_ms);
        }
        if let Some(ob) = &self.outbound {
            opts =
            opts.with_outbound(
                lower_destinations(&ob.allow),
                copy_texts(&ob.allow_private),
                ob.connect_timeout_ms,
                ob.total_timeout_ms,
                ob.max_response_bytes,
                ob.max_concurrent,
            );
        }
        opts
    }
}

/// A filter entry that sets no knob is loaded under the host's defaults for its isolation.
pub proof fn lemma_unset_knobs_keep_the_defaults(entry: FilterView)
    requires
        entry.init_deadline_ms is None,
        entry.request_deadline_ms is None,
        entry.max_memory_bytes is None,
        entry.ratelimit is None,
        entry.outbound is None,
    ensures
        OptionsView::of(entry) == OptionsView::defaults(entry.isolation),
{
}

/// Every destination that a filter may call has a port: the one of the manifest, or the one of its
/// scheme. No destination is added or lost, and none changes its place.
pub proof fn lemma_destinations_are_kept(outbound: OutboundView, i: int)
    requires
        0 <= i < outbound.allow.len(),
    ensures
        OutboundOptionsView::of(outbound).allow.len() == outbound.allow.len(),
        OutboundOptionsView::of(outbound).allow[i].scheme == outbound.allow[i].scheme,
        OutboundOptionsView::of(outbound).allow[i].host == outbound.allow[i].host,
        outbound.allow[i].port matches Some(port) ==> OutboundOptionsView::of(
            outbound,
        ).allow[i].port == port,
        outbound.allow[i].port is None && outbound.allow[i].scheme == SchemeKind::Https
            ==> OutboundOptionsView::of(outbound).allow[i].port == 443,
        outbound.allow[i].port is None && outbound.allow[i].scheme == SchemeKind::Http
            ==> OutboundOptionsView::of(outbound).allow[i].port == 80,
{
}

/// Every knob of a filter entry reaches the options as it was declared, each in its place.
pub proof fn lemma_knobs_are_handed_on(entry: FilterView)
    ensures
        OptionsView::of(entry).isolation == entry.isolation,
        OptionsView::of(entry).init_deadline_ms == entry.init_deadline_ms,
        OptionsView::of(entry).request_deadline_ms == entry.request_deadline_ms,
        OptionsView::of(entry).max_memory_bytes == entry.max_memory_bytes,
        OptionsView::of(entry).ratelimit == entry.ratelimit,
        entry.outbound is None <==> OptionsView::of(entry).outbound is None,
        entry.outbound matches Some(outbound) ==> {
            let lowered = OptionsView::of(entry).outbound->0;
            &&& lowered.allow_private == outbound.allow_private
            &&& lowered.connect_timeout_ms == outbound.connect_timeout_ms
            &&& lowered.total_timeout_ms == outbound.total_timeout_ms
            &&& lowered.max_response_bytes == outbound.max_response_bytes
            &&& lowered.max_concurrent == outbound.max_concurrent
            &&& lowered.allow.len() == outbound.allow.len()
            &&& forall|i: int|
                0 <= i < outbound.allow.len() ==> (#[trigger] lowered.allow[i]).scheme
                    == outbound.allow[i].scheme && lowered.allow[i].host == outbound.allow[i].host
            &&& forall|i: int|
                0 <= i < outbound.allow.len() ==> (#[trigger] lowered.allow[i]).port == match (
                    outbound.allow[i].port,
                    outbound.allow[i].scheme,
                ) {
                    (Some(port), _) => port,
                    (None, SchemeKind::Https) => 443,
                    (None, SchemeKind::Http) => 80,
                }
        },
{
}

/// Options that set nothing set nothing.
pub proof fn lemma_defaults_set_nothing(isolation: IsolationKind)
    ensures
        OptionsView::defaults(isolation).isolation == isolation,
        OptionsView::defaults(isolation).init_deadline_ms is None,
        OptionsView::defaults(isolation).request_deadline_ms is None,
        OptionsView::defaults(isolation).max_memory_bytes is None,
        OptionsView::defaults(isolation).ratelimit is None,
        OptionsView::defaults(isolation).outbound is None,
{
}

/// The values of a filter entry are the declared ones, each in its place.
pub proof fn lemma_entry_is_as_declared(entry: FilterEntry)
    ensures
        entry@.isolation == entry.isolation,
        entry@.init_deadline_ms == entry.init_deadline_ms,
        entry@.request_deadline_ms == entry.request_deadline_ms,
        entry@.max_memory_bytes == entry.max_memory_bytes,
        entry@.ratelimit == entry.ratelimit,
        entry.outbound is None <==> entry@.outbound is None,
        entry.outbound matches Some(outbound) ==> entry@.outbound == Some(outbound@),
{
}

/// The values of what a filter may call out to are the declared ones, each in its place.
pub proof fn lemma_outbound_is_as_declared(outbound: Outbound, i: int)
    ensures
        outbound@.connect_timeout_ms == outbound.connect_timeout_ms,
        outbound@.total_timeout_ms == outbound.total_timeout_ms,
        outbound@.max_response_bytes == outbound.max_response_bytes,
        outbound@.max_concurrent == outbound.max_concurrent,
        outbound@.allow.len() == outbound.allow@.len(),
        outbound@.allow_private.len() == outbound.allow_private@.len(),
        0 <= i < outbound.allow_private@.len() ==> outbound@.allow_private[i]
            == outbound.allow_private@[i]@,
        0 <= i < outbound.allow@.len() ==> outbound@.allow[i].scheme == outbound.allow@[i].scheme
            && outbound@.allow[i].host == outbound.allow@[i].host@ && outbound@.allow[i].port
            == outbound.allow@[i].port,
{
}

/// The values of load options are those that they hold, each in its place.
pub proof fn lemma_options_are_as_held(options: LoadOptions)
    ensures
        options@.isolation == options.isolation,
        options@.init_deadline_ms == options.init_deadline_ms,
        options@.request_deadline_ms == options.request_deadline_ms,
        options@.max_memory_bytes == options.max_memory_bytes,
        options@.ratelimit == options.ratelimit,
        options.outbound is None <==> options@.outbound is None,
        options.outbound matches Some(outbound) ==> options@.outbound == Some(outbound@),
{
}

/// The values of what the host lets a filter call out to are those held, each in its place.
pub proof fn lemma_outbound_options_are_as_held(outbound: OutboundOptions, i: int)
    ensures
        outbound@.connect_timeout_ms == outbound.connect_timeout_ms,
        outbound@.total_timeout_ms == outbound.total_timeout_ms,
        outbound@.max_response_bytes == outbound.max_response_bytes,
        outbound@.max_concurrent == outbound.max_concurrent,
        outbound@.allow.len() == outbound.allow@.len(),
        outbound@.allow_private.len() == outbound.allow_private@.len(),
        0 <= i < outbound.allow_private@.len() ==> outbound@.allow_private[i]
            == outbound.allow_private@[i]@,
        0 <= i < outbound.allow@.len() ==> outbound@.allow[i].scheme == outbound.allow@[i].scheme
            && outbound@.allow[i].host == outbound.allow@[i].host@ && outbound@.allow[i].port
            == outbound.allow@[i].port,
{
}

/// Where no port is given, it is 443 over HTTPS and 80 over HTTP.
pub proof fn lemma_default_ports(scheme: SchemeKind)
    ensures
        scheme == SchemeKind::Https ==> scheme.port() == 443,
        scheme == SchemeKind::Http ==> scheme.port() == 80,
{
}

} // verus!
