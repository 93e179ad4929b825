//! One instance of an upstream and its health.
use vstd::prelude::*;

use crate::manifest::HealthConfig;

verus! {

/// What probes have shown of an instance.
#[derive(Debug, Clone, Copy, PartialEq, Eq, Structural)]
pub struct ProbeState {
    /// Whether the instance may serve requests.
    pub healthy: bool,
    /// Whether a probe ever succeeded.
    pub proven: bool,
    /// The successes since the last failure.
    pub successes: u32,
    /// The failures since the last success.
    pub failures: u32,
}

impl ProbeState {
    /// The state of an instance that was never probed: it may not serve yet.
    pub open spec fn pessimistic() -> ProbeState {
        ProbeState { healthy: false, proven: false, successes: 0, failures: 0 }
    }

    /// The state after a successful probe. The first success ever promotes the instance at once;
    /// later it takes `healthy_threshold` successes in a row to bring it back.
    pub open spec fn succeeded(self, healthy_threshold: u32) -> ProbeState {
        let successes = self.successes.saturating_add(1);
        ProbeState {
            healthy: self.healthy || !self.proven || successes >= healthy_threshold,
            proven: true,
            successes,
            failures: 0,
        }
    }

    /// The state after a failed probe. It takes `unhealthy_threshold` failures in a row to take a
    /// healthy instance out.
    pub open spec fn failed(self, unhealthy_threshold: u32) -> ProbeState {
        let failures = self.failures.saturating_add(1);
        ProbeState {
            healthy: self.healthy && failures < unhealthy_threshold,
            proven: self.proven,
            successes: 0,
            failures,
        }
    }

    /// The state after `n` failed probes in a row.
    pub open spec fn failed_times(self, unhealthy_threshold: u32, n: nat) -> ProbeState
        decreases n,
    {
        if n == 0 {
            self
        } else {
            self.failed_times(unhealthy_threshold, (n - 1) as nat).failed(unhealthy_threshold)
        }
    }

    /// The state after `n` successful probes in a row.
    pub open spec fn succeeded_times(self, healthy_threshold: u32, n: nat) -> ProbeState
        decreases n,
    {
        if n == 0 {
            self
        } else {
            self.succeeded_times(healthy_threshold, (n - 1) as nat).succeeded(healthy_threshold)
        }
    }
}

/// One instance of an upstream.
#[derive(Debug)]
pub struct UpstreamInstance {
    address: String,
    weight: u32,
    healthy_threshold: u32,
    unhealthy_threshold: u32,
    state: ProbeState,
}

/// [`UpstreamInstance`] as plain values.
#[verifier::ext_equal]
pub struct InstanceView {
    pub address: Seq<char>,
    pub weight: u32,
    pub healthy_threshold: u32,
    pub unhealthy_threshold: u32,
    pub state: ProbeState,
}

impl InstanceView {
    /// A new instance under a health policy.
    pub open spec fn fresh(
        address: Seq<char>,
        weight: u32,
        health: crate::manifest::HealthView,
    ) -> InstanceView {
        InstanceView {
            address,
            weight,
            healthy_threshold: health.healthy_threshold,
            unhealthy_threshold: health.unhealthy_threshold,
            state: ProbeState::pessimistic(),
        }
    }

    /// The instance after a successful probe.
    pub open spec fn succeeded(self) -> InstanceView {
        InstanceView { state: self.state.succeeded(self.healthy_threshold), ..self }
    }

    /// The instance after a failed probe.
    pub open spec fn failed(self) -> InstanceView {
        InstanceView { state: self.state.failed(self.unhealthy_threshold), ..self }
    }
}

impl View for UpstreamInstance {
    type V = InstanceView;

    closed spec fn view(&self) -> InstanceView {
        InstanceView {
            address: self.address@,
            weight: self.weight,
            healthy_threshold: self.healthy_threshold,
            unhealthy_threshold: self.unhealthy_threshold,
            state: self.state,
        }
    }
}

impl UpstreamInstance {
    /// A new instance. It starts pessimistic: it serves nothing until a probe succeeds.
    pub fn new(address: String, weight: u32, health: &HealthConfig) -> (r: Self)
        ensures
            r@ == InstanceView::fresh(address@, weight, health@),
    {
        UpstreamInstance {
            address,
            weight,
            healthy_threshold: health.healthy_threshold,
            unhealthy_threshold: health.unhealthy_threshold,
            state: ProbeState { healthy: false, proven: false, successes: 0, failures: 0 },
        }
    }

    /// The address.
    pub fn address(&self) -> (r: &str)
        ensures
            r@ == self@.address,
    {
        self.address.as_str()
    }

    /// The weight.
    pub fn weight(&self) -> (r: u32)
        ensures
            r == self@.weight,
    {
        self.weight
    }

    /// Whether the instance may serve requests.
    pub fn is_healthy(&self) -> (r: bool)
        ensures
            r == self@.state.healthy,
    {
        self.state.healthy
    }

    /// Whether this is the instance that an address and a weight describe.
    pub fn serves(&self, address: &String, weight: u32) -> (r: bool)
        ensures
            r == (self@.address == address@ && self@.weight == weight),
    {
        self.address == *address && self.weight == weight
    }

    /// Takes note of a successful probe.
    pub fn record_probe_success(&mut self)
        ensures
            final(self)@ == old(self)@.succeeded(),
    {
        let successes: u32 = self.state.successes.saturating_add(1);
        let healthy: bool = self.state.healthy || !self.state.proven || successes
            >= self.healthy_threshold;
        self.state = ProbeState { healthy, proven: true, successes, failures: 0 };
    }

    /// Takes note of a failed probe.
    pub fn record_probe_failure(&mut self)
        ensures
            final(self)@ == old(self)@.failed(),
    {
        let failures: u32 = self.state.failures.saturating_add(1);
        let healthy: bool = self.state.healthy && failures < self.unhealthy_threshold;
        self.state = ProbeState { healthy, proven: self.state.proven, successes: 0, failures };
    }
}

/// The first success promotes a new instance, however many failures came before it and whatever
/// the threshold: the pessimistic start lasts until one probe succeeds.
pub proof fn lemma_first_success_promotes(
    healthy_threshold: u32,
    unhealthy_threshold: u32,
    failures: nat,
)
    ensures
        !ProbeState::pessimistic().failed_times(unhealthy_threshold, failures).healthy,
        ProbeState::pessimistic().failed_times(unhealthy_threshold, failures).succeeded(
            healthy_threshold,
        ).healthy,
{
    lemma_failures_never_promote(ProbeState::pessimistic(), unhealthy_threshold, failures);
}

proof fn lemma_failures_never_promote(state: ProbeState, threshold: u32, n: nat)
    requires
        !state.healthy,
    ensures
        !state.failed_times(threshold, n).healthy,
        state.failed_times(threshold, n).proven == state.proven,
    decreases n,
{
    if n > 0 {
        lemma_failures_never_promote(state, threshold, (n - 1) as nat);
    }
}

/// A healthy instance whose last probe succeeded stays in service through fewer failures in a row
/// than the threshold, and is out of service from the failure that reaches it on.
pub proof fn lemma_failures_in_a_row(state: ProbeState, threshold: u32, n: nat)
    requires
        state.healthy,
        state.failures == 0,
        threshold > 0,
    ensures
        state.failed_times(threshold, n).healthy <==> n < threshold,
{
    lemma_failures_counted(state, threshold, n);
}

proof fn lemma_failures_counted(state: ProbeState, threshold: u32, n: nat)
    requires
        state.healthy,
        state.failures == 0,
        threshold > 0,
    ensures
        state.failed_times(threshold, n).healthy <==> n < threshold,
        state.failed_times(threshold, n).failures == if n < u32::MAX {
            n as int
        } else {
            u32::MAX as int
        },
    decreases n,
{
    if n > 0 {
        lemma_failures_counted(state, threshold, (n - 1) as nat);
    }
}

/// An instance that was taken out of service comes back with the success in a row that reaches the
/// threshold, and not before.
pub proof fn lemma_successes_in_a_row(state: ProbeState, threshold: u32, n: nat)
    requires
        !state.healthy,
        state.proven,
        state.successes == 0,
    ensures
        n > 0 ==> (state.succeeded_times(threshold, n).healthy <==> n >= threshold),
{
    lemma_successes_counted(state, threshold, n);
}

proof fn lemma_successes_counted(state: ProbeState, threshold: u32, n: nat)
    requires
        !state.healthy,
        state.proven,
        state.successes == 0,
    ensures
        state.succeeded_times(threshold, n).healthy <==> n > 0 && n >= threshold,
        state.succeeded_times(threshold, n).proven,
        state.succeeded_times(threshold, n).successes == if n < u32::MAX {
            n as int
        } else {
            u32::MAX as int
        },
    decreases n,
{
    if n > 0 {
        lemma_successes_counted(state, threshold, (n - 1) as nat);
    }
}

impl InstanceView {
    /// The instance after `n` failed probes in a row.
    pub open spec fn failed_in_a_row(self, n: nat) -> InstanceView
        decreases n,
    {
        if n == 0 {
            self
        } else {
            self.failed_in_a_row((n - 1) as nat).failed()
        }
    }

    /// The instance after `n` successful probes in a row.
    pub open spec fn succeeded_in_a_row(self, n: nat) -> InstanceView
        decreases n,
    {
        if n == 0 {
            self
        } else {
            self.succeeded_in_a_row((n - 1) as nat).succeeded()
        }
    }
}

/// A new instance has the address and the weight that were given and the thresholds of its health
/// policy, and may not serve. It stays out through any number of failures, and the first success
/// brings it in.
pub proof fn lemma_fresh_instance_is_as_declared(
    address: Seq<char>,
    weight: u32,
    health: crate::manifest::HealthView,
    n: nat,
)
    ensures
        InstanceView::fresh(address, weight, health).address == address,
        InstanceView::fresh(address, weight, health).weight == weight,
        InstanceView::fresh(address, weight, health).healthy_threshold == health.healthy_threshold,
        InstanceView::fresh(address, weight, health).unhealthy_threshold
            == health.unhealthy_threshold,
        !InstanceView::fresh(address, weight, health).failed_in_a_row(n).state.healthy,
        InstanceView::fresh(address, weight, health).failed_in_a_row(
            n,
        ).succeeded().state.healthy,
{
    let instance = InstanceView::fresh(address, weight, health);
    lemma_failed_in_a_row(instance, n);
    lemma_first_success_promotes(
        health.healthy_threshold,
        health.unhealthy_threshold,
        n,
    );
}

proof fn lemma_failed_in_a_row(instance: InstanceView, n: nat)
    ensures
        instance.failed_in_a_row(n) == (InstanceView {
            state: instance.state.failed_times(instance.unhealthy_threshold, n),
            ..instance
        }),
    decreases n,
{
    if n > 0 {
        lemma_failed_in_a_row(instance, (n - 1) as nat);
    }
}

proof fn lemma_succeeded_in_a_row(instance: InstanceView, n: nat)
    ensures
        instance.succeeded_in_a_row(n) == (InstanceView {
            state: instance.state.succeeded_times(instance.healthy_threshold, n),
            ..instance
        }),
    decreases n,
{
    if n > 0 {
        lemma_succeeded_in_a_row(instance, (n - 1) as nat);
    }
}

/// An instance in service whose last probe succeeded goes out with the failure in a row that reaches
/// its own threshold for failures, and not before.
pub proof fn lemma_goes_out_at_its_threshold(instance: InstanceView, n: nat)
    requires
        instance.state.healthy,
    ensures
        instance.succeeded().failed_in_a_row(n).state.healthy <==> n == 0 || n
            < instance.unhealthy_threshold,
        instance.succeeded().failed_in_a_row(n).address == instance.address,
        instance.succeeded().failed_in_a_row(n).weight == instance.weight,
{
    lemma_failed_in_a_row(instance.succeeded(), n);
    if instance.unhealthy_threshold > 0 {
        lemma_failures_in_a_row(
            instance.succeeded().state,
            instance.unhealthy_threshold,
            n,
        );
    } else if n > 0 {
        lemma_failed_in_a_row(instance.succeeded(), (n - 1) as nat);
    }
}

/// An instance that served before and was taken out comes back with the success in a row that
/// reaches its own threshold for successes, and not before.
pub proof fn lemma_comes_back_at_its_threshold(instance: InstanceView, n: nat)
    requires
        instance.state.proven,
        !instance.failed().state.healthy,
        n > 0,
    ensures
        instance.failed().succeeded_in_a_row(n).state.healthy <==> n >= instance.healthy_threshold,
        instance.failed().succeeded_in_a_row(n).address == instance.address,
        instance.failed().succeeded_in_a_row(n).weight == instance.weight,
{
    lemma_succeeded_in_a_row(instance.failed(), n);
    lemma_successes_in_a_row(instance.failed().state, instance.healthy_threshold, n);
}

/// A success never takes an instance out, and a failure never brings one in. Neither changes the
/// thresholds.
pub proof fn lemma_probes_push_their_way(instance: InstanceView)
    ensures
        instance.state.healthy ==> instance.succeeded().state.healthy,
        !instance.state.healthy ==> !instance.failed().state.healthy,
        instance.succeeded().healthy_threshold == instance.healthy_threshold,
        instance.succeeded().unhealthy_threshold == instance.unhealthy_threshold,
        instance.failed().healthy_threshold == instance.healthy_threshold,
        instance.failed().unhealthy_threshold == instance.unhealthy_threshold,
{
}

/// Once a probe has succeeded, an instance that failures took out needs as many successes in a row
/// as its threshold says: the first success counts for no more than any other.
pub proof fn lemma_second_start_takes_the_threshold(instance: InstanceView, failures: nat, n: nat)
    requires
        failures > 0,
        n > 0,
        !instance.succeeded().failed_in_a_row(failures).state.healthy,
    ensures
        instance.succeeded().failed_in_a_row(failures).succeeded_in_a_row(n).state.healthy <==> n
            >= instance.healthy_threshold,
{
    let before = instance.succeeded().failed_in_a_row((failures - 1) as nat);
    lemma_stays_proven(instance.succeeded(), (failures - 1) as nat);
    lemma_comes_back_at_its_threshold(before, n);
}

proof fn lemma_stays_proven(instance: InstanceView, failures: nat)
    requires
        instance.state.proven,
    ensures
        instance.failed_in_a_row(failures).state.proven,
        instance.failed_in_a_row(failures).healthy_threshold == instance.healthy_threshold,
    decreases failures,
{
    if failures > 0 {
        lemma_stays_proven(instance, (failures - 1) as nat);
    }
}

} // verus!
