//! The control plane as the data plane sees it: the live configuration, and the settings of the
//! admin endpoint and the access log.
use std::sync::Arc;
use vstd::prelude::*;

use crate::shared::share;
use crate::snapshot::{ActiveConfig, ConfigSnapshot};

verus! {

/// The observability block of the manifest.
#[derive(Debug)]
pub struct Observability {
    /// The address that the admin endpoint listens on, if there is one.
    pub admin_addr: Option<String>,
    /// Whether requests are logged.
    pub access_log: bool,
}

/// [`Observability`] as plain values.
#[verifier::ext_equal]
pub struct ObservabilityView {
    pub admin_addr: Option<Seq<char>>,
    pub access_log: bool,
}

impl View for Observability {
    type V = ObservabilityView;

    open spec fn view(&self) -> ObservabilityView {
        ObservabilityView {
            admin_addr: match self.admin_addr {
                Some(addr) => Some(addr@),
                None => None,
            },
            access_log: self.access_log,
        }
    }
}

/// The control plane.
#[derive(Debug)]
pub struct Control {
    observability: Observability,
    active: Arc<ActiveConfig>,
}

/// [`Control`] as plain values.
#[verifier::ext_equal]
pub struct ControlView {
    pub observability: ObservabilityView,
    pub active: crate::snapshot::ConfigView,
}

impl View for Control {
    type V = ControlView;

    closed spec fn view(&self) -> ControlView {
        ControlView { observability: self.observability@, active: self.active@ }
    }
}

impl ControlView {
    /// What a request that starts now is pinned to.
    pub open spec fn pinned(self) -> crate::snapshot::ConfigView {
        self.active
    }

    /// The control plane after a reload.
    pub open spec fn activated(self, config: crate::snapshot::ConfigView) -> ControlView {
        ControlView { active: config, ..self }
    }

    /// The control plane after some reloads, one after the other.
    pub open spec fn reloaded(self, configs: Seq<crate::snapshot::ConfigView>) -> ControlView
        decreases configs.len(),
    {
        if configs.len() == 0 {
            self
        } else {
            self.reloaded(configs.drop_last()).activated(configs.last())
        }
    }
}

impl Control {
    /// A control plane with a first configuration.
    pub fn new(observability: Observability, config: ActiveConfig) -> (r: Self)
        ensures
            r@ == (ControlView { observability: observability@, active: config@ }),
    {
        Control { observability, active: Arc::new(config) }
    }

    /// The address that the admin endpoint listens on, or `None` where there is no such endpoint.
    pub fn admin_addr(&self) -> (r: Option<&str>)
        ensures
            match r {
                Some(addr) => self@.observability.admin_addr == Some(addr@),
                None => self@.observability.admin_addr is None,
            },
    {
        match &self.observability.admin_addr {
            Some(addr) => Some(addr.as_str()),
            None => None,
        }
    }

    /// Whether requests are logged.
    pub fn access_log_enabled(&self) -> (r: bool)
        ensures
            r == self@.observability.access_log,
    {
        self.observability.access_log
    }

    /// Pins the live configuration for a request.
    pub fn snapshot(&self) -> (r: ConfigSnapshot)
        ensures
            r@ == self@.pinned(),
    {
        ConfigSnapshot::new(share(&self.active))
    }

    /// Makes a configuration the live one. Snapshots keep what they pinned.
    pub fn activate(&mut self, config: ActiveConfig)
        ensures
            final(self)@ == old(self)@.activated(config@),
    {
        self.active = Arc::new(config);
    }
}

/// However many reloads land, a request that starts after them is pinned to the last one, and the
/// settings of the admin endpoint and the access log outlast them all.
pub proof fn lemma_reloads_reach_new_requests_only(
    control: ControlView,
    configs: Seq<crate::snapshot::ConfigView>,
)
    ensures
        control.reloaded(configs).pinned() == if configs.len() == 0 {
            control.pinned()
        } else {
            configs.last()
        },
        control.reloaded(configs).observability == control.observability,
    decreases configs.len(),
{
    if configs.len() > 0 {
        lemma_reloads_reach_new_requests_only(control, configs.drop_last());
    }
}

/// The values of the observability block are the declared ones.
pub proof fn lemma_observability_is_as_declared(observability: Observability)
    ensures
        observability@.access_log == observability.access_log,
        observability.admin_addr is None <==> observability@.admin_addr is None,
        observability.admin_addr matches Some(addr) ==> observability@.admin_addr == Some(addr@),
{
}

/// A reload makes its configuration the one that requests are pinned to, and changes nothing else.
pub proof fn lemma_reload_swaps_the_configuration(
    control: ControlView,
    config: crate::snapshot::ConfigView,
)
    ensures
        control.pinned() == control.active,
        control.activated(config).active == config,
        control.activated(config).observability == control.observability,
{
}

} // verus!
