//! A configuration pinned for the span of one request.
//!
//! A request has two halves, and a reload may land between them. A snapshot is taken once per
//! request and both halves run against it, so that a reload swaps the live configuration and
//! disturbs no request that is in flight.
use std::sync::Arc;
use vstd::prelude::*;

verus! {

/// A configuration that requests run under.
#[derive(Debug)]
pub struct ActiveConfig {
    /// The content hash of the manifest that the configuration was built from.
    pub hash: String,
}

/// [`ActiveConfig`] as plain values.
#[verifier::ext_equal]
pub struct ConfigView {
    pub hash: Seq<char>,
}

impl View for ActiveConfig {
    type V = ConfigView;

    open spec fn view(&self) -> ConfigView {
        ConfigView { hash: self.hash@ }
    }
}

/// A configuration pinned for one request.
#[derive(Debug)]
pub struct ConfigSnapshot {
    config: Arc<ActiveConfig>,
}

impl View for ConfigSnapshot {
    type V = ConfigView;

    closed spec fn view(&self) -> ConfigView {
        self.config@
    }
}

impl ConfigSnapshot {
    /// Pins a configuration.
    pub fn new(config: Arc<ActiveConfig>) -> (r: Self)
        ensures
            r@ == config@,
    {
        ConfigSnapshot { config }
    }

    /// The version that the request is pinned to: the content hash of the manifest.
    pub fn config_version(&self) -> (r: &str)
        ensures
            r@ == self@.hash,
    {
        self.config.hash.as_str()
    }
}

/// The version of a configuration is the content hash that it holds.
pub proof fn lemma_version_is_the_hash(config: ActiveConfig)
    ensures
        config@.hash == config.hash@,
{
}

} // verus!
