//! Upstreams at run time: instances and their health, groups, and the registry of groups.
pub mod group;
pub mod instance;
pub mod registry;
