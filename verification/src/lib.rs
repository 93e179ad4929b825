//! The verified core of a request proxy: load balancing, rate limiting, health checking, upstream
//! reconciliation and response construction.
pub mod body;
pub mod bucket;
pub mod clock;
pub mod control;
pub mod error;
pub mod hash;
pub mod headers;
pub mod health;
pub mod lowering;
pub mod maglev;
pub mod manifest;
pub mod prime;
pub mod ratelimit;
pub mod respond;
pub mod rng;
pub mod shared;
pub mod snapshot;
pub mod upstream;
