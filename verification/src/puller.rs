//! High-level image puller. See [`Puller`](pull::Puller) for more.
pub mod json;
pub mod pull;
pub mod registry;
pub mod secret;
