//! Discovery of an organization's account tree, its flattening into
//! path-annotated accounts, and the per-account fan-out of an operation.
pub mod org;
pub mod resolve;
pub mod builder;
pub mod limiter;
pub mod executor;
pub mod cli;
