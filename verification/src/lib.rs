//! Prometheus HTTP service-discovery targets computed from VM tag metadata.
//!
//! Virtual machines carry free-form tags; tags of the form
//! `prom:<job>:<key>=<value>` are directives that assign the VM to a scrape
//! job, attach labels, or set the scrape address. This crate parses those
//! tags, aggregates each VM's directives into per-job targets, and merges
//! the targets of all VMs into a job-indexed registry.
//!
//! Fetching the VM records and serving the registry over HTTP are left to
//! the surrounding program; the library works on plain values.

pub mod assoc;
pub mod config;
pub mod laws;
pub mod model;
pub mod registry;
pub mod sd;
pub mod tag;
pub mod xo;
