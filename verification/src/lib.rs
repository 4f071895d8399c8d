//! Lifecycle management for temporary inbound port mappings on a home
//! gateway: locating a gateway through a local interface, keeping a faithful
//! record of the mappings this process opened, and tearing them down exactly
//! once on exit.
//!
//! The network calls themselves (gateway discovery and the add/remove RPCs)
//! are performed by the surrounding program; this crate owns every decision
//! around them: which interface to try next, what to record after a call
//! succeeded, which mappings still need removal on shutdown.

pub mod addr;
pub mod port_forwarder;
pub mod query_interfaces;
pub mod cli;
