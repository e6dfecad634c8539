//! Verified core of an XDP layer-4 load balancer: consistent-hash table
//! construction, packet screening and rewriting, backend discovery rules, and
//! the double-buffered control plane that feeds the data plane.

pub mod abuse;
pub mod backend;
pub mod checksum;
pub mod common;
pub mod config;
pub mod dataplane;
pub mod discovery;
pub mod enforcement;
pub mod forward;
pub mod handover;
pub mod health;
pub mod host;
pub mod maglev;
pub mod metrics;
pub mod net;
pub mod packet;
pub mod prime;
pub mod reload;
pub mod tables;
pub mod text;
