//! Multi-server TCP/UDP bandwidth tester: the verified logic.
pub mod address;
pub mod analyze;
pub mod bytes;
pub mod cli;
pub mod client;
pub mod config;
pub mod dataplane;
pub mod db;
pub mod hostlist;
pub mod json;
pub mod metrics;
pub mod netutil;
pub mod number;
pub mod order;
pub mod proto;
pub mod rounding;
pub mod server;
pub mod size;
pub mod testplan;
pub mod text;
