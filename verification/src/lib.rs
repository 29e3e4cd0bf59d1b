//! Service-probe database parsing, port specifications and service
//! signature matching for a bounded TCP connect scanner.
//!
//! - [`text`]: the `str` operations the parsers rely on, over characters.
//! - [`ports`]: port specifications such as `22,80,8000-8010`.
//! - [`probe`]: probes, match rules and version templates.
//! - [`signature`]: matching a response against a probe's signatures.
//! - [`database`]: the `nmap-service-probes` file format.
//! - [`scan`]: which probes to send to a port and what the answers mean.

pub mod text;
pub mod ports;
pub mod probe;
pub mod signature;
pub mod database;
pub mod scan;

pub use database::{parse_database, parse_probe_line, parse_probe_string, ParseOutcome};
pub use ports::{parse_ports, port_spec_contains};
pub use probe::{MatchRule, NmapProbe, ServiceMatch, VersionInfo};
pub use signature::match_probe_response;
