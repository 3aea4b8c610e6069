//! An authoritative DNS server core that synthesizes IPv6 reverse and forward
//! records from a small configuration file.

pub mod config;
pub mod name;
pub mod net;
pub mod nibble;
pub mod record;
pub mod rrl;
pub mod server;
pub mod text;
pub mod upstream;
pub mod zone;
