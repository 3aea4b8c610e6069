//! The server's decisions, from request to response.

pub mod bind;
pub mod handler;
pub mod laws;

pub use handler::Zones;
