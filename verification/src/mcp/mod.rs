//! The tools of the server, and its transport.
pub mod project;
pub mod replies;
pub mod tools;
pub mod transport;

pub use transport::DiscoveryAwareStdioTransport;
