//! A minimal HTTP/1.x connection handler: the header terminator scan, the
//! request-head parser, the body reader and the per-connection session logic,
//! each with its contract.
pub mod body;
pub mod head;
pub mod scanner;
pub mod server;
pub mod session;

pub use server::ToyHttpServer;
