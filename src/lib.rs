//! A server-side engine for the ClickHouse native TCP protocol: the binary
//! codec, the packet layouts, the handshake and the per-connection state
//! machine, each with a machine-checked contract.

pub mod binary;
pub mod block;
pub mod dispatch;
pub mod errors;
pub mod handshake;
pub mod protocol;
pub mod session;
pub mod state;
pub mod server;

pub use crate::server::ClickHouseServer;
pub use crate::session::ClickHouseSession;
pub use crate::state::{CHContext, QueryState};
