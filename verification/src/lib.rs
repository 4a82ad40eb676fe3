//! TCP reliable byte streams carried directly by authenticated FIPS datagrams,
//! as a verified sans-I/O state machine.

mod arith;
mod connection;
pub mod laws;
mod marker;
pub mod model;
pub mod reassembly;
pub mod reno;
pub mod report;
pub mod rtt;
pub mod runs;
pub mod sending;
mod segment;
pub mod seq;
mod stack;
pub mod stack_model;
pub mod text;
mod types;
pub mod wire;

pub use marker::{MarkerStatus, SendMarker};
pub use stack::Stack;
pub use types::{Config, ConnectionId, Outbound, Peer, StackError, State};
