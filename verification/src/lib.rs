//! A transport-agnostic seam between connection-oriented servers and the
//! code that drives them: the events a server emits, the order in which it
//! may emit them, and the commands by which it is controlled.

pub mod events;
pub mod ident;
pub mod laws;
pub mod loopback;
pub mod monitor;
pub mod protocol;
pub mod rules;
pub mod text;

pub use events::{Error, Events, Sending};
pub use ident::ConnectionId;
pub use loopback::{Loopback, Refusal};
pub use monitor::Monitor;
pub use protocol::Ledger;
