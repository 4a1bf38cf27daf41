//! Coordination logic of a federated-learning server: client registry,
//! session checks, round bookkeeping and gradient buffering.

pub mod clock;
pub mod federated;
pub mod client_manager;
pub mod client_table;
pub mod session;
pub mod text;
pub mod coordinator;
