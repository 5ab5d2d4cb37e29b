//! Versioned schema migrations: a catalog of migrations, validation of the
//! catalog against the applied history, and the state machine that applies
//! pending migrations one at a time, in ascending version order.

pub mod checksum;
pub mod error;
pub mod history;
pub mod identity;
pub mod migration;
pub mod runner;
pub mod timestamp;
