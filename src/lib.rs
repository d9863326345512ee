//! An embedded store for groups, commands, workflows and their runs: ordered
//! sibling sets, a cycle-free group tree, and an execution ledger.
pub mod error;
pub mod position;
pub mod models;
pub mod codec;
pub mod text;
pub mod store;
pub mod hierarchy;
pub mod retain;
pub mod order;
pub mod ledger;
pub mod listing;
pub mod naming;
pub mod builders;
pub mod laws;
pub mod stored;
pub mod settings;
pub mod timestamp;
