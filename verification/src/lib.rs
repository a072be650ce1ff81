//! A ledger of integer exponents per entity and prime, whose moves between
//! eight nodes are gated by a flow rule and certified by signed-digit codes.

pub mod centroid;
pub mod encoding;
pub mod flow_rule;
pub mod ledger;
pub mod msd;
pub mod registry;
pub mod store;

pub use crate::flow_rule::{batch_allowed, transition_allowed, Node};
pub use crate::ledger::{Ledger, LedgerError, LedgerEvent};
