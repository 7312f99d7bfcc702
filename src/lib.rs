//! One peer of an eventually-consistent broadcast cluster: a replicated,
//! per-origin append-only log and the pull-based anti-entropy exchange that
//! reconciles replicas.

pub mod message;
pub mod store;
pub mod node;
pub mod ids;
