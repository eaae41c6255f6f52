//! Admission, address expansion and bookkeeping core of a multi-rule L4 forwarder.
pub mod admission;
pub mod geo;
pub mod laws;
pub mod listing;
pub mod network;
pub mod policy;
pub mod port_range;
pub mod protocol;
pub mod registry;
pub mod relay;
pub mod reports;
pub mod rules;
pub mod session;
pub mod snapshot;
pub mod state;
pub mod text;
pub mod text_laws;
