//! Analytics over tabular flight-activity records: a directed, weighted
//! graph of passenger flow between geographic regions and a fixed domestic
//! anchor, a flow-weighted degree centrality score per graph node, and a
//! twelve-month passenger-volume forecast fitted by ordinary least squares.

pub mod centrality;
pub mod digraph;
pub mod error;
pub mod forecast;
pub mod graph;
pub mod period;
pub mod regression;
pub mod record;

pub use record::ActivityRecord;
pub use record::ActivityType;
