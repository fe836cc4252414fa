//! Relationship-anonymity analysis for traces of anonymous communication networks.
//!
//! A trace records, for every message, who sent it and when, and who received it
//! and when. Given bounds on the network delay, the analysis derives for every
//! source the set of destinations that can still be its communication partner
//! after each of its messages.

pub mod containers;
pub mod deanonymization;
pub mod destination;
pub mod guarantees;
pub mod ids;
pub mod metric;
pub mod network;
pub mod seqs;
pub mod source;
pub mod sorting;
pub mod trace;

pub use ids::{DestinationId, MessageId, SourceId};
pub use containers::MessageSet;
pub use trace::{Trace, TraceBuildError, TraceBuilder, TraceEntry};
pub use metric::{compute_relationship_anonymity, compute_relationship_anonymity_sizes};
