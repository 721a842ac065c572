//! Decides whether the consumers of a Kafka cluster have drained their backlog.
//!
//! The crate holds the decisions of a drain check and none of its input or output. Three state
//! machines carry them: [`health::HealthWait`] waits for the cluster to come back,
//! [`query::LagQuery`] works out which consumer groups are behind which partitions, and
//! [`drain::DrainCheck`] samples that lag until it is gone or time is up. Each machine names the
//! next thing to do; its driver does it and hands back what happened. The rules that say what
//! counts as lag are in [`lag`], and what holds of the whole is proved in [`laws`].

pub mod drain;
pub mod health;
pub mod lag;
pub mod laws;
pub mod model;
pub mod partition_list;
pub mod query;
pub mod watermarks;
