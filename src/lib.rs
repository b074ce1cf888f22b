//! In-memory topology tracking for a barrier-checkpointed stream engine.
//!
//! A database's jobs compile into fragments, each run by actors placed on workers.
//! [`database::InflightDatabaseInfo`] keeps that topology for one database and
//! changes it in two phases around each barrier that carries a topology change:
//! before the barrier is sent ([`database::InflightDatabaseInfo::pre_apply`]) and
//! after it is collected ([`database::InflightDatabaseInfo::post_apply`]). A command
//! that contradicts the tracked topology is a fault of the caller: each operation has
//! a `check_` function that tells beforehand whether it accepts its input. Every
//! database reports placements into the shared [`registry::SharedActorInfos`],
//! and each change of it comes back as placement diffs to publish.
//! [`subscription::InflightSubscriptionInfo`] tracks the subscriptions of
//! materialized views. The laws that tie the operations together are proved in
//! [`laws`].

pub mod keyed;
pub mod fragment;
pub mod registry;
pub mod change;
pub mod database;
pub mod command;
pub mod subscription;
pub mod edge;
pub mod split;
pub mod laws;
