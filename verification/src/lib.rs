//! Builds a weighted social co-occurrence graph from a chronological presence
//! log, rooted at one identity, and derives normalized, ranked and undirected
//! views of it.
//!
//! The library is the pure core of the pipeline: it works on an in-memory
//! copy of the log ([`repo::PresenceLog`]) and on plain values. Opening the
//! embedded store, running its queries, and writing the export files are left
//! to the surrounding application.
//!
//! The stages, in order: [`repo`] resolves names and reads locations and
//! occupants from the log, [`aggregate`] merges per-place occupant sets into
//! co-occurrence counts, [`graph`] expands the two-level neighborhood around
//! the root, [`normalize`] filters the sentinel and derives per-edge
//! statistics, [`rank`] orders the nodes, and [`project`] builds the
//! symmetric adjacency. [`pipeline::run_pipeline`] runs them all as one
//! verified step.

pub mod aggregate;
pub mod cache;
pub mod error;
pub mod gamelog_join_leave;
pub mod graph;
pub mod group_access_type;
pub mod is_kat;
pub mod join_leave_event;
pub mod metadata;
pub mod normalize;
pub mod pipeline;
pub mod project;
pub mod rank;
pub mod repo;
pub mod text;
pub mod vertex;
pub mod world_instance;
pub mod world_regions;

pub use aggregate::get_others_for;
pub use repo::{get_display_name_for, get_locations_for, get_uuid_of};
