//! Sirno: Semantic Intermediate Representation of Nominal Obligations.
//!
//! A graph-shaped knowledge database for codebases. Sirno mediates between
//! abstract design knowledge and concrete code through a structured graph
//! of named, agent-maintained knowledge units.
//!
//! Entries own the graph's dedicated explanatory text. Other structures refer
//! to entries when they need prose and otherwise keep only operational data.
//!
//! Every collection in the library is modelled as a mathematical map, set or
//! sequence, and every operation is specified over those models.

pub mod keyed;
pub mod text;
pub mod entry;
pub mod edge;
mod adjacency;
pub mod graph;
pub mod grounding;
pub mod mutation;
pub mod obligation;
pub mod repository;
pub mod session;
