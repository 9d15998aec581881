//! An incremental evaluation engine: callers insert facts about entities, systems
//! derive more facts from rows of them, and queries read settled results.
//!
//! [`bowl::Bowl`] puts the pieces together; [`state::State`] is what it drives.

pub mod access;
pub mod binding;
pub mod bowl;
pub mod bowl_laws;
pub mod cell_laws;
pub mod commands;
pub mod commit;
pub mod commit_laws;
pub mod component;
pub mod config;
pub mod conformance;
pub mod course_laws;
pub mod declare;
pub mod derive;
pub mod effect_laws;
pub mod entity;
pub mod evaluation;
pub mod facet;
pub mod facts;
pub mod filter;
pub mod input_laws;
pub mod inverse_laws;
pub mod invocation;
pub mod join;
pub mod join_laws;
pub mod keys;
pub mod log_laws;
pub mod memo;
pub mod model;
pub mod outcome_laws;
pub mod ownership_laws;
pub mod param;
pub mod pipeline;
pub mod planning_laws;
pub mod presence;
pub mod projection;
pub mod query;
pub mod read_laws;
pub mod registry;
pub mod rest_laws;
pub mod rows;
pub mod schedule_laws;
pub mod seq_laws;
pub mod state;
pub mod state_laws;
pub mod store;
pub mod system;
pub mod text;
pub mod tuple_laws;
pub mod upkeep_laws;
pub mod world;
pub mod world_laws;
pub mod write_laws;
