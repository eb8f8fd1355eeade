//! Job scheduling, adaptive shuffle planning and local task streams for a
//! distributed query engine.

pub mod action;
pub mod adaptive;
pub mod clock;
pub mod collections;
pub mod entries;
pub mod error;
pub mod id;
pub mod job;
pub mod job_graph;
pub mod lists;
pub mod measurements;
pub mod node;
pub mod scheduler;
pub mod shuffle_index;
pub mod sizing;
pub mod state;
pub mod stream;
pub mod task;
pub mod text;
pub mod topology;
