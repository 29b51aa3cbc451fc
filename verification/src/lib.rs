//! A lightweight task tracker built around a verified dependency-graph
//! engine: tasks, subtasks, comments and blocking edges are kept in an
//! in-memory store whose operations are specified and proved, from cycle
//! detection at edge insertion to ready-queue and epic-progress queries.

pub mod clock;
pub mod graph;
pub mod laws;
pub mod lifecycle;
pub mod model;
pub mod query;
pub mod seqext;
pub mod sortspec;
pub mod stats;
pub mod store;
pub mod strutil;
pub mod validate;
pub mod webq;

pub use model::{AppError, Comment, Dependency, Status, Task};
pub use store::Store;
