//! A motion planner for a two-joint arm.
//!
//! The arm's joint angles form a 2-D configuration space.  The space is
//! discretized into a passability grid by sampling a validity predicate over
//! arm kinematics and collision geometry, and paths are found by an
//! any-angle graph search over that grid.  Requests and results travel as
//! length-prefixed wire messages.
pub mod arm;
pub mod codec;
pub mod collision;
pub mod dijkstra;
pub mod grid;
pub mod handlers;
pub mod imath;
pub mod mapping;
pub mod plan;
pub mod pq;
pub mod theta_star;
pub mod vectors;
