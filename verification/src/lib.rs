//! The simulation core of a top-down space shooter: a quadtree over the
//! positions of the objects, collision detection and response, the flocking
//! of the aliens, and motion at a fixed time step.
//!
//! The core counts in whole numbers. The host hands it a table of what its
//! objects carry ([`entities::Entities`]), lets the systems of a tick work on
//! the table, and reads the result back.

pub mod aliens;
pub mod entities;
pub mod entity;
pub mod fixed;
pub mod health;
pub mod physics;
pub mod quad_tree;
pub mod vec2;
