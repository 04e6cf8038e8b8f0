//! A frame-stepped pursuit-and-projectile simulation on an integer world.
//!
//! Positions are whole world units (pixels). A pursuing target walks toward
//! the pointer, projectiles are charged, launched at the target, moved, culled
//! when they leave the viewport, and a counter follows their population
//! through add / delete events.
pub mod events;
pub mod geometry;
pub mod motion;
pub mod sim;
pub mod timer;
pub mod viewport;
