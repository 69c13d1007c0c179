//! A deterministic, frame-stepped procedural growth simulation.
//!
//! A population of growable nodes branches outward from a single seed point.
//! Each step rebuilds a spatial index over the node positions, energizes the
//! roots, attempts probabilistic branching, propagates energy along
//! parent/child edges, and resolves collisions and growth. All simulation
//! quantities are exact fixed-point integers, so every step is a pure
//! function of the registry and the step count.
//!
//! The crate also carries the small tracked-input state types (window, mouse
//! buttons, keys, time) and the bind-group layout builder that surround the
//! simulation in the host application.

pub mod bind_group;
pub mod engine;
pub mod event;
pub mod fixmath;
pub mod index;
pub mod registry;
pub mod rng;
pub mod state;
