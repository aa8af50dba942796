//! Simulation engine for trains running on a branching network of curved
//! track segments.
//!
//! The authoritative state is a graph of nodes (junctions with a routing
//! policy) and track segments (Bezier curves with an approximate length),
//! plus a registry of trains, each pinned to a track with a position and a
//! direction of travel.  The engine advances trains by elapsed time, consults
//! a per-node routing policy whenever a train reaches a track boundary, and
//! produces the packets that are fanned out to subscribed viewers.  All
//! geometry and time is kept in integer units: coordinates in pixels,
//! distances in pixels, time in milliseconds.

pub mod base;
pub mod engine;
pub mod geom;
pub mod graph;
pub mod idmap;
pub mod rng;
pub mod packets;
pub mod persist;
pub mod router;
pub mod routing;
pub mod train;
