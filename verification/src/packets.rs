//! The semantic packets exchanged with viewers and control clients.
//!
//! These are plain values; the text encoding on the wire is the transport
//! layer's concern.  A train update carries the train's progress in
//! thousandths of its track and the estimated time to its next boundary in
//! milliseconds.

use vstd::prelude::*;
use crate::base::{
    ClickModifier, Color, Direction, ImageSrc, NodeID, NodeType, RemovalType, Thickness, TimeMs,
    TrackID, TrainID,
};
use crate::geom::{Bezier, BezierDiff, Coord};

verus! {

/// A broadcast from the engine to its viewers.
#[derive(Debug, Clone, PartialEq)]
pub enum ServerPacket {
    /// Train state: id, track, progress in thousandths, estimated time to
    /// the next boundary, direction, and the image to draw.
    PacketTRAIN(TrainID, TrackID, u64, TimeMs, Direction, ImageSrc),
    /// The full track table, in ascending track order.
    PacketTRACK(Vec<(TrackID, Bezier, Color, Thickness)>),
    /// A node's position.
    PacketNODE(NodeID, Coord),
    /// A train's removal, with the way it leaves the scene.
    PacketREMOVE(TrainID, RemovalType),
}

/// A click a viewer submits on a train.
#[derive(Debug, Clone, Copy, PartialEq, Eq, Structural)]
pub enum ClientPacket {
    PacketCLICK(TrainID, ClickModifier),
}

/// A topology or train edit a control client submits.
#[derive(Debug, Clone, PartialEq)]
pub enum CtrlPacket {
    NewNode(Coord, NodeType),
    /// A new train on the given track, with its speed in pixels per second.
    NewTrain(TrackID, u64),
    NewTrack(NodeID, NodeID, Color),
    NodeMove(NodeID, Coord),
    TrackAdjust(TrackID, BezierDiff),
}

/// Why a control command was not applied.  Unknown identifiers are
/// reported rather than silently ignored.
#[derive(Debug, Clone, Copy, PartialEq, Eq, Structural)]
pub enum CtrlError {
    UnknownNode(NodeID),
    UnknownTrack(TrackID),
    /// A coordinate lies outside the supported range.
    CoordOutOfRange,
    /// A train's speed must be between one pixel per second and the
    /// supported maximum.
    SpeedOutOfRange,
    /// Every 32-bit identifier has been handed out.
    IdSpaceExhausted,
}

} // verus!
