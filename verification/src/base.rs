//! Identifier aliases and the small shared value types: directions of
//! travel, direction sets, node policy tags, removal kinds and click
//! modifiers.

use vstd::prelude::*;

verus! {

pub type TrainID = u32;

pub type TrackID = u32;

pub type NodeID = u32;

/// A colour, as the `#RRGGBB` text a viewer renders.
pub type Color = String;

/// Line thickness of a rendered track, in pixels.
pub type Thickness = u64;

/// A reference to the image a viewer draws for a train.
pub type ImageSrc = String;

/// A span of time, in milliseconds.
pub type TimeMs = u64;

/// A length along a track, in pixels.
pub type Distance = u64;

/// The direction a train travels along a track: `Forward` runs from the
/// track's start node towards its end node, `Backward` the other way.
#[derive(Debug, Clone, Copy, PartialEq, Eq, Structural)]
pub enum Direction {
    Forward,
    Backward,
}

impl Direction {
    /// The reverse of this direction.
    pub fn opposite(self) -> (r: Direction)
        ensures
            r == self.spec_opposite(),
    {
        match self {
            Direction::Forward => Direction::Backward,
            Direction::Backward => Direction::Forward,
        }
    }

    pub open spec fn spec_opposite(self) -> Direction {
        match self {
            Direction::Forward => Direction::Backward,
            Direction::Backward => Direction::Forward,
        }
    }
}

/// A set of travel directions: which directions of travel through a track
/// pass through a given node.  A track whose two endpoints are the same node
/// reaches it in `Both` directions.
#[derive(Debug, Clone, Copy, PartialEq, Eq, Structural)]
pub enum MultiDirection {
    Both,
    Forward,
    Backward,
}

impl MultiDirection {
    pub open spec fn spec_has_direction(self, direction: Direction) -> bool {
        match self {
            MultiDirection::Both => true,
            MultiDirection::Forward => direction == Direction::Forward,
            MultiDirection::Backward => direction == Direction::Backward,
        }
    }

    /// Whether this set contains the given direction of travel.
    pub fn has_direction(&self, direction: Direction) -> (r: bool)
        ensures
            r == self.spec_has_direction(direction),
    {
        match self {
            MultiDirection::Both => true,
            MultiDirection::Forward => direction == Direction::Forward,
            MultiDirection::Backward => direction == Direction::Backward,
        }
    }

    pub open spec fn spec_add_direction(self, direction: Direction) -> MultiDirection {
        match self {
            MultiDirection::Both => MultiDirection::Both,
            MultiDirection::Forward => if direction == Direction::Backward {
                MultiDirection::Both
            } else {
                MultiDirection::Forward
            },
            MultiDirection::Backward => if direction == Direction::Forward {
                MultiDirection::Both
            } else {
                MultiDirection::Backward
            },
        }
    }

    /// Enlarge this set so that it contains the given direction of travel.
    pub fn add_direction(&mut self, direction: Direction)
        ensures
            *final(self) == old(self).spec_add_direction(direction),
            final(self).spec_has_direction(direction),
            forall|d: Direction| old(self).spec_has_direction(d)
                ==> final(self).spec_has_direction(d),
    {
        *self = match self {
            MultiDirection::Both => MultiDirection::Both,
            MultiDirection::Forward => {
                if direction == Direction::Backward {
                    MultiDirection::Both
                } else {
                    MultiDirection::Forward
                }
            },
            MultiDirection::Backward => {
                if direction == Direction::Forward {
                    MultiDirection::Both
                } else {
                    MultiDirection::Backward
                }
            },
        };
    }
}

/// Builds the direction set that holds exactly one direction of travel.
pub fn multi_of_direction(value: Direction) -> (r: MultiDirection)
    ensures
        r == spec_multi_of_direction(value),
{
    match value {
        Direction::Forward => MultiDirection::Forward,
        Direction::Backward => MultiDirection::Backward,
    }
}

pub open spec fn spec_multi_of_direction(value: Direction) -> MultiDirection {
    match value {
        Direction::Forward => MultiDirection::Forward,
        Direction::Backward => MultiDirection::Backward,
    }
}

/// The routing policy a node applies when a train arrives at it.
#[derive(Debug, Clone, Copy, PartialEq, Eq, Structural)]
pub enum NodeType {
    Random,
    RoundRobin,
    Reverse,
    Derail,
    Configurable,
}

/// How a removed train leaves the scene on a viewer's screen.
#[derive(Debug, Clone, Copy, PartialEq, Eq, Structural)]
pub enum RemovalType {
    Explosion,
    Silent,
    Derail,
    Vibrate,
    TakeOff,
}

/// The keyboard modifiers held while clicking a train.
#[derive(Debug, Clone, Copy, PartialEq, Eq, Structural)]
pub struct ClickModifier {
    pub ctrl: bool,
    pub shift: bool,
    pub alt: bool,
}

} // verus!
