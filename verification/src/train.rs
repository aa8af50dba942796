//! Train state and the movement integrator.
//!
//! A train is pinned to a track by its position, kept in thousandths of a
//! pixel from the track's start so that one millisecond of travel at one
//! pixel per second covers exactly one unit.  [`TrainInstance::move_with_time`]
//! advances a train by elapsed wall time, consulting the routing policy of
//! the node at each track boundary it reaches.

use vstd::prelude::*;
use crate::base::{Direction, ImageSrc, NodeID, TimeMs, TrackID, TrainID};
use crate::graph::{
    all_routers_target_tracks, graph_wf, lemma_graph_wf_same_mod, lemma_same_mod_sym,
    lemma_same_mod_trans, node_same_mod_router_state, nodes_same_mod_router_state,
    table_targets_tracks, tracks_wf, Node, TrackPiece,
};
use crate::idmap::{lemma_wf_same_keys, IdMap};
use crate::packets::ServerPacket;
use crate::routing::RoutingType;

verus! {

/// Highest supported train speed, in pixels per second.
pub const MAX_SPEED: u64 = 1_000_000_000;

/// A track's extent in position units: thousandths of a pixel.
pub open spec fn track_units(len: u64) -> int {
    len * 1000
}

/// The distance a train covers in `elapsed` milliseconds, in thousandths of
/// a pixel; a budget beyond what 64 bits hold is clamped.
pub open spec fn move_budget(elapsed: TimeMs, speed: u64) -> int {
    if elapsed * speed > u64::MAX {
        u64::MAX as int
    } else {
        elapsed * speed
    }
}

/// Division rounding up.
pub open spec fn ceil_div(a: int, b: int) -> int {
    (a + b - 1) / b
}

pub proof fn lemma_ceil_div_zero(a: int, b: int)
    by (nonlinear_arith)
    requires
        0 <= a,
        1 <= b,
    ensures
        (ceil_div(a, b) == 0) <==> (a == 0),
        ceil_div(a, b) >= 0,
{
}

/// For a fixed speed, the reported estimate never grows as the remaining
/// distance shrinks.
pub proof fn lemma_ceil_div_mono(a1: int, a2: int, b: int)
    by (nonlinear_arith)
    requires
        0 <= a1 <= a2,
        1 <= b,
    ensures
        ceil_div(a1, b) <= ceil_div(a2, b),
{
}

/// As a train advances towards its boundary without crossing it — same
/// track, same direction, same speed, less distance remaining — its exact
/// time to the boundary shrinks with the distance, and the reported
/// millisecond estimate never grows; the estimate is zero exactly at the
/// boundary.
pub proof fn lemma_time_left_monotonic(
    before: TrainInstance,
    after: TrainInstance,
    tracks: IdMap<TrackPiece>,
)
    requires
        before.properties == after.properties,
        before.properties.wf(),
        0 <= after.spec_remaining(tracks) <= before.spec_remaining(tracks),
    ensures
        after.spec_time_left(tracks) <= before.spec_time_left(tracks),
        (after.spec_time_left(tracks) == 0) <==> (after.spec_remaining(tracks) == 0),
{
    lemma_ceil_div_mono(
        after.spec_remaining(tracks),
        before.spec_remaining(tracks),
        before.properties.speed as int,
    );
    lemma_ceil_div_zero(after.spec_remaining(tracks), after.properties.speed as int);
}

/// The position of a train that has just entered a track of length `len`
/// travelling in `dir`: the boundary it came through.
pub open spec fn spec_entry_progress(len: u64, dir: Direction) -> int {
    match dir {
        Direction::Forward => 0,
        Direction::Backward => track_units(len),
    }
}

/// The node at the boundary ahead of the train: its track's end node going
/// forward, its start node going backward.
pub open spec fn spec_boundary_node(t: TrainInstance, tracks: IdMap<TrackPiece>) -> NodeID {
    match t.direction {
        Direction::Forward => tracks.spec_get(t.current_track)->Some_0.end,
        Direction::Backward => tracks.spec_get(t.current_track)->Some_0.start,
    }
}

/// One routing consultation seen from the node map: only the node `nid`
/// changed, by one [`node_route_step`] with outcome `rt`.
pub open spec fn nodes_route_step(
    nodes1: IdMap<Node>,
    nodes2: IdMap<Node>,
    nid: NodeID,
    incoming: TrackID,
    dir: Direction,
    rt: RoutingType,
) -> bool {
    &&& nodes1.spec_contains(nid)
    &&& nodes2@.len() == nodes1@.len()
    &&& forall|i: int| 0 <= i < nodes1@.len() ==> ((#[trigger] nodes2@[i]).0 == nodes1@[i].0 && (
    nodes1@[i].0 != nid ==> nodes2@[i].1 == nodes1@[i].1))
    &&& crate::graph::node_route_step(
        nodes1.spec_get(nid)->Some_0,
        nodes2.spec_get(nid)->Some_0,
        incoming,
        dir,
        rt,
    )
}

/// One boundary crossing: the train spends the distance to its boundary,
/// the node there routes it by a non-derailing outcome, and it sits at the
/// entry boundary of the track the outcome names.
pub open spec fn move_crossing(
    tracks: IdMap<TrackPiece>,
    nodes1: IdMap<Node>,
    t1: TrainInstance,
    b1: int,
    nodes2: IdMap<Node>,
    t2: TrainInstance,
    b2: int,
) -> bool {
    &&& tracks.spec_contains(t1.current_track)
    &&& t1.spec_remaining(tracks) <= b1
    &&& b2 == b1 - t1.spec_remaining(tracks)
    &&& t2.properties == t1.properties
    &&& exists|rt: RoutingType|
        #[trigger] nodes_route_step(
            nodes1,
            nodes2,
            spec_boundary_node(t1, tracks),
            t1.current_track,
            t1.direction,
            rt,
        ) && match rt {
            RoutingType::Derail => false,
            RoutingType::BounceBack => t2.current_track == t1.current_track && t2.direction
                == t1.direction.spec_opposite() && t2.progress == spec_entry_progress(
                tracks.spec_get(t1.current_track)->Some_0.length,
                t2.direction,
            ),
            RoutingType::Track(tt, dd) => t2.current_track == tt && t2.direction == dd
                && tracks.spec_contains(tt) && t2.progress == spec_entry_progress(
                tracks.spec_get(tt)->Some_0.length,
                dd,
            ),
        }
}

/// A sequence of `k` boundary crossings from `(nodes1, t1, b1)` to
/// `(nodes2, t2, b2)`.
pub open spec fn move_trace(
    tracks: IdMap<TrackPiece>,
    nodes1: IdMap<Node>,
    t1: TrainInstance,
    b1: int,
    nodes2: IdMap<Node>,
    t2: TrainInstance,
    b2: int,
    k: nat,
) -> bool
    decreases k,
{
    if k == 0 {
        nodes2 == nodes1 && t2 == t1 && b2 == b1
    } else {
        exists|nm: IdMap<Node>, tm: TrainInstance, bm: int|
            move_trace(tracks, nodes1, t1, b1, nm, tm, bm, (k - 1) as nat)
                && #[trigger] move_crossing(tracks, nm, tm, bm, nodes2, t2, b2)
    }
}

/// A trace extended by one more crossing.
pub proof fn lemma_move_trace_extend(
    tracks: IdMap<TrackPiece>,
    nodes1: IdMap<Node>,
    t1: TrainInstance,
    b1: int,
    nm: IdMap<Node>,
    tm: TrainInstance,
    bm: int,
    nodes2: IdMap<Node>,
    t2: TrainInstance,
    b2: int,
    k: nat,
)
    requires
        move_trace(tracks, nodes1, t1, b1, nm, tm, bm, k),
        move_crossing(tracks, nm, tm, bm, nodes2, t2, b2),
    ensures
        move_trace(tracks, nodes1, t1, b1, nodes2, t2, b2, k + 1),
{
    assert(move_trace(tracks, nodes1, t1, b1, nm, tm, bm, ((k + 1) - 1) as nat));
    assert(move_crossing(tracks, nm, tm, bm, nodes2, t2, b2));
}

/// The train `t1` is a legal outcome of spending the distance budget `b0`
/// from `t0`: some sequence of boundary crossings, each a routing step of
/// the node at the boundary reached, ends with a leftover below the next
/// boundary, and `t1` sits that leftover past the last entry point.  The
/// node maps along the trace differ from `nodes_base` at most in some
/// routers' current states.
#[verifier::opaque]
pub open spec fn spec_move_outcome(
    tracks: IdMap<TrackPiece>,
    nodes_base: IdMap<Node>,
    t0: TrainInstance,
    b0: int,
    t1: TrainInstance,
) -> bool {
    exists|na: IdMap<Node>, nb: IdMap<Node>, k: nat, tm: TrainInstance, bm: int|
        nodes_same_mod_router_state(nodes_base, na) && #[trigger] move_trace(
            tracks,
            na,
            t0,
            b0,
            nb,
            tm,
            bm,
            k,
        ) && bm < tm.spec_remaining(tracks) && t1.properties == tm.properties
            && t1.current_track == tm.current_track && t1.direction == tm.direction
            && t1.progress == (match tm.direction {
            Direction::Forward => tm.progress + bm,
            Direction::Backward => tm.progress - bm,
        })
}

/// A move outcome claimed against one node map also holds against any node
/// map that differs from it only in router state.
pub proof fn lemma_move_outcome_rebase(
    tracks: IdMap<TrackPiece>,
    n1: IdMap<Node>,
    n2: IdMap<Node>,
    t0: TrainInstance,
    b0: int,
    t1: TrainInstance,
)
    requires
        spec_move_outcome(tracks, n1, t0, b0, t1),
        nodes_same_mod_router_state(n1, n2),
    ensures
        spec_move_outcome(tracks, n2, t0, b0, t1),
{
    reveal(spec_move_outcome);
    let (na, nb, k, tm, bm) = choose|
        na: IdMap<Node>,
        nb: IdMap<Node>,
        k: nat,
        tm: TrainInstance,
        bm: int,
    |
        nodes_same_mod_router_state(n1, na) && #[trigger] move_trace(
            tracks,
            na,
            t0,
            b0,
            nb,
            tm,
            bm,
            k,
        ) && bm < tm.spec_remaining(tracks) && t1.properties == tm.properties
            && t1.current_track == tm.current_track && t1.direction == tm.direction
            && t1.progress == (match tm.direction {
            Direction::Forward => tm.progress + bm,
            Direction::Backward => tm.progress - bm,
        });
    lemma_same_mod_sym(n1, n2);
    lemma_same_mod_trans(n2, n1, na);
    assert(move_trace(tracks, na, t0, b0, nb, tm, bm, k));
}

/// The state of a train that advanced by `elapsed` milliseconds without
/// reaching its boundary.
pub open spec fn spec_nothing_move(t: TrainInstance, elapsed: TimeMs) -> TrainInstance {
    TrainInstance {
        progress: (match t.direction {
            Direction::Forward => t.progress + move_budget(elapsed, t.properties.speed),
            Direction::Backward => t.progress - move_budget(elapsed, t.properties.speed),
        }) as u64,
        ..t
    }
}

/// The fixed characteristics of a train.
#[derive(Debug, Clone, PartialEq)]
pub struct TrainProperties {
    /// Speed in pixels per second, between 1 and [`MAX_SPEED`].
    pub speed: u64,
    pub image_forward: ImageSrc,
    pub image_backward: ImageSrc,
}

impl TrainProperties {
    pub open spec fn wf(self) -> bool {
        1 <= self.speed <= MAX_SPEED
    }
}

/// A train pinned to a track.
#[derive(Debug, Clone, PartialEq)]
pub struct TrainInstance {
    pub properties: TrainProperties,
    pub current_track: TrackID,
    /// Position along the track in thousandths of a pixel from its start.
    pub progress: u64,
    /// Travelling backward, the position runs from the track's full extent
    /// down to zero.
    pub direction: Direction,
}

/// What one integration step did to a train.
#[derive(Debug, Clone, Copy, PartialEq, Eq, Structural)]
pub enum MoveResult {
    /// The train stayed within its track.
    Nothing,
    /// The train crossed at least one boundary.
    PassesNode,
    /// A routing decision removed the train.
    Derailed,
}

impl TrainInstance {
    /// The train sits on an existing track, within its bounds.
    pub open spec fn wf_on(self, tracks: IdMap<TrackPiece>) -> bool {
        &&& self.properties.wf()
        &&& tracks.spec_contains(self.current_track)
        &&& self.progress <= track_units(tracks.spec_get(self.current_track)->Some_0.length)
    }

    /// The distance to the boundary ahead of the train, in thousandths of a
    /// pixel.
    pub open spec fn spec_remaining(self, tracks: IdMap<TrackPiece>) -> int {
        match self.direction {
            Direction::Forward => track_units(
                tracks.spec_get(self.current_track)->Some_0.length,
            ) - self.progress,
            Direction::Backward => self.progress as int,
        }
    }

    /// The reported estimate of the time to the boundary ahead:
    /// the remaining distance over the speed, rounded up to whole
    /// milliseconds.
    pub open spec fn spec_time_left(self, tracks: IdMap<TrackPiece>) -> int {
        ceil_div(self.spec_remaining(tracks), self.properties.speed as int)
    }

    /// The packet that describes this train's current state.
    pub open spec fn spec_packet(self, id: TrainID, tracks: IdMap<TrackPiece>) -> ServerPacket {
        ServerPacket::PacketTRAIN(
            id,
            self.current_track,
            (self.progress as int / tracks.spec_get(self.current_track)->Some_0.length as int)
                as u64,
            self.spec_time_left(tracks) as TimeMs,
            self.direction,
            match self.direction {
                Direction::Forward => self.properties.image_forward,
                Direction::Backward => self.properties.image_backward,
            },
        )
    }

    /// The time to reach the boundary ahead, in milliseconds, rounded up.
    /// It is zero exactly when the train sits at the boundary.
    pub fn estimated_time_left(&self, tracks: &IdMap<TrackPiece>) -> (r: TimeMs)
        requires
            tracks_wf(*tracks),
            self.wf_on(*tracks),
        ensures
            r == self.spec_time_left(*tracks),
            (r == 0 <==> self.spec_remaining(*tracks) == 0),
    {
        let t = match tracks.get(self.current_track) {
            Some(t) => t,
            None => vstd::pervasive::unreached(),
        };
        proof {
            let i = tracks.spec_index_of(self.current_track);
            tracks.lemma_at(i);
            assert(tracks@[i].1.wf());
            t.path.lemma_length_bound();
        }
        let units = t.length * 1000;
        let remaining = match self.direction {
            Direction::Forward => units - self.progress,
            Direction::Backward => self.progress,
        };
        let speed = self.properties.speed;
        let r = (remaining + (speed - 1)) / speed;
        proof {
            lemma_ceil_div_zero(remaining as int, speed as int);
        }
        r
    }

    /// The packet describing this train's current state: progress in
    /// thousandths of its track and the estimated time to its next boundary.
    pub fn to_packet(&self, id: TrainID, tracks: &IdMap<TrackPiece>) -> (r: ServerPacket)
        requires
            tracks_wf(*tracks),
            self.wf_on(*tracks),
        ensures
            r == self.spec_packet(id, *tracks),
    {
        let t = match tracks.get(self.current_track) {
            Some(t) => t,
            None => vstd::pervasive::unreached(),
        };
        proof {
            let i = tracks.spec_index_of(self.current_track);
            tracks.lemma_at(i);
            assert(tracks@[i].1.wf());
            t.path.lemma_length_bound();
        }
        let progress_milli = self.progress / t.length;
        let time_left = self.estimated_time_left(tracks);
        let image = match self.direction {
            Direction::Forward => self.properties.image_forward.clone(),
            Direction::Backward => self.properties.image_backward.clone(),
        };
        ServerPacket::PacketTRAIN(
            id,
            self.current_track,
            progress_milli,
            time_left,
            self.direction,
            image,
        )
    }

    /// Advances the train by `elapsed` milliseconds of travel at its speed.
    ///
    /// The distance budget is spent track by track: whenever the boundary
    /// ahead is within the budget, the node there routes the train — back
    /// onto the same track in the other direction, onto a target track at
    /// its entry boundary, or off the rails entirely — and the leftover
    /// budget carries over, so one call can cross several boundaries.  A
    /// leftover below the next boundary only advances the position.
    #[verifier::rlimit(100)]
    pub fn move_with_time(
        &mut self,
        elapsed: TimeMs,
        nodes: &mut IdMap<Node>,
        tracks: &IdMap<TrackPiece>,
    ) -> (r: MoveResult)
        requires
            old(self).wf_on(*tracks),
            graph_wf(*old(nodes), *tracks),
            all_routers_target_tracks(*old(nodes), *tracks),
        ensures
            nodes_same_mod_router_state(*old(nodes), *final(nodes)),
            graph_wf(*final(nodes), *tracks),
            all_routers_target_tracks(*final(nodes), *tracks),
            final(self).properties == old(self).properties,
            !(r is Derailed) ==> final(self).wf_on(*tracks),
            r is Nothing <==> move_budget(elapsed, old(self).properties.speed) < old(
                self,
            ).spec_remaining(*tracks),
            r is Nothing ==> *final(self) == spec_nothing_move(*old(self), elapsed),
            r is Nothing ==> *final(nodes) == *old(nodes),
            !(r is Derailed) ==> spec_move_outcome(
                *tracks,
                *final(nodes),
                *old(self),
                move_budget(elapsed, old(self).properties.speed),
                *final(self),
            ),
            !(r is Derailed) ==> final(self).spec_remaining(*tracks) > 0,
            !(r is Derailed) ==> exists|k: nat, tm: TrainInstance, bm: int|
                #[trigger] move_trace(
                    *tracks,
                    *old(nodes),
                    *old(self),
                    move_budget(elapsed, old(self).properties.speed),
                    *final(nodes),
                    tm,
                    bm,
                    k,
                ) && bm < tm.spec_remaining(*tracks) && final(self).current_track
                    == tm.current_track && final(self).direction == tm.direction
                    && final(self).progress == (match tm.direction {
                    Direction::Forward => tm.progress + bm,
                    Direction::Backward => tm.progress - bm,
                }) && final(self).properties == tm.properties && (r is PassesNode <==> k > 0),
            r is Derailed ==> exists|k: nat, nm: IdMap<Node>, tm: TrainInstance, bm: int|
                #[trigger] move_trace(
                    *tracks,
                    *old(nodes),
                    *old(self),
                    move_budget(elapsed, old(self).properties.speed),
                    nm,
                    tm,
                    bm,
                    k,
                ) && tm.spec_remaining(*tracks) <= bm && nodes_route_step(
                    nm,
                    *final(nodes),
                    spec_boundary_node(tm, *tracks),
                    tm.current_track,
                    tm.direction,
                    RoutingType::Derail,
                ),
    {
        let speed = self.properties.speed;
        let budget0 = match elapsed.checked_mul(speed) {
            Some(b) => b,
            None => u64::MAX,
        };
        let mut budget = budget0;
        let mut crossed = false;
        let ghost mut k: nat = 0;
        let ghost mut trace_t: TrainInstance = *old(self);
        let ghost mut trace_b: int = budget0 as int;
        loop
            invariant_except_break
                crossed ==> match self.direction {
                    Direction::Forward => self.progress == 0,
                    Direction::Backward => self.progress == track_units(
                        tracks.spec_get(self.current_track)->Some_0.length,
                    ),
                },
                !crossed ==> (*self == *old(self) && budget == budget0),
                move_trace(
                    *tracks,
                    *old(nodes),
                    *old(self),
                    budget0 as int,
                    *nodes,
                    *self,
                    budget as int,
                    k,
                ),
            invariant
                graph_wf(*nodes, *tracks),
                all_routers_target_tracks(*nodes, *tracks),
                nodes_same_mod_router_state(*old(nodes), *nodes),
                self.wf_on(*tracks),
                self.properties == old(self).properties,
                speed == old(self).properties.speed,
                budget0 == move_budget(elapsed, old(self).properties.speed),
                budget <= budget0,
                crossed <==> k > 0,
                crossed ==> budget0 >= old(self).spec_remaining(*tracks),
            ensures
                graph_wf(*nodes, *tracks),
                all_routers_target_tracks(*nodes, *tracks),
                nodes_same_mod_router_state(*old(nodes), *nodes),
                self.wf_on(*tracks),
                self.properties == old(self).properties,
                move_trace(
                    *tracks,
                    *old(nodes),
                    *old(self),
                    budget0 as int,
                    *nodes,
                    trace_t,
                    trace_b,
                    k,
                ),
                trace_b < trace_t.spec_remaining(*tracks),
                self.current_track == trace_t.current_track,
                self.direction == trace_t.direction,
                self.properties == trace_t.properties,
                self.progress == (match trace_t.direction {
                    Direction::Forward => trace_t.progress + trace_b,
                    Direction::Backward => trace_t.progress - trace_b,
                }),
                crossed <==> k > 0,
                !crossed ==> budget0 < old(self).spec_remaining(*tracks),
                crossed ==> budget0 >= old(self).spec_remaining(*tracks),
                !crossed ==> *self == spec_nothing_move(*old(self), elapsed),
            decreases budget, (if crossed {
                0int
            } else {
                1int
            }),
        {
            let ghost self_head = *self;
            let ghost b_head = budget;
            let t = match tracks.get(self.current_track) {
                Some(t) => t,
                None => vstd::pervasive::unreached(),
            };
            proof {
                let i = tracks.spec_index_of(self.current_track);
                tracks.lemma_at(i);
                assert(tracks@[i].1.wf());
                t.path.lemma_length_bound();
            }
            let units = t.length * 1000;
            let required = match self.direction {
                Direction::Forward => units - self.progress,
                Direction::Backward => self.progress,
            };
            if required <= budget {
                budget = budget - required;
                let node_id = match self.direction {
                    Direction::Forward => t.end,
                    Direction::Backward => t.start,
                };
                proof {
                    let i = tracks.spec_index_of(self.current_track);
                    tracks.lemma_at(i);
                    assert(nodes.spec_contains(tracks@[i].1.start));
                    assert(nodes.spec_contains(tracks@[i].1.end));
                    assert(spec_boundary_node(self_head, *tracks) == node_id);
                }
                let idx = match nodes.find_index(node_id) {
                    Some(i) => i,
                    None => vstd::pervasive::unreached(),
                };
                let ghost nodes_prev = *nodes;
                let ghost old_node = nodes@[idx as int].1;
                proof {
                    assert(nodes_prev@[idx as int].1.wf());
                }
                let node = nodes.value_at_mut(idx);
                let outcome = node.next_track(self.current_track, self.direction);
                proof {
                    let s_new = nodes@;
                    let s_prev = nodes_prev@;
                    let node_after = *final(node);
                    assert(s_new == s_prev.update(idx as int, (s_prev[idx as int].0, node_after)));
                    lemma_wf_same_keys(s_prev, s_new);
                    assert(nodes.wf());
                    assert(nodes_same_mod_router_state(nodes_prev, *nodes));
                    assert forall|i: int| 0 <= i < s_new.len() implies (
                    #[trigger] s_new[i]).1.wf() by {
                        if i != idx as int {
                            assert(s_prev[i].1.wf());
                        }
                    }
                    lemma_graph_wf_same_mod(nodes_prev, *nodes, *tracks);
                    lemma_same_mod_trans(*old(nodes), nodes_prev, *nodes);
                    nodes_prev.lemma_at(idx as int);
                    nodes.lemma_at(idx as int);
                    assert(nodes_route_step(
                        nodes_prev,
                        *nodes,
                        node_id,
                        self_head.current_track,
                        self_head.direction,
                        outcome,
                    ));
                }
                match outcome {
                    RoutingType::Derail => {
                        proof {
                            assert(move_trace(
                                *tracks,
                                *old(nodes),
                                *old(self),
                                budget0 as int,
                                nodes_prev,
                                self_head,
                                b_head as int,
                                k,
                            ));
                            assert(self_head.spec_remaining(*tracks) <= b_head);
                        }
                        return MoveResult::Derailed;
                    },
                    RoutingType::BounceBack => {
                        self.direction = self.direction.opposite();
                    },
                    RoutingType::Track(t2, d2) => {
                        proof {
                            match old_node.conn_type {
                                crate::base::NodeType::Random => {
                                    assert(old_node.connections.spec_get(t2) is Some);
                                    assert(crate::graph::induced_conn(
                                        old_node.id,
                                        t2,
                                        *tracks,
                                    ) is Some);
                                    assert(tracks.spec_contains(t2));
                                },
                                crate::base::NodeType::Configurable => {
                                    let rt = old_node.router->Some_0;
                                    let e = rt.spec_entry(
                                        self.current_track,
                                        self.direction,
                                    )->Some_0;
                                    assert(e.0.can_produce(RoutingType::Track(t2, d2)));
                                    let st_i = rt.states.spec_index_of(rt.current_state);
                                    rt.states.lemma_at(st_i);
                                    let st = rt.states@[st_i].1;
                                    let tbl = st.table(self.direction);
                                    let e_j = tbl.spec_index_of(self.current_track);
                                    tbl.lemma_at(e_j);
                                    assert(router_node_targets_helper(
                                        nodes_prev,
                                        idx as int,
                                        *tracks,
                                    ));
                                    assert(table_targets_tracks(tbl, *tracks));
                                    assert(tbl@[e_j].1.0.can_produce(
                                        RoutingType::Track(t2, d2),
                                    ));
                                    assert(tracks.spec_contains(t2));
                                },
                                _ => {},
                            }
                        }
                        self.current_track = t2;
                        self.direction = d2;
                    },
                }
                let nt = match tracks.get(self.current_track) {
                    Some(t) => t,
                    None => vstd::pervasive::unreached(),
                };
                proof {
                    let i = tracks.spec_index_of(self.current_track);
                    tracks.lemma_at(i);
                    assert(tracks@[i].1.wf());
                    nt.path.lemma_length_bound();
                }
                let nunits = nt.length * 1000;
                self.progress = match self.direction {
                    Direction::Forward => 0,
                    Direction::Backward => nunits,
                };
                crossed = true;
                proof {
                    assert(move_crossing(
                        *tracks,
                        nodes_prev,
                        self_head,
                        b_head as int,
                        *nodes,
                        *self,
                        budget as int,
                    )) by {
                        assert(nodes_route_step(
                            nodes_prev,
                            *nodes,
                            spec_boundary_node(self_head, *tracks),
                            self_head.current_track,
                            self_head.direction,
                            outcome,
                        ));
                    }
                    lemma_move_trace_extend(
                        *tracks,
                        *old(nodes),
                        *old(self),
                        budget0 as int,
                        nodes_prev,
                        self_head,
                        b_head as int,
                        *nodes,
                        *self,
                        budget as int,
                        k,
                    );
                    k = k + 1;
                }
            } else {
                proof {
                    trace_t = *self;
                    trace_b = budget as int;
                }
                self.progress = match self.direction {
                    Direction::Forward => self.progress + budget,
                    Direction::Backward => self.progress - budget,
                };
                break ;
            }
        }
        proof {
            lemma_same_mod_sym(*old(nodes), *nodes);
            reveal(spec_move_outcome);
            assert(spec_move_outcome(*tracks, *nodes, *old(self), budget0 as int, *self));
        }
        if crossed {
            MoveResult::PassesNode
        } else {
            proof {
                assert(*nodes == *old(nodes));
            }
            MoveResult::Nothing
        }
    }
}

/// The router of the node at `idx` targets only existing tracks.
pub open spec fn router_node_targets_helper(
    nodes: IdMap<Node>,
    idx: int,
    tracks: IdMap<TrackPiece>,
) -> bool {
    crate::graph::node_router_targets(nodes@[idx].1, tracks)
}

} // verus!
