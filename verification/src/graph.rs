//! The track graph: nodes (junctions with a routing policy) and track
//! segments (curves between two nodes with a cached approximate length).
//!
//! The graph keeps a two-way connection record: each node maps every track
//! that touches it to the set of travel directions which pass through the
//! node.  A well-formed graph keeps that record exactly equal to what the
//! track endpoints induce: travelling forward along a track leads through
//! its end node, travelling backward through its start node.

use vstd::prelude::*;
use crate::base::{
    multi_of_direction, spec_multi_of_direction, Color, Direction, MultiDirection, NodeID,
    NodeType, Thickness, TrackID,
};
use crate::geom::{Bezier, BezierDiff, Coord};
use crate::idmap::IdMap;
use crate::packets::ServerPacket;
use crate::rng::rand_below;
use crate::router::{BuiltAfterEffects, BuiltCompoundRoutingType, BuiltRouter};
use crate::routing::{RoutingInfo, RoutingType};

verus! {

/// A junction of the track graph.
pub struct Node {
    pub id: NodeID,
    pub coord: Coord,
    /// Which directions of travel through each touching track pass through
    /// this node.
    pub connections: IdMap<MultiDirection>,
    pub conn_type: NodeType,
    pub routing_info: Option<RoutingInfo>,
    /// The sampler-ready router compiled from `routing_info`.
    pub router: Option<BuiltRouter>,
}

/// A track segment: a curve between two nodes with a cached approximate
/// length in pixels.
pub struct TrackPiece {
    pub id: TrackID,
    pub start: NodeID,
    pub end: NodeID,
    pub path: Bezier,
    pub color: Color,
    pub thickness: Thickness,
    /// The chord-average length of `path`, clamped to at least one pixel.
    pub length: u64,
}

impl TrackPiece {
    pub open spec fn wf(self) -> bool {
        &&& self.path.in_range()
        &&& self.length == self.path.spec_effective_length()
    }
}

impl Node {
    /// Local well-formedness: a configurable node carries a configuration
    /// and its compiled router, and a configured router was validated.
    pub open spec fn wf(self) -> bool {
        &&& self.coord.in_range()
        &&& self.connections.wf()
        &&& (self.routing_info is Some <==> self.router is Some)
        &&& self.conn_type == NodeType::Configurable ==> self.routing_info is Some
        &&& match (self.routing_info, self.router) {
            (Some(info), Some(rt)) => {
                &&& info.wf()
                &&& rt.wf()
                &&& rt.configured == info.configured
                &&& (info.configured ==> info.spec_valid())
            },
            _ => true,
        }
    }

    pub fn to_packet(&self) -> (r: ServerPacket)
        ensures
            r == ServerPacket::PacketNODE(self.id, self.coord),
    {
        ServerPacket::PacketNODE(self.id, self.coord)
    }
}

/// The effect of registering `track` with entry direction `dir` on a
/// connection map.
pub open spec fn connections_connected(
    old_c: IdMap<MultiDirection>,
    new_c: IdMap<MultiDirection>,
    track: TrackID,
    dir: Direction,
) -> bool {
    &&& new_c.wf()
    &&& forall|t: TrackID| t != track ==> new_c.spec_get(t) == old_c.spec_get(t)
    &&& new_c.spec_get(track) == Some(
        match old_c.spec_get(track) {
            Some(md) => md.spec_add_direction(dir),
            None => spec_multi_of_direction(dir),
        },
    )
    &&& forall|t: TrackID| #[trigger] new_c.spec_contains(t) <==> (old_c.spec_contains(t) || t
        == track)
}

/// The effect of [`Node::connect`]: only the connection map changes.
pub open spec fn node_connected(old_n: Node, new_n: Node, track: TrackID, dir: Direction) -> bool {
    &&& new_n.id == old_n.id
    &&& new_n.coord == old_n.coord
    &&& new_n.conn_type == old_n.conn_type
    &&& new_n.routing_info == old_n.routing_info
    &&& new_n.router == old_n.router
    &&& connections_connected(old_n.connections, new_n.connections, track, dir)
}

impl Node {
    /// Records that travelling in `direction` along `track_id` passes
    /// through this node.
    pub fn connect(&mut self, track_id: TrackID, direction: Direction)
        requires
            old(self).connections.wf(),
        ensures
            node_connected(*old(self), *final(self), track_id, direction),
    {
        let md = match self.connections.get(track_id) {
            Some(md) => {
                let mut md = *md;
                md.add_direction(direction);
                md
            },
            None => multi_of_direction(direction),
        };
        self.connections.insert(track_id, md);
    }
}

impl TrackPiece {
    /// Creates a track between two existing nodes and registers it in both
    /// endpoints' connection maps: the start node is reached travelling
    /// backward, the end node travelling forward (both, for a loop onto one
    /// node).  The curve runs from the start node's position to the end
    /// node's.
    pub fn new(
        id: TrackID,
        start_id: NodeID,
        end_id: NodeID,
        nodes: &mut IdMap<Node>,
        diff: BezierDiff,
        color: Color,
        thickness: Thickness,
    ) -> (r: TrackPiece)
        requires
            old(nodes).wf(),
            old(nodes).spec_contains(start_id),
            old(nodes).spec_contains(end_id),
            old(nodes).spec_get(start_id)->Some_0.connections.wf(),
            old(nodes).spec_get(end_id)->Some_0.connections.wf(),
            old(nodes).spec_get(start_id)->Some_0.coord.in_range(),
            old(nodes).spec_get(end_id)->Some_0.coord.in_range(),
            diff.in_range(),
        ensures
            final(nodes).wf(),
            final(nodes)@.len() == old(nodes)@.len(),
            forall|i: int| 0 <= i < final(nodes)@.len() ==> (#[trigger] final(nodes)@[i]).0
                == old(nodes)@[i].0,
            forall|k: NodeID| #[trigger] final(nodes).spec_contains(k) <==> old(
                nodes,
            ).spec_contains(k),
            forall|k: NodeID| k != start_id && k != end_id ==> final(nodes).spec_get(k) == old(
                nodes,
            ).spec_get(k),
            ({
                let old_s = old(nodes).spec_get(start_id)->Some_0;
                let old_e = old(nodes).spec_get(end_id)->Some_0;
                if start_id != end_id {
                    &&& final(nodes).spec_get(start_id) matches Some(sn) && node_connected(
                        old_s,
                        sn,
                        id,
                        Direction::Backward,
                    )
                    &&& final(nodes).spec_get(end_id) matches Some(en) && node_connected(
                        old_e,
                        en,
                        id,
                        Direction::Forward,
                    )
                } else {
                    &&& final(nodes).spec_get(start_id) is Some
                    &&& exists|mid: Node|
                        node_connected(old_s, mid, id, Direction::Backward) && node_connected(
                            mid,
                            final(nodes).spec_get(start_id)->Some_0,
                            id,
                            Direction::Forward,
                        )
                }
            }),
            r.id == id,
            r.start == start_id,
            r.end == end_id,
            r.path == Bezier::spec_new(
                old(nodes).spec_get(start_id)->Some_0.coord,
                old(nodes).spec_get(end_id)->Some_0.coord,
                diff,
            ),
            r.color == color,
            r.thickness == thickness,
            r.wf(),
    {
        let si = match nodes.find_index(start_id) {
            Some(i) => i,
            None => vstd::pervasive::unreached(),
        };
        proof {
            nodes.lemma_at(si as int);
        }
        let ghost nodes0 = *nodes;
        let start_node = nodes.value_at_mut(si);
        let start_coord = start_node.coord;
        start_node.connect(id, Direction::Backward);
        let ghost mid_nodes = *nodes;
        proof {
            crate::idmap::lemma_wf_same_keys(nodes0@, nodes@);
            nodes.lemma_at(si as int);
            IdMap::lemma_same_index_get(nodes0, *nodes);
        }
        if start_id == end_id {
            let ghost mid = nodes@[si as int].1;
            let start_node = nodes.value_at_mut(si);
            start_node.connect(id, Direction::Forward);
            proof {
                crate::idmap::lemma_wf_same_keys(mid_nodes@, nodes@);
                nodes.lemma_at(si as int);
                IdMap::lemma_same_index_get(mid_nodes, *nodes);
                IdMap::lemma_same_index_get(nodes0, *nodes);
                assert(node_connected(nodes0@[si as int].1, mid, id, Direction::Backward));
                assert(node_connected(mid, nodes@[si as int].1, id, Direction::Forward));
            }
            let path = Bezier::new(start_coord, start_coord, diff);
            let length = path.effective_length();
            TrackPiece { id, start: start_id, end: end_id, path, color, thickness, length }
        } else {
            let ei = match nodes.find_index(end_id) {
                Some(i) => i,
                None => vstd::pervasive::unreached(),
            };
            proof {
                nodes.lemma_at(ei as int);
                nodes0.lemma_at(ei as int);
                assert(ei != si);
            }
            let ghost nodes_mid = *nodes;
            let end_node = nodes.value_at_mut(ei);
            let end_coord = end_node.coord;
            end_node.connect(id, Direction::Forward);
            proof {
                crate::idmap::lemma_wf_same_keys(nodes_mid@, nodes@);
                nodes.lemma_at(si as int);
                nodes.lemma_at(ei as int);
                IdMap::lemma_same_index_get(nodes_mid, *nodes);
                IdMap::lemma_same_index_get(nodes0, *nodes);
            }
            let path = Bezier::new(start_coord, end_coord, diff);
            let length = path.effective_length();
            TrackPiece { id, start: start_id, end: end_id, path, color, thickness, length }
        }
    }
}

/// The direction set that `tracks` induces for track `tid` at node `nid`:
/// travelling backward reaches the start node, forward the end node.
pub open spec fn induced_conn(nid: NodeID, tid: TrackID, tracks: IdMap<TrackPiece>) -> Option<
    MultiDirection,
> {
    match tracks.spec_get(tid) {
        None => None,
        Some(tr) => if tr.start == nid && tr.end == nid {
            Some(MultiDirection::Both)
        } else if tr.start == nid {
            Some(MultiDirection::Backward)
        } else if tr.end == nid {
            Some(MultiDirection::Forward)
        } else {
            None
        },
    }
}

/// The tracks alone are well-formed and keyed by their own identifiers.
pub open spec fn tracks_wf(tracks: IdMap<TrackPiece>) -> bool {
    &&& tracks.wf()
    &&& forall|i: int| 0 <= i < tracks@.len() ==> {
        &&& (#[trigger] tracks@[i]).1.wf()
        &&& tracks@[i].1.id == tracks@[i].0
    }
}

/// Well-formedness of the whole graph: nodes and tracks are keyed by their
/// own identifiers, every track runs between existing nodes with its curve
/// pinned to their positions, and every connection map is exactly what the
/// track endpoints induce.
pub open spec fn graph_wf(nodes: IdMap<Node>, tracks: IdMap<TrackPiece>) -> bool {
    &&& nodes.wf()
    &&& tracks_wf(tracks)
    &&& forall|i: int| 0 <= i < nodes@.len() ==> {
        &&& (#[trigger] nodes@[i]).1.wf()
        &&& nodes@[i].1.id == nodes@[i].0
    }
    &&& forall|i: int| 0 <= i < tracks@.len() ==> {
        &&& nodes.spec_contains((#[trigger] tracks@[i]).1.start)
        &&& nodes.spec_contains(tracks@[i].1.end)
        &&& nodes.spec_get(tracks@[i].1.start)->Some_0.coord == tracks@[i].1.path.spec_start()
        &&& nodes.spec_get(tracks@[i].1.end)->Some_0.coord == tracks@[i].1.path.spec_end()
    }
    &&& forall|i: int, tid: TrackID|
        #![trigger nodes@[i].1.connections.spec_get(tid)]
        0 <= i < nodes@.len() ==> nodes@[i].1.connections.spec_get(tid) == induced_conn(
            nodes@[i].0,
            tid,
            tracks,
        )
}

/// Every track outcome an entry of `tbl` can produce targets a track of
/// `tracks`.
pub open spec fn table_targets_tracks(
    tbl: IdMap<(BuiltCompoundRoutingType, BuiltAfterEffects)>,
    tracks: IdMap<TrackPiece>,
) -> bool {
    forall|j: int, t: TrackID, d: Direction|
        0 <= j < tbl@.len() && #[trigger] tbl@[j].1.0.can_produce(RoutingType::Track(t, d))
            ==> tracks.spec_contains(t)
}

/// Every track outcome `rt` can produce targets a track of `tracks`.
pub open spec fn router_targets_tracks(rt: BuiltRouter, tracks: IdMap<TrackPiece>) -> bool {
    forall|i: int| 0 <= i < rt.states@.len() ==> {
        &&& table_targets_tracks((#[trigger] rt.states@[i]).1.forward, tracks)
        &&& table_targets_tracks(rt.states@[i].1.backward, tracks)
    }
}

pub open spec fn node_router_targets(n: Node, tracks: IdMap<TrackPiece>) -> bool {
    match n.router {
        None => true,
        Some(rt) => router_targets_tracks(rt, tracks),
    }
}

/// Every router in the graph only routes onto existing tracks.
pub open spec fn all_routers_target_tracks(nodes: IdMap<Node>, tracks: IdMap<TrackPiece>) -> bool {
    forall|i: int| 0 <= i < nodes@.len() ==> node_router_targets((#[trigger] nodes@[i]).1, tracks)
}

/// Two nodes that differ at most in their router's current state.
pub open spec fn node_same_mod_router_state(a: Node, b: Node) -> bool {
    &&& b.id == a.id
    &&& b.coord == a.coord
    &&& b.connections == a.connections
    &&& b.conn_type == a.conn_type
    &&& b.routing_info == a.routing_info
    &&& match (a.router, b.router) {
        (Option::None, Option::None) => true,
        (Some(x), Some(y)) => y.states == x.states && y.configured == x.configured,
        _ => false,
    }
}

/// Two node maps that differ at most in some routers' current states.
pub open spec fn nodes_same_mod_router_state(a: IdMap<Node>, b: IdMap<Node>) -> bool {
    &&& b@.len() == a@.len()
    &&& forall|i: int| 0 <= i < b@.len() ==> {
        &&& (#[trigger] b@[i]).0 == a@[i].0
        &&& node_same_mod_router_state(a@[i].1, b@[i].1)
    }
}

pub proof fn lemma_same_mod_sym(a: IdMap<Node>, b: IdMap<Node>)
    requires
        nodes_same_mod_router_state(a, b),
    ensures
        nodes_same_mod_router_state(b, a),
{
    assert forall|i: int| 0 <= i < a@.len() implies {
        &&& (#[trigger] a@[i]).0 == b@[i].0
        &&& node_same_mod_router_state(b@[i].1, a@[i].1)
    } by {
        assert(node_same_mod_router_state(a@[i].1, b@[i].1));
    }
}

pub proof fn lemma_same_mod_trans(a: IdMap<Node>, b: IdMap<Node>, c: IdMap<Node>)
    requires
        nodes_same_mod_router_state(a, b),
        nodes_same_mod_router_state(b, c),
    ensures
        nodes_same_mod_router_state(a, c),
{
}

/// Node maps that agree up to router state agree on lookups, up to router
/// state.
pub proof fn lemma_same_mod_get(a: IdMap<Node>, b: IdMap<Node>, k: NodeID)
    requires
        a.wf(),
        b.wf(),
        nodes_same_mod_router_state(a, b),
    ensures
        b.spec_contains(k) == a.spec_contains(k),
        a.spec_contains(k) ==> (b.spec_get(k) matches Some(bn) && node_same_mod_router_state(
            a.spec_get(k)->Some_0,
            bn,
        )),
{
    if a.spec_contains(k) {
        let i = a.spec_index_of(k);
        a.lemma_at(i);
        assert(b@[i].0 == k);
        b.lemma_at(i);
    }
    if b.spec_contains(k) {
        let i = b.spec_index_of(k);
        b.lemma_at(i);
        assert(a@[i].0 == k);
        a.lemma_at(i);
    }
}

/// Routing a train through one node preserves graph well-formedness and
/// router targets: only a router's current state changed.
pub proof fn lemma_graph_wf_same_mod(
    a: IdMap<Node>,
    b: IdMap<Node>,
    tracks: IdMap<TrackPiece>,
)
    requires
        graph_wf(a, tracks),
        all_routers_target_tracks(a, tracks),
        b.wf(),
        nodes_same_mod_router_state(a, b),
        forall|i: int| 0 <= i < b@.len() ==> (#[trigger] b@[i]).1.wf(),
    ensures
        graph_wf(b, tracks),
        all_routers_target_tracks(b, tracks),
{
    assert forall|i: int| 0 <= i < tracks@.len() implies {
        &&& b.spec_contains((#[trigger] tracks@[i]).1.start)
        &&& b.spec_contains(tracks@[i].1.end)
        &&& b.spec_get(tracks@[i].1.start)->Some_0.coord == tracks@[i].1.path.spec_start()
        &&& b.spec_get(tracks@[i].1.end)->Some_0.coord == tracks@[i].1.path.spec_end()
    } by {
        lemma_same_mod_get(a, b, tracks@[i].1.start);
        lemma_same_mod_get(a, b, tracks@[i].1.end);
    }
    assert forall|i: int, tid: TrackID|
        #![trigger b@[i].1.connections.spec_get(tid)]
        0 <= i < b@.len() implies b@[i].1.connections.spec_get(tid) == induced_conn(
        b@[i].0,
        tid,
        tracks,
    ) by {
        assert(a@[i].1.connections.spec_get(tid) == induced_conn(a@[i].0, tid, tracks));
    }
    assert forall|i: int| 0 <= i < b@.len() implies node_router_targets(
        (#[trigger] b@[i]).1,
        tracks,
    ) by {
        assert(node_router_targets(a@[i].1, tracks));
        match (a@[i].1.router, b@[i].1.router) {
            (Some(x), Some(y)) => {
                assert(y.states == x.states);
            },
            _ => {},
        }
    }
}

/// A router that targets only tracks of `a` also targets only tracks of a
/// superset `b`.
pub proof fn lemma_router_targets_monotone(
    rt: BuiltRouter,
    a: IdMap<TrackPiece>,
    b: IdMap<TrackPiece>,
)
    requires
        router_targets_tracks(rt, a),
        forall|t: TrackID| #[trigger] a.spec_contains(t) ==> b.spec_contains(t),
    ensures
        router_targets_tracks(rt, b),
{
    assert forall|i: int| 0 <= i < rt.states@.len() implies {
        &&& table_targets_tracks((#[trigger] rt.states@[i]).1.forward, b)
        &&& table_targets_tracks(rt.states@[i].1.backward, b)
    } by {
        assert(table_targets_tracks(rt.states@[i].1.forward, a));
        assert(table_targets_tracks(rt.states@[i].1.backward, a));
        assert forall|j: int, t: TrackID, d: Direction|
            0 <= j < rt.states@[i].1.forward@.len()
                && #[trigger] rt.states@[i].1.forward@[j].1.0.can_produce(
                RoutingType::Track(t, d),
            ) implies b.spec_contains(t) by {
            assert(a.spec_contains(t));
        }
        assert forall|j: int, t: TrackID, d: Direction|
            0 <= j < rt.states@[i].1.backward@.len()
                && #[trigger] rt.states@[i].1.backward@[j].1.0.can_produce(
                RoutingType::Track(t, d),
            ) implies b.spec_contains(t) by {
            assert(a.spec_contains(t));
        }
    }
}

/// Node maps with pointwise equal keys hold the same identifiers, and each
/// lookup lands at the same index.
pub proof fn lemma_same_keys_get(a: IdMap<Node>, b: IdMap<Node>, k: NodeID)
    requires
        a.wf(),
        b.wf(),
        b@.len() == a@.len(),
        forall|i: int| 0 <= i < b@.len() ==> (#[trigger] b@[i]).0 == a@[i].0,
    ensures
        b.spec_contains(k) == a.spec_contains(k),
        a.spec_contains(k) ==> b.spec_get(k) == Some(b@[a.spec_index_of(k)].1),
{
    if a.spec_contains(k) {
        let i = a.spec_index_of(k);
        a.lemma_at(i);
        assert(b@[i].0 == k);
        b.lemma_at(i);
    }
    if b.spec_contains(k) {
        let i = b.spec_index_of(k);
        b.lemma_at(i);
        assert(a@[i].0 == k);
        a.lemma_at(i);
    }
}

/// Replacing one node in place — keeping its identifier, position and
/// connections — preserves graph well-formedness.
pub proof fn lemma_graph_wf_update_node(
    prev: IdMap<Node>,
    cur: IdMap<Node>,
    tracks: IdMap<TrackPiece>,
    idx: int,
)
    requires
        graph_wf(prev, tracks),
        0 <= idx < prev@.len(),
        cur@ == prev@.update(idx, (prev@[idx].0, cur@[idx].1)),
        cur@[idx].1.wf(),
        cur@[idx].1.id == prev@[idx].1.id,
        cur@[idx].1.coord == prev@[idx].1.coord,
        cur@[idx].1.connections == prev@[idx].1.connections,
    ensures
        graph_wf(cur, tracks),
{
    crate::idmap::lemma_wf_same_keys(prev@, cur@);
    assert forall|i: int| 0 <= i < tracks@.len() implies {
        &&& cur.spec_contains((#[trigger] tracks@[i]).1.start)
        &&& cur.spec_contains(tracks@[i].1.end)
        &&& cur.spec_get(tracks@[i].1.start)->Some_0.coord == tracks@[i].1.path.spec_start()
        &&& cur.spec_get(tracks@[i].1.end)->Some_0.coord == tracks@[i].1.path.spec_end()
    } by {
        lemma_same_keys_get(prev, cur, tracks@[i].1.start);
        lemma_same_keys_get(prev, cur, tracks@[i].1.end);
        let ps = prev.spec_index_of(tracks@[i].1.start);
        prev.lemma_at(ps);
        let pe = prev.spec_index_of(tracks@[i].1.end);
        prev.lemma_at(pe);
    }
    assert forall|i: int, tid: TrackID|
        #![trigger cur@[i].1.connections.spec_get(tid)]
        0 <= i < cur@.len() implies cur@[i].1.connections.spec_get(tid) == induced_conn(
        cur@[i].0,
        tid,
        tracks,
    ) by {
        assert(prev@[i].1.connections.spec_get(tid) == induced_conn(prev@[i].0, tid, tracks));
    }
}


/// The relation one routing consultation establishes between the node
/// before and after, the incoming track and direction, and the outcome.
/// Only a router's current state may change; the outcome obeys the node's
/// policy: `Reverse` (and the open `RoundRobin` stub) reflect, `Derail`
/// derails, `Random` continues onto another connected track whenever one
/// exists and reflects otherwise, and a configurable node draws from its
/// current state's table — reflecting while unconfigured and derailing on
/// a missing entry.
pub open spec fn node_route_step(
    n1: Node,
    n2: Node,
    incoming: TrackID,
    dir: Direction,
    rt: RoutingType,
) -> bool {
    &&& n2.id == n1.id
    &&& n2.coord == n1.coord
    &&& n2.connections == n1.connections
    &&& n2.conn_type == n1.conn_type
    &&& n2.routing_info == n1.routing_info
    &&& match (n1.router, n2.router) {
        (Option::None, Option::None) => true,
        (Some(a), Some(b)) => b.states == a.states && b.configured == a.configured,
        _ => false,
    }
    &&& match n1.conn_type {
        NodeType::Random => {
            &&& n2 == n1
            &&& ((forall|t: TrackID| #[trigger] n1.connections.spec_contains(t) ==> t
                == incoming) ==> rt == RoutingType::BounceBack)
            &&& ((exists|t: TrackID| #[trigger] n1.connections.spec_contains(t) && t
                != incoming) ==> rt is Track)
            &&& match rt {
                RoutingType::BounceBack => true,
                RoutingType::Track(t, d) => {
                    &&& n1.connections.spec_contains(t)
                    &&& t != incoming
                    &&& n1.connections.spec_get(t) matches Some(md) && md.spec_has_direction(
                        d.spec_opposite(),
                    )
                },
                RoutingType::Derail => false,
            }
        },
        NodeType::RoundRobin => rt == RoutingType::BounceBack && n2 == n1,
        NodeType::Reverse => rt == RoutingType::BounceBack && n2 == n1,
        NodeType::Derail => rt == RoutingType::Derail && n2 == n1,
        NodeType::Configurable => match n1.router {
            Option::None => rt == RoutingType::BounceBack && n2 == n1,
            Some(r1) => {
                &&& (!r1.configured ==> rt == RoutingType::BounceBack && n2 == n1)
                &&& (r1.configured ==> match r1.spec_entry(incoming, dir) {
                    Option::None => rt == RoutingType::Derail && n2 == n1,
                    Some(e) => e.0.can_produce(rt) && e.1.can_switch(
                        r1.current_state,
                        n2.router->Some_0.current_state,
                    ),
                })
            },
        },
    }
}

impl Node {
    /// Consults this node's routing policy for a train that arrived on
    /// `current_track` travelling in `current_direction`.
    ///
    /// A `Random` node picks uniformly among its other connected tracks and
    /// reflects the train back when it has none; a track is left in a
    /// direction whose reverse passes through this node.  `Reverse` always
    /// reflects; `Derail` always derails.  `RoundRobin` is reserved for a
    /// deterministic next-in-order selection that is an open design
    /// decision; until settled such nodes reflect the train back.
    /// `Configurable` delegates to the compiled router.
    pub fn next_track(&mut self, current_track: TrackID, current_direction: Direction) -> (r:
        RoutingType)
        requires
            old(self).wf(),
        ensures
            final(self).wf(),
            node_route_step(*old(self), *final(self), current_track, current_direction, r),
    {
        match self.conn_type {
            NodeType::Random => {
                let n = self.connections.len();
                let mut others: Vec<(TrackID, MultiDirection)> = Vec::new();
                let mut i: usize = 0;
                while i < n
                    invariant
                        i <= n,
                        n == self.connections@.len(),
                        self.connections.wf(),
                        forall|j: int| 0 <= j < others@.len() ==> {
                            &&& self.connections.spec_contains((#[trigger] others@[j]).0)
                            &&& others@[j].0 != current_track
                            &&& self.connections.spec_get(others@[j].0) == Some(others@[j].1)
                        },
                        (forall|j: int| 0 <= j < i ==> (#[trigger] self.connections@[j]).0
                            == current_track) ==> others@.len() == 0,
                        (exists|j: int| 0 <= j < i && (#[trigger] self.connections@[j]).0
                            != current_track) ==> others@.len() > 0,
                    decreases n - i,
                {
                    let t = self.connections.key_at(i);
                    if t != current_track {
                        let md = *self.connections.value_at(i);
                        proof {
                            self.connections.lemma_at(i as int);
                        }
                        others.push((t, md));
                    }
                    i = i + 1;
                }
                if others.len() == 0 {
                    proof {
                        assert forall|t: TrackID| #[trigger] self.connections.spec_contains(
                            t,
                        ) implies t == current_track by {
                            let j = choose|j: int|
                                0 <= j < self.connections@.len() && self.connections@[j].0 == t;
                            if self.connections@[j].0 != current_track {
                                assert(exists|j2: int| 0 <= j2 < self.connections@.len()
                                    && (#[trigger] self.connections@[j2]).0 != current_track);
                            }
                        }
                    }
                    return RoutingType::BounceBack;
                }
                let pick = rand_below(others.len());
                let (t, md) = others[pick];
                let entry_dir = match md {
                    MultiDirection::Forward => Direction::Forward,
                    MultiDirection::Backward => Direction::Backward,
                    MultiDirection::Both => {
                        if rand_below(2) == 0 {
                            Direction::Forward
                        } else {
                            Direction::Backward
                        }
                    },
                };
                RoutingType::Track(t, entry_dir.opposite())
            },
            NodeType::RoundRobin => RoutingType::BounceBack,
            NodeType::Reverse => RoutingType::BounceBack,
            NodeType::Derail => RoutingType::Derail,
            NodeType::Configurable => {
                match &mut self.router {
                    Some(rt) => rt.route((current_track, current_direction)),
                    None => RoutingType::BounceBack,
                }
            },
        }
    }
}

} // verus!
