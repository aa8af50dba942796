//! The simulation engine: the authoritative graph, train registry and
//! serial counters, together with the decision logic of the actor loop.
//!
//! The hosting loop owns the channels and timers; it hands each event —
//! a timer tick, a click, a control command, a new subscription — to one of
//! the handlers here, along with the wall time elapsed since the previous
//! wake, and fans the returned packets out to every viewer.  Every handler
//! first re-integrates all trains for that elapsed time, as the actor does.

use vstd::prelude::*;
use crate::base::{
    ClickModifier, Color, Direction, MultiDirection, NodeID, NodeType, RemovalType, Thickness,
    TimeMs, TrackID, TrainID,
};
use crate::geom::{Bezier, Coord, MAX_COORD};
use vstd::string::StringExecFns;
use crate::geom::BezierDiff;
use crate::graph::{
    all_routers_target_tracks, graph_wf, induced_conn, lemma_graph_wf_same_mod,
    lemma_same_mod_trans, node_connected, nodes_same_mod_router_state, tracks_wf, Node,
    TrackPiece,
};
use crate::idmap::{lemma_wf_same_keys, IdMap};
use crate::packets::{CtrlError, CtrlPacket, ServerPacket};
use crate::router::BuiltRouter;
use crate::routing::{RoutingCheckError, RoutingInfo, RoutingType};
use crate::train::{
    ceil_div, lemma_move_outcome_rebase, spec_move_outcome, track_units, MoveResult,
    TrainInstance, TrainProperties, MAX_SPEED,
};

verus! {

/// The extra travel time a plain click grants the clicked train, in
/// milliseconds.
pub const CLICK_BONUS_MS: u64 = 5000;

/// The rows of a `PacketTRACK` broadcast: every track's identifier, curve,
/// colour and thickness, in ascending track order.
pub open spec fn spec_track_table(tracks: IdMap<TrackPiece>) -> Seq<
    (TrackID, Bezier, crate::base::Color, Thickness),
> {
    tracks@.map_values(|p: (TrackID, TrackPiece)| (p.0, p.1.path, p.1.color, p.1.thickness))
}

/// The image drawn for a train travelling forward.
fn default_forward_image() -> crate::base::ImageSrc {
    String::from_str("train_right_debug.png")
}

/// The image drawn for a train travelling backward.
fn default_backward_image() -> crate::base::ImageSrc {
    String::from_str("train_left_debug.png")
}

/// Every track outcome listed by a node's stored routing configuration
/// targets an existing track.  Installation checks this; it is part of the
/// engine invariant so that a persisted layout always loads back.
pub open spec fn node_info_targets(n: Node, tracks: IdMap<TrackPiece>) -> bool {
    match n.routing_info {
        None => true,
        Some(info) => forall|t: TrackID, d: Direction| #[trigger] info.spec_has_outcome(
            RoutingType::Track(t, d),
        ) ==> tracks.spec_contains(t),
    }
}

/// The time a train is integrated by on one event: the shared elapsed
/// time, plus the click bonus for the clicked train.
pub open spec fn spec_train_elapsed(
    elapsed: TimeMs,
    bonus_for: Option<TrainID>,
    k: TrainID,
) -> TimeMs {
    if bonus_for == Some(k) {
        if elapsed + CLICK_BONUS_MS > u64::MAX {
            u64::MAX
        } else {
            (elapsed + CLICK_BONUS_MS) as u64
        }
    } else {
        elapsed
    }
}

/// What one integration pass guarantees for each train of the starting
/// registry (a train named in `except` excluded): a train whose boundary
/// lies beyond its distance budget advanced by exactly the budget and is
/// mentioned by no packet; a train is dropped exactly when a derail
/// removal packet for it is broadcast; every surviving entry is a legal
/// move outcome of the old one for its whole budget, under node maps that
/// differ from the final ones only in router state
/// ([`spec_move_outcome`]); and a surviving train that reached its
/// boundary has its updated state broadcast.
#[verifier::opaque]
pub open spec fn spec_integrated(
    old_e: Engine,
    new_e: Engine,
    broadcasts: Seq<ServerPacket>,
    elapsed: TimeMs,
    bonus_for: Option<TrainID>,
    except: Option<TrainID>,
) -> bool {
    forall|kt: TrainID|
        (#[trigger] old_e.trains.spec_contains(kt) && Some(kt) != except) ==> ({
            let t = old_e.trains.spec_get(kt)->Some_0;
            let e_k = spec_train_elapsed(elapsed, bonus_for, kt);
            let b = crate::train::move_budget(e_k, t.properties.speed);
            &&& (b < t.spec_remaining(old_e.tracks) ==> (new_e.trains.spec_get(kt) == Some(
                crate::train::spec_nothing_move(t, e_k),
            ) && forall|j: int| 0 <= j < broadcasts.len() ==> packet_train_id(
                #[trigger] broadcasts[j],
            ) != Some(kt)))
            &&& (!new_e.trains.spec_contains(kt) ==> broadcasts.contains(
                ServerPacket::PacketREMOVE(kt, RemovalType::Derail),
            ))
            &&& (broadcasts.contains(ServerPacket::PacketREMOVE(kt, RemovalType::Derail))
                ==> !new_e.trains.spec_contains(kt))
            &&& (new_e.trains.spec_contains(kt) ==> spec_move_outcome(
                old_e.tracks,
                new_e.nodes,
                t,
                b,
                new_e.trains.spec_get(kt)->Some_0,
            ))
            &&& ((new_e.trains.spec_contains(kt) && b >= t.spec_remaining(old_e.tracks))
                ==> broadcasts.contains(new_e.trains.spec_get(kt)->Some_0.spec_packet(
                kt,
                old_e.tracks,
            )))
        })
}

/// Integration claims survive prefixing the packet list with packets that
/// name no train, when the integrated registry and track map are the
/// starting ones.
proof fn lemma_integrated_prefix(
    old_e: Engine,
    mid_e: Engine,
    new_e: Engine,
    prefix: Seq<ServerPacket>,
    more: Seq<ServerPacket>,
    elapsed: TimeMs,
)
    requires
        spec_integrated(mid_e, new_e, more, elapsed, None, None),
        mid_e.trains == old_e.trains,
        mid_e.tracks == old_e.tracks,
        forall|q: int| 0 <= q < prefix.len() ==> packet_train_id(#[trigger] prefix[q]) is None,
    ensures
        spec_integrated(old_e, new_e, prefix + more, elapsed, None, None),
{
    reveal(spec_integrated);
    assert(mid_e.trains.spec_contains(0u32) == old_e.trains.spec_contains(0u32));
    let full = prefix + more;
    assert forall|kt: TrainID|
        (#[trigger] old_e.trains.spec_contains(kt) && Some(kt) != None::<TrainID>) implies ({
        let t = old_e.trains.spec_get(kt)->Some_0;
        let e_k = spec_train_elapsed(elapsed, None, kt);
        let b = crate::train::move_budget(e_k, t.properties.speed);
        &&& (b < t.spec_remaining(old_e.tracks) ==> (new_e.trains.spec_get(kt) == Some(
            crate::train::spec_nothing_move(t, e_k),
        ) && forall|j: int| 0 <= j < full.len() ==> packet_train_id(#[trigger] full[j]) != Some(
            kt,
        )))
        &&& (!new_e.trains.spec_contains(kt) ==> full.contains(ServerPacket::PacketREMOVE(
            kt,
            RemovalType::Derail,
        )))
        &&& (full.contains(ServerPacket::PacketREMOVE(kt, RemovalType::Derail))
            ==> !new_e.trains.spec_contains(kt))
        &&& (new_e.trains.spec_contains(kt) ==> spec_move_outcome(
            old_e.tracks,
            new_e.nodes,
            t,
            b,
            new_e.trains.spec_get(kt)->Some_0,
        ))
        &&& ((new_e.trains.spec_contains(kt) && b >= t.spec_remaining(old_e.tracks))
            ==> full.contains(new_e.trains.spec_get(kt)->Some_0.spec_packet(kt, old_e.tracks)))
    }) by {
        assert(mid_e.trains.spec_contains(kt));
        let t = old_e.trains.spec_get(kt)->Some_0;
        let e_k = spec_train_elapsed(elapsed, None, kt);
        let b = crate::train::move_budget(e_k, t.properties.speed);
        if b < t.spec_remaining(old_e.tracks) {
            assert forall|j: int| 0 <= j < full.len() implies packet_train_id(
                #[trigger] full[j],
            ) != Some(kt) by {
                if j >= prefix.len() {
                    assert(full[j] == more[j - prefix.len()]);
                }
            }
        }
        if !new_e.trains.spec_contains(kt) {
            assert(more.contains(ServerPacket::PacketREMOVE(kt, RemovalType::Derail)));
            let j = choose|j: int|
                0 <= j < more.len() && more[j] == ServerPacket::PacketREMOVE(
                    kt,
                    RemovalType::Derail,
                );
            assert(full[prefix.len() + j] == more[j]);
        }
        if full.contains(ServerPacket::PacketREMOVE(kt, RemovalType::Derail)) {
            let j = choose|j: int|
                0 <= j < full.len() && full[j] == ServerPacket::PacketREMOVE(
                    kt,
                    RemovalType::Derail,
                );
            assert(j >= prefix.len());
            assert(more[j - prefix.len()] == full[j]);
            assert(more.contains(ServerPacket::PacketREMOVE(kt, RemovalType::Derail)));
        }
        if new_e.trains.spec_contains(kt) && b >= t.spec_remaining(old_e.tracks) {
            assert(more.contains(new_e.trains.spec_get(kt)->Some_0.spec_packet(
                kt,
                old_e.tracks,
            )));
            let j = choose|j: int|
                0 <= j < more.len() && more[j] == new_e.trains.spec_get(kt)->Some_0.spec_packet(
                    kt,
                    old_e.tracks,
                );
            assert(full[prefix.len() + j] == more[j]);
        }
    }
}

/// Claims for every train except one still hold with the exception added.
proof fn lemma_integrated_except(
    old_e: Engine,
    new_e: Engine,
    broadcasts: Seq<ServerPacket>,
    elapsed: TimeMs,
    bonus_for: Option<TrainID>,
    except: Option<TrainID>,
)
    requires
        spec_integrated(old_e, new_e, broadcasts, elapsed, bonus_for, None),
    ensures
        spec_integrated(old_e, new_e, broadcasts, elapsed, bonus_for, except),
{
    reveal(spec_integrated);
}

/// One integration step extends the per-train move-outcome claims from the
/// first `i` trains to the first `i + 1`, rebasing the earlier claims onto
/// the node map the step left behind.
proof fn lemma_step_outcomes(
    tracks: IdMap<TrackPiece>,
    nodes_prev: IdMap<Node>,
    nodes_new: IdMap<Node>,
    old_trains: IdMap<TrainInstance>,
    trains_prev: IdMap<TrainInstance>,
    trains_new: IdMap<TrainInstance>,
    removed_prev: Seq<TrainID>,
    removed_new: Seq<TrainID>,
    elapsed: TimeMs,
    bonus_for: Option<TrainID>,
    i: int,
)
    requires
        nodes_same_mod_router_state(nodes_prev, nodes_new),
        0 <= i < old_trains@.len(),
        trains_prev@.len() == old_trains@.len(),
        trains_new@.len() == old_trains@.len(),
        forall|j: int| 0 <= j < trains_new@.len() && j != i ==> (#[trigger] trains_new@[j])
            == trains_prev@[j],
        forall|y: TrainID| #[trigger] removed_prev.contains(y) ==> removed_new.contains(y),
        forall|j: int|
            0 <= j < i && !removed_prev.contains((#[trigger] old_trains@[j]).0)
                ==> spec_move_outcome(
                tracks,
                nodes_prev,
                old_trains@[j].1,
                crate::train::move_budget(
                    spec_train_elapsed(elapsed, bonus_for, old_trains@[j].0),
                    old_trains@[j].1.properties.speed,
                ),
                trains_prev@[j].1,
            ),
        !removed_new.contains(old_trains@[i].0) ==> spec_move_outcome(
            tracks,
            nodes_new,
            old_trains@[i].1,
            crate::train::move_budget(
                spec_train_elapsed(elapsed, bonus_for, old_trains@[i].0),
                old_trains@[i].1.properties.speed,
            ),
            trains_new@[i].1,
        ),
    ensures
        forall|j: int|
            0 <= j < i + 1 && !removed_new.contains((#[trigger] old_trains@[j]).0)
                ==> spec_move_outcome(
                tracks,
                nodes_new,
                old_trains@[j].1,
                crate::train::move_budget(
                    spec_train_elapsed(elapsed, bonus_for, old_trains@[j].0),
                    old_trains@[j].1.properties.speed,
                ),
                trains_new@[j].1,
            ),
{
    assert forall|j: int|
        0 <= j < i + 1 && !removed_new.contains((#[trigger] old_trains@[j]).0) implies
        spec_move_outcome(
        tracks,
        nodes_new,
        old_trains@[j].1,
        crate::train::move_budget(
            spec_train_elapsed(elapsed, bonus_for, old_trains@[j].0),
            old_trains@[j].1.properties.speed,
        ),
        trains_new@[j].1,
    ) by {
        if j < i {
            assert(!removed_prev.contains(old_trains@[j].0));
            assert(trains_new@[j] == trains_prev@[j]);
            lemma_move_outcome_rebase(
                tracks,
                nodes_prev,
                nodes_new,
                old_trains@[j].1,
                crate::train::move_budget(
                    spec_train_elapsed(elapsed, bonus_for, old_trains@[j].0),
                    old_trains@[j].1.properties.speed,
                ),
                trains_new@[j].1,
            );
        }
    }
}

/// The train identifier a broadcast packet is about, if any.
pub open spec fn packet_train_id(p: ServerPacket) -> Option<TrainID> {
    match p {
        ServerPacket::PacketTRAIN(id, _, _, _, _, _) => Some(id),
        ServerPacket::PacketREMOVE(id, _) => Some(id),
        _ => None,
    }
}

/// The authoritative simulation state.
pub struct Engine {
    pub nodes: IdMap<Node>,
    pub tracks: IdMap<TrackPiece>,
    pub trains: IdMap<TrainInstance>,
    pub next_node_serial: NodeID,
    pub next_track_serial: TrackID,
    pub next_train_serial: TrainID,
}

impl Engine {
    /// The engine invariant: a well-formed graph whose routers only target
    /// existing tracks, trains pinned within existing tracks, and serial
    /// counters above every identifier in use.
    pub open spec fn wf(self) -> bool {
        &&& graph_wf(self.nodes, self.tracks)
        &&& all_routers_target_tracks(self.nodes, self.tracks)
        &&& self.trains.wf()
        &&& forall|i: int| 0 <= i < self.trains@.len() ==> (#[trigger] self.trains@[i]).1.wf_on(
            self.tracks,
        )
        &&& forall|i: int| 0 <= i < self.nodes@.len() ==> node_info_targets(
            (#[trigger] self.nodes@[i]).1,
            self.tracks,
        )
        &&& forall|i: int| 0 <= i < self.nodes@.len() ==> (#[trigger] self.nodes@[i]).0
            < self.next_node_serial
        &&& forall|i: int| 0 <= i < self.tracks@.len() ==> (#[trigger] self.tracks@[i]).0
            < self.next_track_serial
        &&& forall|i: int| 0 <= i < self.trains@.len() ==> (#[trigger] self.trains@[i]).0
            < self.next_train_serial
    }

    /// The graph and counters are untouched; at most some routers switched
    /// state and some trains moved or left.
    pub open spec fn same_layout(self, new: Engine) -> bool {
        &&& nodes_same_mod_router_state(self.nodes, new.nodes)
        &&& new.tracks == self.tracks
        &&& new.next_node_serial == self.next_node_serial
        &&& new.next_track_serial == self.next_track_serial
        &&& new.next_train_serial == self.next_train_serial
    }

    /// An empty layout: no nodes, no tracks, no trains, every serial
    /// counter at zero, so the first additions are accepted.
    pub fn new() -> (r: Engine)
        ensures
            r.wf(),
            r.nodes@.len() == 0,
            r.tracks@.len() == 0,
            r.trains@.len() == 0,
            r.next_node_serial == 0,
            r.next_track_serial == 0,
            r.next_train_serial == 0,
    {
        Engine {
            nodes: IdMap::new(),
            tracks: IdMap::new(),
            trains: IdMap::new(),
            next_node_serial: 0,
            next_track_serial: 0,
            next_train_serial: 0,
        }
    }

    /// Moves every train by `elapsed` milliseconds (the train named in
    /// `bonus_for` by [`CLICK_BONUS_MS`] more), removes the trains a routing
    /// decision derailed, and collects one update packet per train that
    /// crossed a boundary plus one removal packet per derailed train.
    #[verifier::rlimit(100)]
    #[verifier::spinoff_prover]
    fn integrate(&mut self, elapsed: TimeMs, bonus_for: Option<TrainID>) -> (broadcasts: Vec<
        ServerPacket,
    >)
        requires
            old(self).wf(),
        ensures
            final(self).wf(),
            old(self).same_layout(*final(self)),
            forall|k: TrainID| #[trigger] final(self).trains.spec_contains(k) ==> old(
                self,
            ).trains.spec_contains(k),
            forall|j: int| 0 <= j < broadcasts@.len() ==> (#[trigger] packet_train_id(
                broadcasts@[j],
            ) matches Some(id) ==> old(self).trains.spec_contains(id)),
            forall|j: int| 0 <= j < broadcasts@.len() ==> ((#[trigger] broadcasts@[j])
                is PacketTRAIN || (broadcasts@[j] matches ServerPacket::PacketREMOVE(
                _,
                kind,
            ) && kind == RemovalType::Derail)),
            spec_integrated(*old(self), *final(self), broadcasts@, elapsed, bonus_for, None),
    {
        let ghost old_self = *old(self);
        let mut broadcasts: Vec<ServerPacket> = Vec::new();
        let mut removed: Vec<TrainID> = Vec::new();
        let n = self.trains.len();
        let mut i: usize = 0;
        while i < n
            invariant
                i <= n,
                n == self.trains@.len(),
                self.trains@.len() == old_self.trains@.len(),
                graph_wf(self.nodes, self.tracks),
                all_routers_target_tracks(self.nodes, self.tracks),
                self.trains.wf(),
                self.tracks == old_self.tracks,
                self.next_node_serial == old_self.next_node_serial,
                self.next_track_serial == old_self.next_track_serial,
                self.next_train_serial == old_self.next_train_serial,
                nodes_same_mod_router_state(old_self.nodes, self.nodes),
                old_self.wf(),
                forall|j: int| 0 <= j < self.trains@.len() ==> (#[trigger] self.trains@[j]).0
                    == old_self.trains@[j].0,
                forall|j: int| i <= j < self.trains@.len() ==> (#[trigger] self.trains@[j])
                    == old_self.trains@[j],
                forall|j: int| 0 <= j < self.trains@.len()
                    ==> ((#[trigger] self.trains@[j]).1.wf_on(self.tracks)
                    || removed@.contains(self.trains@[j].0)),
                forall|id: TrainID| #[trigger] removed@.contains(id) ==> exists|j: int|
                    0 <= j < i && (#[trigger] old_self.trains@[j]).0 == id,
                forall|j: int| 0 <= j < i ==> ({
                    let key = (#[trigger] old_self.trains@[j]).0;
                    let t0 = old_self.trains@[j].1;
                    let e_j = spec_train_elapsed(elapsed, bonus_for, key);
                    let b = crate::train::move_budget(e_j, t0.properties.speed);
                    &&& (b < t0.spec_remaining(old_self.tracks) ==> (self.trains@[j].1
                        == crate::train::spec_nothing_move(t0, e_j) && !removed@.contains(key)))
                    &&& (b >= t0.spec_remaining(old_self.tracks) ==> (removed@.contains(key)
                        || broadcasts@.contains(self.trains@[j].1.spec_packet(
                        key,
                        old_self.tracks,
                    ))))
                    &&& (!removed@.contains(key) ==> spec_move_outcome(
                        old_self.tracks,
                        self.nodes,
                        t0,
                        b,
                        self.trains@[j].1,
                    ))
                }),
                forall|j: int| 0 <= j < broadcasts@.len() ==> ((#[trigger] broadcasts@[j])
                    matches ServerPacket::PacketREMOVE(id, kind) ==> (kind == RemovalType::Derail
                    && removed@.contains(id))),
                forall|id: TrainID| #[trigger] removed@.contains(id) ==> broadcasts@.contains(
                    ServerPacket::PacketREMOVE(id, RemovalType::Derail),
                ),
                forall|j: int| 0 <= j < broadcasts@.len() ==> (#[trigger] packet_train_id(
                    broadcasts@[j],
                ) matches Some(id) ==> exists|q: int|
                    0 <= q < i && (#[trigger] old_self.trains@[q]).0 == id
                        && crate::train::move_budget(
                        spec_train_elapsed(elapsed, bonus_for, id),
                        old_self.trains@[q].1.properties.speed,
                    ) >= old_self.trains@[q].1.spec_remaining(old_self.tracks)),
                forall|j: int| 0 <= j < broadcasts@.len() ==> ((#[trigger] broadcasts@[j])
                    is PacketTRAIN || broadcasts@[j] is PacketREMOVE),
            decreases n - i,
        {
            let id = self.trains.key_at(i);
            let train_elapsed = match bonus_for {
                Some(b) => if b == id {
                    elapsed.saturating_add(CLICK_BONUS_MS)
                } else {
                    elapsed
                },
                None => elapsed,
            };
            proof {
                self.trains.lemma_at(i as int);
                old_self.trains.lemma_at(i as int);
                assert(train_elapsed == spec_train_elapsed(elapsed, bonus_for, id));
                if removed@.contains(id) {
                    let j = choose|j: int|
                        0 <= j < i && (#[trigger] old_self.trains@[j]).0 == id;
                    assert(old_self.trains@[j].0 < old_self.trains@[i as int].0);
                }
                assert(!removed@.contains(id));
                assert(self.trains@[i as int].1.wf_on(self.tracks));
            }
            let ghost trains_prev = self.trains;
            let ghost nodes_prev = self.nodes;
            let ghost broadcasts_prev = broadcasts@;
            let ghost removed_prev = removed@;
            let ghost t0 = old_self.trains@[i as int].1;
            let train = self.trains.value_at_mut(i);
            let result = train.move_with_time(train_elapsed, &mut self.nodes, &self.tracks);
            proof {
                lemma_wf_same_keys(trains_prev@, self.trains@);
                lemma_same_mod_trans(old_self.nodes, nodes_prev, self.nodes);
            }
            match result {
                MoveResult::Derailed => {
                    removed.push(id);
                    broadcasts.push(ServerPacket::PacketREMOVE(id, RemovalType::Derail));
                    proof {
                        crate::routing::lemma_push_contains(removed_prev, id);
                        crate::routing::lemma_push_contains(
                            broadcasts_prev,
                            ServerPacket::PacketREMOVE(id, RemovalType::Derail),
                        );
                        assert forall|j: int| 0 <= j < self.trains@.len() implies ((
                        #[trigger] self.trains@[j]).1.wf_on(self.tracks) || removed@.contains(
                            self.trains@[j].0,
                        )) by {
                            if j != i as int {
                                assert(trains_prev@[j] == self.trains@[j]);
                            }
                        }
                    }
                },
                MoveResult::PassesNode => {
                    let tr = self.trains.value_at(i);
                    let packet = tr.to_packet(id, &self.tracks);
                    proof {
                        crate::routing::lemma_push_contains(broadcasts_prev, packet);
                    }
                    broadcasts.push(packet);
                    proof {
                        assert(packet_train_id(packet) == Some(id));
                        assert forall|j: int| 0 <= j < self.trains@.len() implies ((
                        #[trigger] self.trains@[j]).1.wf_on(self.tracks) || removed@.contains(
                            self.trains@[j].0,
                        )) by {
                            if j != i as int {
                                assert(trains_prev@[j] == self.trains@[j]);
                            }
                        }
                    }
                },
                MoveResult::Nothing => {
                    proof {
                        assert(self.trains@[i as int].1 == crate::train::spec_nothing_move(
                            t0,
                            spec_train_elapsed(elapsed, bonus_for, id),
                        ));
                        assert forall|j: int| 0 <= j < self.trains@.len() implies ((
                        #[trigger] self.trains@[j]).1.wf_on(self.tracks) || removed@.contains(
                            self.trains@[j].0,
                        )) by {
                            if j != i as int {
                                assert(trains_prev@[j] == self.trains@[j]);
                            }
                        }
                    }
                },
            }
            proof {
                if result is Derailed {
                    assert(removed@.contains(id));
                } else {
                    assert(spec_move_outcome(
                        self.tracks,
                        self.nodes,
                        t0,
                        crate::train::move_budget(train_elapsed, t0.properties.speed),
                        self.trains@[i as int].1,
                    ));
                }
                lemma_step_outcomes(
                    old_self.tracks,
                    nodes_prev,
                    self.nodes,
                    old_self.trains,
                    trains_prev,
                    self.trains,
                    removed_prev,
                    removed@,
                    elapsed,
                    bonus_for,
                    i as int,
                );
            }
            i = i + 1;
        }
        let ghost trains_mid = self.trains;
        let ghost nodes_mid = self.nodes;
        let rn = removed.len();
        proof {
            assert(removed@.subrange(0, 0) =~= Seq::<TrainID>::empty());
            assert(removed@.subrange(0, rn as int) =~= removed@);
            assert forall|j: int|
                0 <= j < old_self.trains@.len() && !removed@.contains(
                    (#[trigger] old_self.trains@[j]).0,
                ) implies spec_move_outcome(
                old_self.tracks,
                nodes_mid,
                old_self.trains@[j].1,
                crate::train::move_budget(
                    spec_train_elapsed(elapsed, bonus_for, old_self.trains@[j].0),
                    old_self.trains@[j].1.properties.speed,
                ),
                trains_mid@[j].1,
            ) by {
            }
        }
        let mut j: usize = 0;
        while j < rn
            invariant
                j <= rn,
                rn == removed@.len(),
                graph_wf(self.nodes, self.tracks),
                all_routers_target_tracks(self.nodes, self.tracks),
                self.trains.wf(),
                self.tracks == old_self.tracks,
                self.next_node_serial == old_self.next_node_serial,
                self.next_track_serial == old_self.next_track_serial,
                self.next_train_serial == old_self.next_train_serial,
                nodes_same_mod_router_state(old_self.nodes, self.nodes),
                old_self.wf(),
                self.nodes == nodes_mid,
                forall|kt: TrainID| #[trigger] self.trains.spec_contains(kt)
                    <==> (trains_mid.spec_contains(kt) && !removed@.subrange(
                    0,
                    j as int,
                ).contains(kt)),
                forall|kt: TrainID| #[trigger] self.trains.spec_contains(kt)
                    ==> self.trains.spec_get(kt) == trains_mid.spec_get(kt),
                forall|q: int| 0 <= q < self.trains@.len()
                    ==> ((#[trigger] self.trains@[q]).1.wf_on(self.tracks)
                    || removed@.subrange(j as int, rn as int).contains(self.trains@[q].0)),
                forall|q: int| 0 <= q < self.trains@.len() ==> (#[trigger] self.trains@[q]).0
                    < self.next_train_serial,
            decreases rn - j,
        {
            let id = removed[j];
            let ghost trains_prev = self.trains;
            self.trains.remove(id);
            proof {
                assert(removed@.subrange(0, j + 1) =~= removed@.subrange(0, j as int).push(
                    removed@[j as int],
                ));
                crate::routing::lemma_push_contains(
                    removed@.subrange(0, j as int),
                    removed@[j as int],
                );
                assert forall|kt: TrainID| #[trigger] self.trains.spec_contains(kt) implies (
                trains_mid.spec_contains(kt) && !removed@.subrange(0, j + 1).contains(kt)) by {
                    assert(trains_prev.spec_contains(kt));
                }
                assert forall|kt: TrainID|
                    (trains_mid.spec_contains(kt) && !removed@.subrange(0, j + 1).contains(
                        kt,
                    )) implies #[trigger] self.trains.spec_contains(kt) by {
                    assert(!removed@.subrange(0, j as int).contains(kt));
                }
                assert forall|q: int| 0 <= q < self.trains@.len() implies ((
                #[trigger] self.trains@[q]).1.wf_on(self.tracks) || removed@.subrange(
                    j as int + 1,
                    rn as int,
                ).contains(self.trains@[q].0)) by {
                    self.trains.lemma_at(q);
                    let kt = self.trains@[q].0;
                    let v = self.trains@[q].1;
                    assert(self.trains.spec_get(kt) == Some(v));
                    assert(kt != id);
                    assert(trains_prev.spec_get(kt) == Some(v));
                    let p = trains_prev.spec_index_of(kt);
                    trains_prev.lemma_at(p);
                    assert(trains_prev@[p] == (kt, v));
                    if !v.wf_on(self.tracks) {
                        let sub = removed@.subrange(j as int, rn as int);
                        assert(sub.contains(kt));
                        let si = choose|si: int| 0 <= si < sub.len() && sub[si] == kt;
                        assert(removed@[j as int + si] == kt);
                        assert(si != 0);
                        assert(removed@.subrange(j as int + 1, rn as int)[si - 1] == kt);
                    }
                }
                assert forall|q: int| 0 <= q < self.trains@.len() implies (
                #[trigger] self.trains@[q]).0 < self.next_train_serial by {
                    self.trains.lemma_at(q);
                    let kt = self.trains@[q].0;
                    assert(trains_prev.spec_contains(kt));
                    let p = trains_prev.spec_index_of(kt);
                    trains_prev.lemma_at(p);
                }
            }
            j = j + 1;
        }
        proof {
            assert forall|q: int| 0 <= q < self.trains@.len() implies (
            #[trigger] self.trains@[q]).1.wf_on(self.tracks) by {
                assert(removed@.subrange(rn as int, rn as int).len() == 0);
            }
            assert(removed@.subrange(0, rn as int) =~= removed@);
            assert(spec_integrated(
                old_self,
                *self,
                broadcasts@,
                elapsed,
                bonus_for,
                None,
            )) by {
                reveal(spec_integrated);
                assert forall|kt: TrainID|
                    (#[trigger] old_self.trains.spec_contains(kt) && Some(kt)
                        != None::<TrainID>) implies ({
                    let t = old_self.trains.spec_get(kt)->Some_0;
                    let e_k = spec_train_elapsed(elapsed, bonus_for, kt);
                    let b = crate::train::move_budget(e_k, t.properties.speed);
                    &&& (b < t.spec_remaining(old_self.tracks) ==> (self.trains.spec_get(kt)
                        == Some(crate::train::spec_nothing_move(t, e_k)) && forall|j2: int|
                        0 <= j2 < broadcasts@.len() ==> packet_train_id(
                            #[trigger] broadcasts@[j2],
                        ) != Some(kt)))
                    &&& (!self.trains.spec_contains(kt) ==> broadcasts@.contains(
                        ServerPacket::PacketREMOVE(kt, RemovalType::Derail),
                    ))
                    &&& (broadcasts@.contains(ServerPacket::PacketREMOVE(kt, RemovalType::Derail))
                        ==> !self.trains.spec_contains(kt))
                    &&& (self.trains.spec_contains(kt) ==> spec_move_outcome(
                        old_self.tracks,
                        self.nodes,
                        t,
                        b,
                        self.trains.spec_get(kt)->Some_0,
                    ))
                    &&& ((self.trains.spec_contains(kt) && b >= t.spec_remaining(old_self.tracks))
                        ==> broadcasts@.contains(self.trains.spec_get(kt)->Some_0.spec_packet(
                        kt,
                        old_self.tracks,
                    )))
                }) by {
                    let q = old_self.trains.spec_index_of(kt);
                    old_self.trains.lemma_at(q);
                    let t = old_self.trains@[q].1;
                    let e_k = spec_train_elapsed(elapsed, bonus_for, kt);
                    let b = crate::train::move_budget(e_k, t.properties.speed);
                    trains_mid.lemma_at(q);
                    assert(trains_mid.spec_get(kt) == Some(trains_mid@[q].1));
                    if self.trains.spec_contains(kt) {
                        assert(removed@.subrange(0, rn as int).contains(kt)
                            == removed@.contains(kt));
                        assert(!removed@.contains(kt));
                        assert(self.trains.spec_get(kt) == Some(trains_mid@[q].1));
                        assert(spec_move_outcome(
                            old_self.tracks,
                            nodes_mid,
                            t,
                            b,
                            trains_mid@[q].1,
                        ));
                    }
                    if b < t.spec_remaining(old_self.tracks) {
                        assert(trains_mid@[q].1 == crate::train::spec_nothing_move(t, e_k));
                        assert(!removed@.contains(kt));
                        assert(self.trains.spec_contains(kt));
                        assert(self.trains.spec_get(kt) == Some(crate::train::spec_nothing_move(
                            t,
                            e_k,
                        )));
                        assert forall|j2: int| 0 <= j2 < broadcasts@.len() implies
                            packet_train_id(#[trigger] broadcasts@[j2]) != Some(kt) by {
                            if packet_train_id(broadcasts@[j2]) == Some(kt) {
                                let q2 = choose|q2: int|
                                    0 <= q2 < old_self.trains@.len() && (
                                    #[trigger] old_self.trains@[q2]).0 == kt
                                        && crate::train::move_budget(
                                        spec_train_elapsed(elapsed, bonus_for, kt),
                                        old_self.trains@[q2].1.properties.speed,
                                    ) >= old_self.trains@[q2].1.spec_remaining(old_self.tracks);
                                old_self.trains.lemma_at(q2);
                                assert(q2 == q);
                            }
                        }
                    }
                    if !self.trains.spec_contains(kt) {
                        assert(removed@.subrange(0, rn as int).contains(kt));
                        assert(removed@.contains(kt));
                    }
                    if broadcasts@.contains(ServerPacket::PacketREMOVE(kt, RemovalType::Derail)) {
                        let j2 = choose|j2: int|
                            0 <= j2 < broadcasts@.len() && broadcasts@[j2]
                                == ServerPacket::PacketREMOVE(kt, RemovalType::Derail);
                        assert(removed@.contains(kt));
                        assert(!self.trains.spec_contains(kt));
                    }
                    if self.trains.spec_contains(kt) && b >= t.spec_remaining(old_self.tracks) {
                        assert(!removed@.contains(kt));
                        assert(broadcasts@.contains(trains_mid@[q].1.spec_packet(
                            kt,
                            old_self.tracks,
                        )));
                        assert(self.trains.spec_get(kt) == Some(trains_mid@[q].1));
                    }
                }
            }
        }
        broadcasts
    }
}


/// Why a routing configuration was not installed.
#[derive(Debug, Clone, Copy, PartialEq, Eq, Structural)]
pub enum SetRoutingError {
    /// No node has the given identifier.
    UnknownNode,
    /// The configuration failed validation.
    Invalid(RoutingCheckError),
    /// A routing outcome targets a track that does not exist.
    UnknownTargetTrack(TrackID),
}

impl Engine {
    /// Advances every train for the elapsed time since the last wake; the
    /// movement-timer branch of the actor loop.
    pub fn handle_tick(&mut self, elapsed: TimeMs) -> (broadcasts: Vec<ServerPacket>)
        requires
            old(self).wf(),
        ensures
            final(self).wf(),
            old(self).same_layout(*final(self)),
            forall|k: TrainID| #[trigger] final(self).trains.spec_contains(k) ==> old(
                self,
            ).trains.spec_contains(k),
            forall|j: int| 0 <= j < broadcasts@.len() ==> (#[trigger] packet_train_id(
                broadcasts@[j],
            ) matches Some(id) ==> old(self).trains.spec_contains(id)),
            spec_integrated(*old(self), *final(self), broadcasts@, elapsed, None, None),
    {
        self.integrate(elapsed, None)
    }

    /// How long the actor may sleep before some train reaches a boundary:
    /// the least estimated time left over all trains, and nothing — an
    /// unbounded wait — when no train runs.
    pub fn next_wait(&self) -> (r: Option<TimeMs>)
        requires
            self.wf(),
        ensures
            r is None <==> self.trains@.len() == 0,
            r matches Some(t) ==> {
                &&& exists|i: int| 0 <= i < self.trains@.len() && t == (
                #[trigger] self.trains@[i]).1.spec_time_left(self.tracks)
                &&& forall|i: int| 0 <= i < self.trains@.len() ==> t <= (
                #[trigger] self.trains@[i]).1.spec_time_left(self.tracks)
            },
    {
        let n = self.trains.len();
        if n == 0 {
            return None;
        }
        let first = self.trains.value_at(0);
        let mut best: TimeMs = first.estimated_time_left(&self.tracks);
        let mut i: usize = 1;
        while i < n
            invariant
                1 <= i <= n,
                n == self.trains@.len(),
                self.wf(),
                exists|q: int| 0 <= q < i && best == (
                #[trigger] self.trains@[q]).1.spec_time_left(self.tracks),
                forall|q: int| 0 <= q < i ==> best <= (
                #[trigger] self.trains@[q]).1.spec_time_left(self.tracks),
            decreases n - i,
        {
            let t = self.trains.value_at(i).estimated_time_left(&self.tracks);
            if t < best {
                best = t;
            }
            i = i + 1;
        }
        Some(best)
    }

    /// Handles a viewer's click on a train.
    ///
    /// A control-click removes the train at once and announces its removal
    /// with a kind drawn uniformly among vibrate, take-off and derail; a
    /// shift-click (without control) reverses the train in place after the
    /// usual re-integration and announces its new state; a plain click
    /// grants the train [`CLICK_BONUS_MS`] of extra travel.  Every variant
    /// re-integrates all remaining trains for the elapsed time.
    #[verifier::rlimit(100)]
    #[verifier::spinoff_prover]
    pub fn handle_click(
        &mut self,
        train_id: TrainID,
        modifier: ClickModifier,
        elapsed: TimeMs,
    ) -> (broadcasts: Vec<ServerPacket>)
        requires
            old(self).wf(),
        ensures
            final(self).wf(),
            old(self).same_layout(*final(self)),
            forall|k: TrainID| #[trigger] final(self).trains.spec_contains(k) ==> old(
                self,
            ).trains.spec_contains(k),
            modifier.ctrl ==> !final(self).trains.spec_contains(train_id),
            (modifier.ctrl && old(self).trains.spec_contains(train_id)) ==> {
                &&& broadcasts@.len() >= 1
                &&& broadcasts@[0] matches ServerPacket::PacketREMOVE(id, kind) && id == train_id
                    && (kind == RemovalType::Vibrate || kind == RemovalType::TakeOff || kind
                    == RemovalType::Derail)
                &&& forall|j: int| 1 <= j < broadcasts@.len() ==> packet_train_id(
                    #[trigger] broadcasts@[j],
                ) != Some(train_id)
            },
            (!modifier.ctrl && !modifier.shift) ==> spec_integrated(
                *old(self),
                *final(self),
                broadcasts@,
                elapsed,
                Some(train_id),
                None,
            ),
            modifier.ctrl ==> spec_integrated(
                *old(self),
                *final(self),
                broadcasts@,
                elapsed,
                None,
                Some(train_id),
            ),
            (modifier.shift && !modifier.ctrl) ==> spec_integrated(
                *old(self),
                *final(self),
                broadcasts@,
                elapsed,
                None,
                Some(train_id),
            ),
            (modifier.shift && !modifier.ctrl && old(self).trains.spec_contains(train_id)
                && crate::train::move_budget(
                elapsed,
                old(self).trains.spec_get(train_id)->Some_0.properties.speed,
            ) < old(self).trains.spec_get(train_id)->Some_0.spec_remaining(old(self).tracks))
                ==> ({
                let t0 = old(self).trains.spec_get(train_id)->Some_0;
                let moved = crate::train::spec_nothing_move(t0, elapsed);
                &&& final(self).trains.spec_get(train_id) == Some(
                    (TrainInstance { direction: t0.direction.spec_opposite(), ..moved }),
                )
                &&& broadcasts@.len() >= 1
                &&& broadcasts@.last() == final(self).trains.spec_get(
                    train_id,
                )->Some_0.spec_packet(train_id, old(self).tracks)
            }),
    {
        if modifier.ctrl {
            let ghost old_self = *old(self);
            self.trains.remove(train_id);
            proof {
                assert forall|q: int| 0 <= q < self.trains@.len() implies {
                    &&& (#[trigger] self.trains@[q]).1.wf_on(self.tracks)
                    &&& self.trains@[q].0 < self.next_train_serial
                } by {
                    self.trains.lemma_at(q);
                    let k = self.trains@[q].0;
                    assert(old_self.trains.spec_contains(k));
                    let p = old_self.trains.spec_index_of(k);
                    old_self.trains.lemma_at(p);
                }
            }
            let k = crate::rng::rand_below(3);
            let kind = if k == 0 {
                RemovalType::Vibrate
            } else if k == 1 {
                RemovalType::TakeOff
            } else {
                RemovalType::Derail
            };
            let ghost mid_self = *self;
            let mut broadcasts: Vec<ServerPacket> = Vec::new();
            broadcasts.push(ServerPacket::PacketREMOVE(train_id, kind));
            let ghost head = broadcasts@;
            let mut more = self.integrate(elapsed, None);
            let ghost more_g = more@;
            broadcasts.append(&mut more);
            proof {
                assert(broadcasts@ == head + more_g);
                assert(spec_integrated(
                    old_self,
                    *self,
                    broadcasts@,
                    elapsed,
                    None,
                    Some(train_id),
                )) by {
                    reveal(spec_integrated);
                    assert forall|kt: TrainID|
                        (#[trigger] old_self.trains.spec_contains(kt) && Some(kt) != Some(
                            train_id,
                        )) implies ({
                        let t = old_self.trains.spec_get(kt)->Some_0;
                        let e_k = spec_train_elapsed(elapsed, None, kt);
                        let b = crate::train::move_budget(e_k, t.properties.speed);
                        &&& (b < t.spec_remaining(old_self.tracks) ==> (self.trains.spec_get(kt)
                            == Some(crate::train::spec_nothing_move(t, e_k)) && forall|j: int|
                            0 <= j < broadcasts@.len() ==> packet_train_id(
                                #[trigger] broadcasts@[j],
                            ) != Some(kt)))
                        &&& (!self.trains.spec_contains(kt) ==> broadcasts@.contains(
                            ServerPacket::PacketREMOVE(kt, RemovalType::Derail),
                        ))
                        &&& (broadcasts@.contains(ServerPacket::PacketREMOVE(
                            kt,
                            RemovalType::Derail,
                        )) ==> !self.trains.spec_contains(kt))
                        &&& (self.trains.spec_contains(kt) ==> spec_move_outcome(
                            old_self.tracks,
                            self.nodes,
                            t,
                            b,
                            self.trains.spec_get(kt)->Some_0,
                        ))
                        &&& ((self.trains.spec_contains(kt) && b >= t.spec_remaining(
                            old_self.tracks,
                        )) ==> broadcasts@.contains(self.trains.spec_get(kt)->Some_0.spec_packet(
                            kt,
                            old_self.tracks,
                        )))
                    }) by {
                        assert(mid_self.trains.spec_contains(kt));
                        assert(mid_self.trains.spec_get(kt) == old_self.trains.spec_get(kt));
                        assert(mid_self.tracks == old_self.tracks);
                        let t = old_self.trains.spec_get(kt)->Some_0;
                        let e_k = spec_train_elapsed(elapsed, None, kt);
                        let b = crate::train::move_budget(e_k, t.properties.speed);
                        if b < t.spec_remaining(old_self.tracks) {
                            assert forall|j: int| 0 <= j < broadcasts@.len() implies
                                packet_train_id(#[trigger] broadcasts@[j]) != Some(kt) by {
                                if j == 0 {
                                } else {
                                    assert(broadcasts@[j] == more_g[j - 1]);
                                }
                            }
                        }
                        if !self.trains.spec_contains(kt) {
                            assert(more_g.contains(ServerPacket::PacketREMOVE(
                                kt,
                                RemovalType::Derail,
                            )));
                            let j = choose|j: int|
                                0 <= j < more_g.len() && more_g[j] == ServerPacket::PacketREMOVE(
                                    kt,
                                    RemovalType::Derail,
                                );
                            assert(broadcasts@[j + 1] == more_g[j]);
                        }
                        if broadcasts@.contains(ServerPacket::PacketREMOVE(
                            kt,
                            RemovalType::Derail,
                        )) {
                            let j = choose|j: int|
                                0 <= j < broadcasts@.len() && broadcasts@[j]
                                    == ServerPacket::PacketREMOVE(kt, RemovalType::Derail);
                            assert(j != 0);
                            assert(more_g[j - 1] == broadcasts@[j]);
                            assert(more_g.contains(ServerPacket::PacketREMOVE(
                                kt,
                                RemovalType::Derail,
                            )));
                        }
                        if self.trains.spec_contains(kt) && b >= t.spec_remaining(
                            old_self.tracks,
                        ) {
                            assert(more_g.contains(self.trains.spec_get(kt)->Some_0.spec_packet(
                                kt,
                                old_self.tracks,
                            )));
                            let j = choose|j: int|
                                0 <= j < more_g.len() && more_g[j] == self.trains.spec_get(
                                    kt,
                                )->Some_0.spec_packet(kt, old_self.tracks);
                            assert(broadcasts@[j + 1] == more_g[j]);
                        }
                    }
                }
            }
            return broadcasts;
        }
        let bonus = if !modifier.shift {
            Some(train_id)
        } else {
            None
        };
        let ghost old_self = *old(self);
        let mut broadcasts = self.integrate(elapsed, bonus);
        if modifier.shift {
            let ghost mid_self = *self;
            let ghost pre_packets = broadcasts@;
            match self.trains.find_index(train_id) {
                Some(i) => {
                    proof {
                        self.trains.lemma_at(i as int);
                    }
                    let ghost trains_prev = self.trains;
                    let train = self.trains.value_at_mut(i);
                    train.direction = train.direction.opposite();
                    proof {
                        lemma_wf_same_keys(trains_prev@, self.trains@);
                        assert forall|q: int| 0 <= q < self.trains@.len() implies (
                        #[trigger] self.trains@[q]).1.wf_on(self.tracks) by {
                            if q != i as int {
                                assert(trains_prev@[q] == self.trains@[q]);
                            }
                        }
                        assert forall|k2: TrainID| #[trigger] self.trains.spec_contains(
                            k2,
                        ) implies mid_self.trains.spec_contains(k2) by {
                            let p = self.trains.spec_index_of(k2);
                            self.trains.lemma_at(p);
                            trains_prev.lemma_at(p);
                        }
                        assert forall|k2: TrainID| k2 != train_id implies
                            #[trigger] self.trains.spec_get(k2) == trains_prev.spec_get(k2) by {
                            if trains_prev.spec_contains(k2) {
                                let p = trains_prev.spec_index_of(k2);
                                trains_prev.lemma_at(p);
                                assert(p != i as int);
                                self.trains.lemma_at(p);
                            } else {
                                if self.trains.spec_contains(k2) {
                                    let p = self.trains.spec_index_of(k2);
                                    self.trains.lemma_at(p);
                                    trains_prev.lemma_at(p);
                                }
                            }
                        }
                    }
                    let tr = self.trains.value_at(i);
                    let packet = tr.to_packet(train_id, &self.tracks);
                    proof {
                        crate::routing::lemma_push_contains(pre_packets, packet);
                    }
                    broadcasts.push(packet);
                    proof {
                        assert(broadcasts@ == pre_packets.push(packet));
                        assert(broadcasts@.last() == packet);
                        reveal(spec_integrated);
                        if old_self.trains.spec_contains(train_id) {
                            let t0 = old_self.trains.spec_get(train_id)->Some_0;
                            if crate::train::move_budget(elapsed, t0.properties.speed)
                                < t0.spec_remaining(old_self.tracks) {
                                assert(spec_train_elapsed(elapsed, None, train_id) == elapsed);
                                assert(mid_self.trains.spec_get(train_id) == Some(
                                    crate::train::spec_nothing_move(t0, elapsed),
                                ));
                                trains_prev.lemma_at(i as int);
                                assert(trains_prev@[i as int].1
                                    == crate::train::spec_nothing_move(t0, elapsed));
                                self.trains.lemma_at(i as int);
                                assert(self.trains.spec_get(train_id) == Some(
                                    self.trains@[i as int].1,
                                ));
                                assert(self.trains@[i as int].1 == (TrainInstance {
                                    direction: t0.direction.spec_opposite(),
                                    ..crate::train::spec_nothing_move(t0, elapsed)
                                }));
                            }
                        }
                        assert(spec_integrated(
                            old_self,
                            *self,
                            broadcasts@,
                            elapsed,
                            None,
                            Some(train_id),
                        )) by {
                            reveal(spec_integrated);
                            assert forall|kt: TrainID|
                                (#[trigger] old_self.trains.spec_contains(kt) && Some(kt)
                                    != Some(train_id)) implies ({
                                let t = old_self.trains.spec_get(kt)->Some_0;
                                let e_k = spec_train_elapsed(elapsed, None, kt);
                                let b = crate::train::move_budget(e_k, t.properties.speed);
                                &&& (b < t.spec_remaining(old_self.tracks) ==> (
                                    self.trains.spec_get(kt) == Some(
                                    crate::train::spec_nothing_move(t, e_k),
                                ) && forall|j: int| 0 <= j < broadcasts@.len()
                                    ==> packet_train_id(#[trigger] broadcasts@[j]) != Some(kt)))
                                &&& (!self.trains.spec_contains(kt) ==> broadcasts@.contains(
                                    ServerPacket::PacketREMOVE(kt, RemovalType::Derail),
                                ))
                                &&& (broadcasts@.contains(ServerPacket::PacketREMOVE(
                                    kt,
                                    RemovalType::Derail,
                                )) ==> !self.trains.spec_contains(kt))
                                &&& (self.trains.spec_contains(kt) ==> spec_move_outcome(
                                    old_self.tracks,
                                    self.nodes,
                                    t,
                                    b,
                                    self.trains.spec_get(kt)->Some_0,
                                ))
                                &&& ((self.trains.spec_contains(kt) && b >= t.spec_remaining(
                                    old_self.tracks,
                                )) ==> broadcasts@.contains(self.trains.spec_get(
                                    kt,
                                )->Some_0.spec_packet(kt, old_self.tracks)))
                            }) by {
                                let t = old_self.trains.spec_get(kt)->Some_0;
                                let e_k = spec_train_elapsed(elapsed, None, kt);
                                let b = crate::train::move_budget(e_k, t.properties.speed);
                                assert(packet_train_id(packet) == Some(train_id));
                                assert(self.nodes == mid_self.nodes);
                                if self.trains.spec_contains(kt) {
                                    assert(mid_self.trains.spec_contains(kt));
                                    assert(self.trains.spec_get(kt) == mid_self.trains.spec_get(
                                        kt,
                                    ));
                                }
                                if broadcasts@.contains(ServerPacket::PacketREMOVE(
                                    kt,
                                    RemovalType::Derail,
                                )) {
                                    let j = choose|j: int|
                                        0 <= j < broadcasts@.len() && broadcasts@[j]
                                            == ServerPacket::PacketREMOVE(
                                            kt,
                                            RemovalType::Derail,
                                        );
                                    assert(j < pre_packets.len());
                                    assert(pre_packets.contains(ServerPacket::PacketREMOVE(
                                        kt,
                                        RemovalType::Derail,
                                    )));
                                }
                            }
                        }
                    }
                },
                None => {
                    proof {
                        lemma_integrated_except(
                            old_self,
                            *self,
                            broadcasts@,
                            elapsed,
                            None,
                            Some(train_id),
                        );
                        reveal(spec_integrated);
                        if old_self.trains.spec_contains(train_id) {
                            let t0 = old_self.trains.spec_get(train_id)->Some_0;
                            if crate::train::move_budget(elapsed, t0.properties.speed)
                                < t0.spec_remaining(old_self.tracks) {
                                assert(self.trains.spec_get(train_id) == Some(
                                    crate::train::spec_nothing_move(t0, elapsed),
                                ));
                                assert(self.trains.spec_contains(train_id));
                            }
                        }
                    }
                },
            }
        }
        broadcasts
    }

    /// The identifier and position of every node, in ascending id order.
    pub fn list_nodes(&self) -> (r: Vec<(NodeID, Coord)>)
        requires
            self.wf(),
        ensures
            r@.len() == self.nodes@.len(),
            forall|i: int| 0 <= i < r@.len() ==> (#[trigger] r@[i]) == (
                self.nodes@[i].0,
                self.nodes@[i].1.coord,
            ),
    {
        let mut out: Vec<(NodeID, Coord)> = Vec::new();
        let n = self.nodes.len();
        let mut i: usize = 0;
        while i < n
            invariant
                i <= n,
                n == self.nodes@.len(),
                self.wf(),
                out@.len() == i,
                forall|j: int| 0 <= j < i ==> (#[trigger] out@[j]) == (
                    self.nodes@[j].0,
                    self.nodes@[j].1.coord,
                ),
            decreases n - i,
        {
            let id = self.nodes.key_at(i);
            let coord = self.nodes.value_at(i).coord;
            out.push((id, coord));
            i = i + 1;
        }
        out
    }

    /// The routing policy of a node, if the node exists.
    pub fn get_node_type(&self, node_id: NodeID) -> (r: Option<NodeType>)
        requires
            self.wf(),
        ensures
            r == match self.nodes.spec_get(node_id) {
                Some(n) => Some(n.conn_type),
                None => None::<NodeType>,
            },
    {
        match self.nodes.get(node_id) {
            Some(n) => Some(n.conn_type),
            None => None,
        }
    }

    /// The routing configuration of a node, if the node exists and has one.
    pub fn get_node_routing(&self, node_id: NodeID) -> (r: Option<&RoutingInfo>)
        requires
            self.wf(),
        ensures
            match r {
                Some(info) => self.nodes.spec_get(node_id)
                    matches Some(n) && n.routing_info == Some(*info),
                None => match self.nodes.spec_get(node_id) {
                    Some(n) => n.routing_info is None,
                    None => true,
                },
            },
    {
        match self.nodes.get(node_id) {
            Some(n) => match &n.routing_info {
                Some(info) => Some(info),
                None => None,
            },
            None => None,
        }
    }

    /// Validates and installs a routing configuration on a node and
    /// rebuilds the node's router from it.  The configuration is rejected —
    /// and nothing changes — when the node is unknown, when
    /// [`RoutingInfo::check`] fails, or when some routing outcome targets a
    /// track that does not exist.
    pub fn set_node_routing(&mut self, node_id: NodeID, info: RoutingInfo) -> (r: Result<
        (),
        SetRoutingError,
    >)
        requires
            old(self).wf(),
            info.wf(),
        ensures
            final(self).wf(),
            final(self).tracks == old(self).tracks,
            final(self).trains == old(self).trains,
            final(self).next_node_serial == old(self).next_node_serial,
            final(self).next_track_serial == old(self).next_track_serial,
            final(self).next_train_serial == old(self).next_train_serial,
            r is Ok <==> (old(self).nodes.spec_contains(node_id) && info.spec_valid() && forall|
                t: TrackID,
                d: Direction,
            |
                #[trigger] info.spec_has_outcome(RoutingType::Track(t, d)) ==> old(
                    self,
                ).tracks.spec_contains(t)),
            r is Err ==> *final(self) == *old(self),
            r is Ok ==> {
                &&& final(self).nodes@.len() == old(self).nodes@.len()
                &&& forall|i: int| 0 <= i < final(self).nodes@.len() ==> ((
                #[trigger] final(self).nodes@[i]).0 == old(self).nodes@[i].0 && (
                old(self).nodes@[i].0 != node_id ==> final(self).nodes@[i] == old(
                    self,
                ).nodes@[i]))
                &&& forall|k: NodeID| k != node_id ==> final(self).nodes.spec_get(k) == old(
                    self,
                ).nodes.spec_get(k)
                &&& final(self).nodes.spec_get(node_id) matches Some(n) && ({
                    let old_n = old(self).nodes.spec_get(node_id)->Some_0;
                    &&& n.id == old_n.id
                    &&& n.coord == old_n.coord
                    &&& n.connections == old_n.connections
                    &&& n.conn_type == old_n.conn_type
                    &&& n.routing_info == Some(info)
                    &&& n.router matches Some(rt) && rt.configured == info.configured
                        && rt.current_state == info.default_state && (info.configured
                        ==> rt.models(info))
                })
            },
    {
        let idx = match self.nodes.find_index(node_id) {
            Some(i) => i,
            None => {
                return Err(SetRoutingError::UnknownNode);
            },
        };
        proof {
            self.nodes.lemma_at(idx as int);
        }
        if let Err(e) = info.check() {
            return Err(SetRoutingError::Invalid(e));
        }
        let outs = info.outcomes();
        let m = outs.len();
        let mut j: usize = 0;
        while j < m
            invariant
                j <= m,
                m == outs@.len(),
                self.wf(),
                forall|rt: RoutingType| #[trigger] outs@.contains(rt) <==> info.spec_has_outcome(
                    rt,
                ),
                forall|q: int| 0 <= q < j ==> ((#[trigger] outs@[q]) matches RoutingType::Track(
                    t,
                    d,
                ) ==> self.tracks.spec_contains(t)),
            decreases m - j,
        {
            match outs[j] {
                RoutingType::Track(t, d) => {
                    if !self.tracks.contains_key(t) {
                        proof {
                            assert(outs@[j as int] == RoutingType::Track(t, d));
                            assert(outs@.contains(RoutingType::Track(t, d)));
                            assert(info.spec_has_outcome(RoutingType::Track(t, d)));
                        }
                        return Err(SetRoutingError::UnknownTargetTrack(t));
                    }
                },
                _ => {},
            }
            j = j + 1;
        }
        proof {
            assert forall|t: TrackID, d: Direction| #[trigger] info.spec_has_outcome(
                RoutingType::Track(t, d),
            ) implies self.tracks.spec_contains(t) by {
                assert(outs@.contains(RoutingType::Track(t, d)));
                let q = choose|q: int|
                    0 <= q < outs@.len() && outs@[q] == RoutingType::Track(t, d);
                assert(outs@[q] matches RoutingType::Track(t2, d2) && t2 == t);
            }
        }
        let router = BuiltRouter::build(&info);
        let ghost nodes_prev = self.nodes;
        let ghost old_node = self.nodes@[idx as int].1;
        let node = self.nodes.value_at_mut(idx);
        node.routing_info = Some(info);
        node.router = Some(router);
        proof {
            let cur_node = self.nodes@[idx as int].1;
            assert(cur_node.wf());
            crate::graph::lemma_graph_wf_update_node(
                nodes_prev,
                self.nodes,
                self.tracks,
                idx as int,
            );
            assert forall|i: int| 0 <= i < self.nodes@.len() implies
                crate::graph::node_router_targets((#[trigger] self.nodes@[i]).1, self.tracks) by {
                if i != idx as int {
                    assert(crate::graph::node_router_targets(nodes_prev@[i].1, self.tracks));
                } else {
                    let rt = router;
                    if info.configured {
                        assert forall|si: int| 0 <= si < rt.states@.len() implies {
                            &&& crate::graph::table_targets_tracks(
                                (#[trigger] rt.states@[si]).1.forward,
                                self.tracks,
                            )
                            &&& crate::graph::table_targets_tracks(
                                rt.states@[si].1.backward,
                                self.tracks,
                            )
                        } by {
                            let bst = rt.states@[si].1;
                            let sst = info.states@[si].1;
                            assert(bst.models(sst));
                            assert forall|q: int, t: TrackID, d: Direction|
                                0 <= q < bst.forward@.len()
                                    && #[trigger] bst.forward@[q].1.0.can_produce(
                                    RoutingType::Track(t, d),
                                ) implies self.tracks.spec_contains(t) by {
                                bst.forward@[q].1.0.lemma_produce_listed(
                                    sst.forward_routings@[q].1.0,
                                    RoutingType::Track(t, d),
                                );
                                assert(sst.spec_has_outcome(RoutingType::Track(t, d)));
                                assert(info.spec_has_outcome(RoutingType::Track(t, d)));
                            }
                            assert forall|q: int, t: TrackID, d: Direction|
                                0 <= q < bst.backward@.len()
                                    && #[trigger] bst.backward@[q].1.0.can_produce(
                                    RoutingType::Track(t, d),
                                ) implies self.tracks.spec_contains(t) by {
                                bst.backward@[q].1.0.lemma_produce_listed(
                                    sst.backward_routings@[q].1.0,
                                    RoutingType::Track(t, d),
                                );
                                assert(sst.spec_has_outcome(RoutingType::Track(t, d)));
                                assert(info.spec_has_outcome(RoutingType::Track(t, d)));
                            }
                        }
                    } else {
                        assert(rt.states@.len() == 0);
                    }
                }
            }
            assert forall|q: int| 0 <= q < self.nodes@.len() implies (#[trigger] self.nodes@[q]).0
                < self.next_node_serial by {
                assert(nodes_prev@[q].0 == self.nodes@[q].0);
            }
            self.nodes.lemma_at(idx as int);
            assert forall|k: NodeID| k != node_id implies final(self).nodes.spec_get(k) == old(
                self,
            ).nodes.spec_get(k) by {
                crate::graph::lemma_same_keys_get(nodes_prev, self.nodes, k);
                if nodes_prev.spec_contains(k) {
                    let p = nodes_prev.spec_index_of(k);
                    nodes_prev.lemma_at(p);
                    assert(p != idx as int);
                    self.nodes.lemma_at(p);
                }
            }
        }
        Ok(())
    }

    /// The full track table, in ascending track order: what a
    /// `PacketTRACK` broadcast carries.
    pub fn track_table(&self) -> (r: Vec<(TrackID, Bezier, Color, Thickness)>)
        requires
            self.wf(),
        ensures
            r@ == spec_track_table(self.tracks),
    {
        let mut out: Vec<(TrackID, Bezier, Color, Thickness)> = Vec::new();
        let n = self.tracks.len();
        let mut i: usize = 0;
        while i < n
            invariant
                i <= n,
                n == self.tracks@.len(),
                self.wf(),
                out@ == spec_track_table(self.tracks).subrange(0, i as int),
            decreases n - i,
        {
            let id = self.tracks.key_at(i);
            let t = self.tracks.value_at(i);
            out.push((id, t.path, t.color.clone(), t.thickness));
            proof {
                assert(spec_track_table(self.tracks).subrange(0, i + 1) =~= spec_track_table(
                    self.tracks,
                ).subrange(0, i as int).push(spec_track_table(self.tracks)[i as int]));
            }
            i = i + 1;
        }
        proof {
            assert(spec_track_table(self.tracks).subrange(0, n as int) =~= spec_track_table(
                self.tracks,
            ));
        }
        out
    }

    /// Handles a view-subscription request.  The first list is the snapshot
    /// delivered to the new viewer, in order: every node, then the full
    /// track table, then every train — so the viewer holds the topology
    /// before any train update reaches it.  The second list is the
    /// re-integration broadcast for the already-subscribed viewers.
    pub fn subscribe_view(&mut self, elapsed: TimeMs) -> (r: (
        Vec<ServerPacket>,
        Vec<ServerPacket>,
    ))
        requires
            old(self).wf(),
        ensures
            final(self).wf(),
            old(self).same_layout(*final(self)),
            forall|k: TrainID| #[trigger] final(self).trains.spec_contains(k) ==> old(
                self,
            ).trains.spec_contains(k),
            r.0@.len() == old(self).nodes@.len() + 1 + old(self).trains@.len(),
            forall|i: int| 0 <= i < old(self).nodes@.len() ==> r.0@[i]
                == ServerPacket::PacketNODE(
                (#[trigger] old(self).nodes@[i]).0,
                old(self).nodes@[i].1.coord,
            ),
            r.0@[old(self).nodes@.len() as int] matches ServerPacket::PacketTRACK(tbl) && tbl@
                == spec_track_table(old(self).tracks),
            forall|j: int| 0 <= j < old(self).trains@.len() ==> r.0@[old(self).nodes@.len() + 1
                + j] == (#[trigger] old(self).trains@[j]).1.spec_packet(
                old(self).trains@[j].0,
                old(self).tracks,
            ),
            spec_integrated(*old(self), *final(self), r.1@, elapsed, None, None),
    {
        let mut snapshot: Vec<ServerPacket> = Vec::new();
        let nn = self.nodes.len();
        let mut i: usize = 0;
        while i < nn
            invariant
                i <= nn,
                nn == self.nodes@.len(),
                self.wf(),
                snapshot@.len() == i,
                forall|q: int| 0 <= q < i ==> snapshot@[q] == ServerPacket::PacketNODE(
                    (#[trigger] self.nodes@[q]).0,
                    self.nodes@[q].1.coord,
                ),
            decreases nn - i,
        {
            let node = self.nodes.value_at(i);
            let id = self.nodes.key_at(i);
            snapshot.push(ServerPacket::PacketNODE(id, node.coord));
            proof {
                let q = i as int;
                assert(self.nodes@[q].1.wf());
                assert(self.nodes@[q].1.id == self.nodes@[q].0);
            }
            i = i + 1;
        }
        snapshot.push(ServerPacket::PacketTRACK(self.track_table()));
        let tn = self.trains.len();
        let mut j: usize = 0;
        while j < tn
            invariant
                j <= tn,
                tn == self.trains@.len(),
                nn == self.nodes@.len(),
                self.wf(),
                snapshot@.len() == nn + 1 + j,
                forall|q: int| 0 <= q < nn ==> snapshot@[q] == ServerPacket::PacketNODE(
                    (#[trigger] self.nodes@[q]).0,
                    self.nodes@[q].1.coord,
                ),
                snapshot@[nn as int] matches ServerPacket::PacketTRACK(tbl) && tbl@
                    == spec_track_table(self.tracks),
                forall|q: int| 0 <= q < j ==> snapshot@[nn + 1 + q] == (
                #[trigger] self.trains@[q]).1.spec_packet(self.trains@[q].0, self.tracks),
            decreases tn - j,
        {
            let id = self.trains.key_at(j);
            let packet = self.trains.value_at(j).to_packet(id, &self.tracks);
            snapshot.push(packet);
            j = j + 1;
        }
        let broadcasts = self.integrate(elapsed, None);
        (snapshot, broadcasts)
    }

    /// Creates a node at `coord` with the given routing policy.  A
    /// configurable node starts with the default, unconfigured
    /// configuration, which reflects every train back.
    pub fn add_node(&mut self, coord: Coord, conn_type: NodeType) -> (r: (
        Result<NodeID, CtrlError>,
        Vec<ServerPacket>,
    ))
        requires
            old(self).wf(),
        ensures
            final(self).wf(),
            final(self).tracks == old(self).tracks,
            final(self).trains == old(self).trains,
            final(self).next_track_serial == old(self).next_track_serial,
            final(self).next_train_serial == old(self).next_train_serial,
            r.0 is Ok <==> (coord.in_range() && old(self).next_node_serial < u32::MAX),
            r.0 is Err ==> (*final(self) == *old(self) && r.1@.len() == 0),
            r.0 matches Ok(id) ==> {
                &&& id == old(self).next_node_serial
                &&& final(self).next_node_serial == old(self).next_node_serial + 1
                &&& final(self).nodes@.len() == old(self).nodes@.len() + 1
                &&& forall|i: int| 0 <= i < old(self).nodes@.len() ==> (
                #[trigger] final(self).nodes@[i]) == old(self).nodes@[i]
                &&& final(self).nodes@[old(self).nodes@.len() as int].0 == id
                &&& forall|k: NodeID| k != id ==> final(self).nodes.spec_get(k) == old(
                    self,
                ).nodes.spec_get(k)
                &&& final(self).nodes.spec_get(id) matches Some(n) && {
                    &&& n.id == id
                    &&& n.coord == coord
                    &&& n.conn_type == conn_type
                    &&& n.connections@.len() == 0
                    &&& (conn_type == NodeType::Configurable ==> (n.routing_info matches Some(
                        info,
                    ) && info.configured == false))
                    &&& (conn_type != NodeType::Configurable ==> n.routing_info is None)
                }
                &&& r.1@.len() == 1
                &&& r.1@[0] == ServerPacket::PacketNODE(id, coord)
            },
    {
        if !(-MAX_COORD <= coord.0 && coord.0 <= MAX_COORD && -MAX_COORD <= coord.1 && coord.1
            <= MAX_COORD) {
            return (Err(CtrlError::CoordOutOfRange), Vec::new());
        }
        if self.next_node_serial == u32::MAX {
            return (Err(CtrlError::IdSpaceExhausted), Vec::new());
        }
        let id = self.next_node_serial;
        let (routing_info, router) = if matches!(conn_type, NodeType::Configurable) {
            let info = RoutingInfo::default();
            let rt = BuiltRouter::build(&info);
            (Some(info), Some(rt))
        } else {
            (None, None)
        };
        let node = Node {
            id,
            coord,
            connections: IdMap::new(),
            conn_type,
            routing_info,
            router,
        };
        let ghost nodes_prev = self.nodes;
        proof {
            assert forall|q: int| 0 <= q < self.nodes@.len() implies (
            #[trigger] self.nodes@[q]).0 < id by {
            }
        }
        self.nodes.insert(id, node);
        self.next_node_serial = id + 1;
        proof {
            assert(self.nodes@ == nodes_prev@.push((id, node)));
            IdMap::lemma_append_get(nodes_prev, self.nodes, id, node);
            assert forall|i2: int, tid: TrackID|
                #![trigger self.nodes@[i2].1.connections.spec_get(tid)]
                0 <= i2 < self.nodes@.len() implies self.nodes@[i2].1.connections.spec_get(tid)
                == crate::graph::induced_conn(self.nodes@[i2].0, tid, self.tracks) by {
                if i2 < nodes_prev@.len() {
                    assert(nodes_prev@[i2].1.connections.spec_get(tid)
                        == crate::graph::induced_conn(nodes_prev@[i2].0, tid, self.tracks));
                } else {
                    assert(self.nodes@[i2].1 == node);
                    assert(node.connections.spec_get(tid) is None);
                    match self.tracks.spec_get(tid) {
                        Some(tr) => {
                            let ti = self.tracks.spec_index_of(tid);
                            self.tracks.lemma_at(ti);
                            assert(nodes_prev.spec_contains(tr.start));
                            assert(nodes_prev.spec_contains(tr.end));
                            let si = nodes_prev.spec_index_of(tr.start);
                            nodes_prev.lemma_at(si);
                            let ei = nodes_prev.spec_index_of(tr.end);
                            nodes_prev.lemma_at(ei);
                            assert(tr.start != id && tr.end != id);
                        },
                        None => {},
                    }
                }
            }
            assert forall|i2: int| 0 <= i2 < self.tracks@.len() implies {
                &&& self.nodes.spec_contains((#[trigger] self.tracks@[i2]).1.start)
                &&& self.nodes.spec_contains(self.tracks@[i2].1.end)
                &&& self.nodes.spec_get(self.tracks@[i2].1.start)->Some_0.coord
                    == self.tracks@[i2].1.path.spec_start()
                &&& self.nodes.spec_get(self.tracks@[i2].1.end)->Some_0.coord
                    == self.tracks@[i2].1.path.spec_end()
            } by {
                let si = nodes_prev.spec_index_of(self.tracks@[i2].1.start);
                nodes_prev.lemma_at(si);
                let ei = nodes_prev.spec_index_of(self.tracks@[i2].1.end);
                nodes_prev.lemma_at(ei);
                assert(self.tracks@[i2].1.start != id && self.tracks@[i2].1.end != id);
            }
        }
        let mut packets: Vec<ServerPacket> = Vec::new();
        packets.push(ServerPacket::PacketNODE(id, coord));
        (Ok(id), packets)
    }

    /// Creates a track between two existing nodes and registers it in both
    /// endpoints' connection maps; the curve runs between the nodes'
    /// positions with the given interior control points.
    pub fn add_track(
        &mut self,
        start_id: NodeID,
        end_id: NodeID,
        color: Color,
        thickness: Thickness,
        diff: BezierDiff,
    ) -> (r: (Result<TrackID, CtrlError>, Vec<ServerPacket>))
        requires
            old(self).wf(),
        ensures
            final(self).wf(),
            final(self).trains == old(self).trains,
            final(self).next_node_serial == old(self).next_node_serial,
            final(self).next_train_serial == old(self).next_train_serial,
            r.0 is Ok <==> (old(self).nodes.spec_contains(start_id) && old(
                self,
            ).nodes.spec_contains(end_id) && diff.in_range() && old(self).next_track_serial
                < u32::MAX),
            r.0 is Err ==> (*final(self) == *old(self) && r.1@.len() == 0),
            r.0 matches Ok(id) ==> {
                &&& id == old(self).next_track_serial
                &&& final(self).next_track_serial == old(self).next_track_serial + 1
                &&& final(self).tracks@.len() == old(self).tracks@.len() + 1
                &&& forall|i: int| 0 <= i < old(self).tracks@.len() ==> (
                #[trigger] final(self).tracks@[i]) == old(self).tracks@[i]
                &&& final(self).tracks@[old(self).tracks@.len() as int].0 == id
                &&& final(self).nodes@.len() == old(self).nodes@.len()
                &&& forall|i: int| 0 <= i < final(self).nodes@.len() ==> (
                #[trigger] final(self).nodes@[i]).0 == old(self).nodes@[i].0
                &&& forall|i: int| 0 <= i < final(self).nodes@.len() ==> {
                    &&& (#[trigger] final(self).nodes@[i]).1.coord == old(self).nodes@[i].1.coord
                    &&& final(self).nodes@[i].1.conn_type == old(self).nodes@[i].1.conn_type
                    &&& final(self).nodes@[i].1.routing_info == old(self).nodes@[i].1.routing_info
                    &&& final(self).nodes@[i].1.id == old(self).nodes@[i].1.id
                }
                &&& forall|k: TrackID| k != id ==> final(self).tracks.spec_get(k) == old(
                    self,
                ).tracks.spec_get(k)
                &&& final(self).tracks.spec_get(id) matches Some(t) && {
                    &&& t.id == id
                    &&& t.start == start_id
                    &&& t.end == end_id
                    &&& t.color == color
                    &&& t.thickness == thickness
                    &&& t.path == Bezier::spec_new(
                        old(self).nodes.spec_get(start_id)->Some_0.coord,
                        old(self).nodes.spec_get(end_id)->Some_0.coord,
                        diff,
                    )
                }
                &&& forall|k: NodeID| k != start_id && k != end_id
                    ==> final(self).nodes.spec_get(k) == old(self).nodes.spec_get(k)
                &&& r.1@.len() == 1
                &&& (r.1@[0] matches ServerPacket::PacketTRACK(tbl) && tbl@ == spec_track_table(
                    final(self).tracks,
                ))
            },
    {
        if !self.nodes.contains_key(start_id) {
            return (Err(CtrlError::UnknownNode(start_id)), Vec::new());
        }
        if !self.nodes.contains_key(end_id) {
            return (Err(CtrlError::UnknownNode(end_id)), Vec::new());
        }
        if !diff.check_range() {
            return (Err(CtrlError::CoordOutOfRange), Vec::new());
        }
        if self.next_track_serial == u32::MAX {
            return (Err(CtrlError::IdSpaceExhausted), Vec::new());
        }
        let id = self.next_track_serial;
        let ghost nodes0 = self.nodes;
        let ghost tracks0 = self.tracks;
        proof {
            let si = nodes0.spec_index_of(start_id);
            nodes0.lemma_at(si);
            let ei = nodes0.spec_index_of(end_id);
            nodes0.lemma_at(ei);
            if tracks0.spec_contains(id) {
                let ti = tracks0.spec_index_of(id);
                tracks0.lemma_at(ti);
            }
        }
        let track = TrackPiece::new(
            id,
            start_id,
            end_id,
            &mut self.nodes,
            diff,
            color,
            thickness,
        );
        let ghost track_g = track;
        let ghost nodes1 = self.nodes;
        self.tracks.insert(id, track);
        self.next_track_serial = id + 1;
        proof {
            let tracks1 = self.tracks;
            assert forall|q: int| 0 <= q < tracks0@.len() implies (#[trigger] tracks0@[q]).0
                < id by {
            }
            assert(tracks1@ == tracks0@.push((id, track_g)));
            IdMap::lemma_append_get(tracks0, tracks1, id, track_g);
            IdMap::lemma_same_index_get(nodes0, nodes1);
            // positions, routers and all other node fields except the
            // connection maps are untouched
            assert forall|q: int| 0 <= q < nodes1@.len() implies {
                &&& (#[trigger] nodes1@[q]).1.wf()
                &&& nodes1@[q].1.id == nodes1@[q].0
                &&& nodes1@[q].1.id == nodes0@[q].1.id
                &&& nodes1@[q].1.conn_type == nodes0@[q].1.conn_type
                &&& nodes1@[q].1.coord == nodes0@[q].1.coord
                &&& nodes1@[q].1.router == nodes0@[q].1.router
                &&& nodes1@[q].1.routing_info == nodes0@[q].1.routing_info
                &&& forall|t: TrackID| t != id ==> nodes1@[q].1.connections.spec_get(t)
                    == nodes0@[q].1.connections.spec_get(t)
                &&& nodes1@[q].1.connections.spec_get(id) == induced_conn(
                    nodes1@[q].0,
                    id,
                    tracks1,
                )
            } by {
                let k = nodes0@[q].0;
                nodes0.lemma_at(q);
                nodes1.lemma_at(q);
                assert(nodes0@[q].1.connections.spec_get(id) == induced_conn(
                    k,
                    id,
                    tracks0,
                ));
                if k == start_id || k == end_id {
                    if start_id == end_id {
                        assert(nodes1.spec_get(start_id) is Some);
                        let mid = choose|mid: Node|
                            node_connected(
                                nodes0.spec_get(start_id)->Some_0,
                                mid,
                                id,
                                Direction::Backward,
                            ) && node_connected(
                                mid,
                                nodes1.spec_get(start_id)->Some_0,
                                id,
                                Direction::Forward,
                            );
                    } else {
                    }
                } else {
                    assert(nodes1.spec_get(k) == nodes0.spec_get(k));
                }
            }
            // graph well-formedness against the extended track map
            assert(tracks_wf(tracks1)) by {
                assert forall|q: int| 0 <= q < tracks1@.len() implies {
                    &&& (#[trigger] tracks1@[q]).1.wf()
                    &&& tracks1@[q].1.id == tracks1@[q].0
                } by {
                    if q < tracks0@.len() {
                        assert(tracks0@[q].1.wf());
                    }
                }
            }
            assert forall|q: int| 0 <= q < tracks1@.len() implies {
                &&& nodes1.spec_contains((#[trigger] tracks1@[q]).1.start)
                &&& nodes1.spec_contains(tracks1@[q].1.end)
                &&& nodes1.spec_get(tracks1@[q].1.start)->Some_0.coord
                    == tracks1@[q].1.path.spec_start()
                &&& nodes1.spec_get(tracks1@[q].1.end)->Some_0.coord
                    == tracks1@[q].1.path.spec_end()
            } by {
                let tr = tracks1@[q].1;
                if q < tracks0@.len() {
                    assert(nodes0.spec_contains(tr.start));
                    assert(nodes0.spec_contains(tr.end));
                    let sp = nodes0.spec_index_of(tr.start);
                    nodes0.lemma_at(sp);
                    nodes1.lemma_at(sp);
                    let ep = nodes0.spec_index_of(tr.end);
                    nodes0.lemma_at(ep);
                    nodes1.lemma_at(ep);
                } else {
                    assert(tr == track_g);
                    let sp = nodes0.spec_index_of(start_id);
                    nodes0.lemma_at(sp);
                    nodes1.lemma_at(sp);
                    let ep = nodes0.spec_index_of(end_id);
                    nodes0.lemma_at(ep);
                    nodes1.lemma_at(ep);
                }
            }
            assert forall|q: int, tid: TrackID|
                #![trigger nodes1@[q].1.connections.spec_get(tid)]
                0 <= q < nodes1@.len() implies nodes1@[q].1.connections.spec_get(tid)
                == induced_conn(nodes1@[q].0, tid, tracks1) by {
                if tid != id {
                    assert(nodes0@[q].1.connections.spec_get(tid) == induced_conn(
                        nodes0@[q].0,
                        tid,
                        tracks0,
                    ));
                }
            }
            assert forall|q: int| 0 <= q < nodes1@.len() implies
                crate::graph::node_router_targets((#[trigger] nodes1@[q]).1, tracks1) by {
                assert(crate::graph::node_router_targets(nodes0@[q].1, tracks0));
                match nodes1@[q].1.router {
                    Some(rt) => {
                        crate::graph::lemma_router_targets_monotone(rt, tracks0, tracks1);
                    },
                    None => {},
                }
            }
            assert forall|q: int| 0 <= q < nodes1@.len() implies node_info_targets(
                (#[trigger] nodes1@[q]).1,
                tracks1,
            ) by {
                assert(node_info_targets(nodes0@[q].1, tracks0));
                match nodes1@[q].1.routing_info {
                    Some(info) => {
                        assert forall|t: TrackID, d: Direction| #[trigger] info.spec_has_outcome(
                            RoutingType::Track(t, d),
                        ) implies tracks1.spec_contains(t) by {
                            assert(tracks0.spec_contains(t));
                        }
                    },
                    None => {},
                }
            }
            assert forall|q: int| 0 <= q < self.trains@.len() implies (
            #[trigger] self.trains@[q]).1.wf_on(tracks1) by {
                assert(self.trains@[q].1.wf_on(tracks0));
            }
            self.tracks.lemma_at(tracks0@.len() as int);
        }
        let mut packets: Vec<ServerPacket> = Vec::new();
        packets.push(ServerPacket::PacketTRACK(self.track_table()));
        (Ok(id), packets)
    }

    /// Rescales the trains riding track index `ti` after its length changed
    /// from `old_len` to the current one, so each keeps its relative
    /// position.
    fn rescale_trains(&mut self, track_id: TrackID, old_len: u64)
        requires
            old(self).tracks.spec_contains(track_id),
            tracks_wf(old(self).tracks),
            old(self).trains.wf(),
            1 <= old_len < 0x2_0000_0000,
            forall|q: int| 0 <= q < old(self).trains@.len() ==> {
                &&& (#[trigger] old(self).trains@[q]).1.properties.wf()
                &&& old(self).trains@[q].1.current_track != track_id ==> old(
                    self,
                ).trains@[q].1.wf_on(old(self).tracks)
                &&& old(self).trains@[q].1.current_track == track_id ==> old(
                    self,
                ).trains@[q].1.progress <= track_units(old_len)
            },
        ensures
            *final(self) == (Engine { trains: final(self).trains, ..*old(self) }),
            final(self).trains.wf(),
            final(self).trains@.len() == old(self).trains@.len(),
            forall|q: int| 0 <= q < final(self).trains@.len() ==> {
                let ot = (#[trigger] old(self).trains@[q]).1;
                let nt = final(self).trains@[q].1;
                &&& final(self).trains@[q].0 == old(self).trains@[q].0
                &&& nt.properties == ot.properties
                &&& nt.current_track == ot.current_track
                &&& nt.direction == ot.direction
                &&& nt.progress == if ot.current_track == track_id {
                    ot.progress * (old(self).tracks.spec_get(track_id)->Some_0.length as int)
                        / (old_len as int)
                } else {
                    ot.progress as int
                }
            },
            forall|q: int| 0 <= q < final(self).trains@.len() ==> (
            #[trigger] final(self).trains@[q]).1.wf_on(final(self).tracks),
    {
        let ghost old_self = *old(self);
        let new_len = match self.tracks.get(track_id) {
            Some(t) => t.length,
            None => vstd::pervasive::unreached(),
        };
        proof {
            let ti = self.tracks.spec_index_of(track_id);
            self.tracks.lemma_at(ti);
            assert(self.tracks@[ti].1.wf());
            self.tracks@[ti].1.path.lemma_length_bound();
        }
        let n = self.trains.len();
        let mut i: usize = 0;
        while i < n
            invariant
                i <= n,
                n == self.trains@.len(),
                *self == (Engine { trains: self.trains, ..old_self }),
                self.trains.wf(),
                self.trains@.len() == old_self.trains@.len(),
                old_self.tracks.spec_contains(track_id),
                new_len == old_self.tracks.spec_get(track_id)->Some_0.length,
                1 <= new_len < 0x2_0000_0000,
                1 <= old_len < 0x2_0000_0000,
                tracks_wf(old_self.tracks),
                forall|q: int| 0 <= q < old_self.trains@.len() ==> {
                    &&& (#[trigger] old_self.trains@[q]).1.properties.wf()
                    &&& old_self.trains@[q].1.current_track != track_id
                        ==> old_self.trains@[q].1.wf_on(old_self.tracks)
                    &&& old_self.trains@[q].1.current_track == track_id
                        ==> old_self.trains@[q].1.progress <= track_units(old_len)
                },
                forall|q: int| i <= q < n ==> (#[trigger] self.trains@[q])
                    == old_self.trains@[q],
                forall|q: int| 0 <= q < i ==> {
                    let ot = (#[trigger] old_self.trains@[q]).1;
                    let nt = self.trains@[q].1;
                    &&& self.trains@[q].0 == old_self.trains@[q].0
                    &&& nt.properties == ot.properties
                    &&& nt.current_track == ot.current_track
                    &&& nt.direction == ot.direction
                    &&& nt.progress == if ot.current_track == track_id {
                        ot.progress * (new_len as int) / (old_len as int)
                    } else {
                        ot.progress as int
                    }
                    &&& nt.wf_on(old_self.tracks)
                },
            decreases n - i,
        {
            let ghost trains_prev = self.trains;
            let on_track = self.trains.value_at(i).current_track == track_id;
            if on_track {
                let train = self.trains.value_at_mut(i);
                proof {
                    let p = trains_prev@[i as int].1.progress as int;
                    assert(p <= track_units(old_len));
                    assert(p < 0x800_0000_0000);
                    assert(p * (new_len as int) < 0x1000_0000_0000_0000_0000)
                        by (nonlinear_arith)
                        requires
                            0 <= p < 0x800_0000_0000,
                            0 <= new_len < 0x2_0000_0000,
                    {
                    }
                    assert(p * (new_len as int) / (old_len as int) <= (new_len as int) * 1000)
                        by (nonlinear_arith)
                        requires
                            0 <= p <= (old_len as int) * 1000,
                            1 <= old_len,
                            0 <= new_len,
                    {
                    }
                    assert(0 <= p * (new_len as int) / (old_len as int)) by (nonlinear_arith)
                        requires
                            0 <= p,
                            0 <= new_len,
                            1 <= old_len,
                    {
                    }
                }
                let scaled = ((train.progress as u128) * (new_len as u128) / (
                old_len as u128)) as u64;
                train.progress = scaled;
                proof {
                    lemma_wf_same_keys(trains_prev@, self.trains@);
                    assert forall|q: int| i < q < n implies (#[trigger] self.trains@[q])
                        == old_self.trains@[q] by {
                        assert(self.trains@[q] == trains_prev@[q]);
                    }
                    let ti = old_self.tracks.spec_index_of(track_id);
                    old_self.tracks.lemma_at(ti);
                }
            } else {
                proof {
                    let tr = self.trains@[i as int].1;
                    assert(tr.wf_on(old_self.tracks));
                }
            }
            i = i + 1;
        }
        proof {
            assert forall|q: int| 0 <= q < self.trains@.len() implies (
            #[trigger] self.trains@[q]).1.wf_on(self.tracks) by {
                let ot = old_self.trains@[q].1;
                assert(self.trains@[q].1.wf_on(old_self.tracks));
            }
        }
    }

    /// Replaces a track's interior control points, keeping its endpoints
    /// fixed, recomputes its length and rescales the trains riding it.
    pub fn adjust_track_curve(&mut self, track_id: TrackID, diff: BezierDiff) -> (r: (
        Result<(), CtrlError>,
        Vec<ServerPacket>,
    ))
        requires
            old(self).wf(),
        ensures
            final(self).wf(),
            final(self).nodes == old(self).nodes,
            final(self).next_node_serial == old(self).next_node_serial,
            final(self).next_track_serial == old(self).next_track_serial,
            final(self).next_train_serial == old(self).next_train_serial,
            r.0 is Ok <==> (old(self).tracks.spec_contains(track_id) && diff.in_range()),
            r.0 is Err ==> (*final(self) == *old(self) && r.1@.len() == 0),
            r.0 is Ok ==> {
                &&& forall|k: TrackID| k != track_id ==> final(self).tracks.spec_get(k) == old(
                    self,
                ).tracks.spec_get(k)
                &&& final(self).tracks.spec_get(track_id) matches Some(t) && ({
                    let old_t = old(self).tracks.spec_get(track_id)->Some_0;
                    &&& t.id == old_t.id
                    &&& t.start == old_t.start
                    &&& t.end == old_t.end
                    &&& t.color == old_t.color
                    &&& t.thickness == old_t.thickness
                    &&& t.path == old_t.path.spec_apply_diff(diff)
                    &&& t.length == t.path.spec_effective_length()
                })
                &&& r.1@.len() == 1
                &&& (r.1@[0] matches ServerPacket::PacketTRACK(tbl) && tbl@ == spec_track_table(
                    final(self).tracks,
                ))
            },
    {
        let ti = match self.tracks.find_index(track_id) {
            Some(i) => i,
            None => {
                return (Err(CtrlError::UnknownTrack(track_id)), Vec::new());
            },
        };
        if !diff.check_range() {
            return (Err(CtrlError::CoordOutOfRange), Vec::new());
        }
        let ghost tracks0 = self.tracks;
        proof {
            self.tracks.lemma_at(ti as int);
            assert(tracks0@[ti as int].1.wf());
            tracks0@[ti as int].1.path.lemma_length_bound();
        }
        let tr = self.tracks.value_at_mut(ti);
        let old_len = tr.length;
        tr.path.apply_diff(diff);
        proof {
            assert(tr.path.in_range());
        }
        let new_len = tr.path.effective_length();
        tr.length = new_len;
        proof {
            let tracks1 = self.tracks;
            lemma_wf_same_keys(tracks0@, tracks1@);
            IdMap::lemma_same_index_get(tracks0, tracks1);
            self.tracks.lemma_at(ti as int);
            assert(tracks_wf(tracks1)) by {
                assert forall|q: int| 0 <= q < tracks1@.len() implies {
                    &&& (#[trigger] tracks1@[q]).1.wf()
                    &&& tracks1@[q].1.id == tracks1@[q].0
                } by {
                    assert(tracks0@[q].1.wf());
                    if q != ti as int {
                        assert(tracks1@[q] == tracks0@[q]);
                    }
                }
            }
            assert forall|q: int| 0 <= q < tracks1@.len() implies {
                &&& self.nodes.spec_contains((#[trigger] tracks1@[q]).1.start)
                &&& self.nodes.spec_contains(tracks1@[q].1.end)
                &&& self.nodes.spec_get(tracks1@[q].1.start)->Some_0.coord
                    == tracks1@[q].1.path.spec_start()
                &&& self.nodes.spec_get(tracks1@[q].1.end)->Some_0.coord
                    == tracks1@[q].1.path.spec_end()
            } by {
                assert(self.nodes.spec_contains(tracks0@[q].1.start));
                assert(self.nodes.spec_contains(tracks0@[q].1.end));
                if q != ti as int {
                    assert(tracks1@[q] == tracks0@[q]);
                }
            }
            assert forall|q: int, tid: TrackID|
                #![trigger self.nodes@[q].1.connections.spec_get(tid)]
                0 <= q < self.nodes@.len() implies self.nodes@[q].1.connections.spec_get(tid)
                == induced_conn(self.nodes@[q].0, tid, tracks1) by {
                assert(self.nodes@[q].1.connections.spec_get(tid) == induced_conn(
                    self.nodes@[q].0,
                    tid,
                    tracks0,
                ));
                if tid == track_id {
                    assert(tracks0.spec_get(tid) == Some(tracks0@[ti as int].1));
                    assert(tracks1.spec_get(tid) == Some(tracks1@[ti as int].1));
                }
            }
            assert forall|q: int| 0 <= q < self.nodes@.len() implies
                crate::graph::node_router_targets((#[trigger] self.nodes@[q]).1, tracks1) by {
                assert(crate::graph::node_router_targets(self.nodes@[q].1, tracks0));
                match self.nodes@[q].1.router {
                    Some(rt) => {
                        crate::graph::lemma_router_targets_monotone(rt, tracks0, tracks1);
                    },
                    None => {},
                }
            }
            assert forall|q: int| 0 <= q < self.trains@.len() implies {
                &&& (#[trigger] self.trains@[q]).1.properties.wf()
                &&& self.trains@[q].1.current_track != track_id ==> self.trains@[q].1.wf_on(
                    tracks1,
                )
                &&& self.trains@[q].1.current_track == track_id ==> self.trains@[q].1.progress
                    <= track_units(old_len)
            } by {
                assert(self.trains@[q].1.wf_on(tracks0));
                let k = self.trains@[q].1.current_track;
                if k != track_id {
                    assert(tracks1.spec_get(k) == tracks0.spec_get(k));
                }
            }
        }
        let ghost pre_rescale = *self;
        self.rescale_trains(track_id, old_len);
        proof {
            assert(self.nodes == pre_rescale.nodes);
            assert(self.tracks == pre_rescale.tracks);
            assert(graph_wf(self.nodes, self.tracks));
            assert(all_routers_target_tracks(self.nodes, self.tracks));
            assert forall|q: int| 0 <= q < self.trains@.len() implies (
            #[trigger] self.trains@[q]).0 < self.next_train_serial by {
                assert(self.trains@[q].0 == pre_rescale.trains@[q].0);
                assert(pre_rescale.trains@[q].0 == old(self).trains@[q].0);
            }
        }
        let mut packets: Vec<ServerPacket> = Vec::new();
        packets.push(ServerPacket::PacketTRACK(self.track_table()));
        (Ok(()), packets)
    }

    /// Moves a node to a new position.  Every track keeps its interior
    /// control points but has its endpoints re-pinned to its nodes'
    /// positions and its length recomputed; the trains riding a track whose
    /// length changed keep their relative position.
    pub fn move_node(&mut self, node_id: NodeID, coord: Coord) -> (r: (
        Result<(), CtrlError>,
        Vec<ServerPacket>,
    ))
        requires
            old(self).wf(),
        ensures
            final(self).wf(),
            final(self).next_node_serial == old(self).next_node_serial,
            final(self).next_track_serial == old(self).next_track_serial,
            final(self).next_train_serial == old(self).next_train_serial,
            r.0 is Ok <==> (old(self).nodes.spec_contains(node_id) && coord.in_range()),
            r.0 is Err ==> (*final(self) == *old(self) && r.1@.len() == 0),
            r.0 is Ok ==> {
                &&& forall|k: NodeID| k != node_id ==> final(self).nodes.spec_get(k) == old(
                    self,
                ).nodes.spec_get(k)
                &&& final(self).nodes.spec_get(node_id) matches Some(n) && ({
                    let old_n = old(self).nodes.spec_get(node_id)->Some_0;
                    n == (Node { coord, ..old_n })
                })
                &&& final(self).tracks@.len() == old(self).tracks@.len()
                &&& forall|q: int| 0 <= q < final(self).tracks@.len() ==> ({
                    let ot = (#[trigger] old(self).tracks@[q]).1;
                    let nt = final(self).tracks@[q].1;
                    &&& final(self).tracks@[q].0 == old(self).tracks@[q].0
                    &&& nt.id == ot.id
                    &&& nt.start == ot.start
                    &&& nt.end == ot.end
                    &&& nt.color == ot.color
                    &&& nt.thickness == ot.thickness
                    &&& nt.path == ot.path.spec_with_start(
                        final(self).nodes.spec_get(ot.start)->Some_0.coord,
                    ).spec_with_end(final(self).nodes.spec_get(ot.end)->Some_0.coord)
                    &&& nt.length == nt.path.spec_effective_length()
                })
                &&& r.1@.len() == 2
                &&& r.1@[0] == ServerPacket::PacketNODE(node_id, coord)
                &&& (r.1@[1] matches ServerPacket::PacketTRACK(tbl) && tbl@ == spec_track_table(
                    final(self).tracks,
                ))
            },
    {
        let idx = match self.nodes.find_index(node_id) {
            Some(i) => i,
            None => {
                return (Err(CtrlError::UnknownNode(node_id)), Vec::new());
            },
        };
        if !coord.check_range() {
            return (Err(CtrlError::CoordOutOfRange), Vec::new());
        }
        let ghost self0 = *self;
        proof {
            self.nodes.lemma_at(idx as int);
        }
        let ghost nodes0 = self.nodes;
        let node = self.nodes.value_at_mut(idx);
        node.coord = coord;
        let ghost nodes1 = self.nodes;
        proof {
            lemma_wf_same_keys(nodes0@, nodes1@);
            IdMap::lemma_same_index_get(nodes0, nodes1);
            nodes1.lemma_at(idx as int);
            assert(nodes1@[idx as int].1.wf());
        }
        let n = self.tracks.len();
        let mut i: usize = 0;
        while i < n
            invariant
                i <= n,
                n == self.tracks@.len(),
                self.nodes == nodes1,
                self.next_node_serial == self0.next_node_serial,
                self.next_track_serial == self0.next_track_serial,
                self.next_train_serial == self0.next_train_serial,
                self0.wf(),
                nodes1@.len() == nodes0@.len(),
                nodes0 == self0.nodes,
                forall|q: int| 0 <= q < nodes1@.len() ==> (#[trigger] nodes1@[q]).0
                    == nodes0@[q].0,
                nodes1.wf(),
                nodes1@ == nodes0@.update(
                    idx as int,
                    (nodes0@[idx as int].0, nodes1@[idx as int].1),
                ),
                0 <= (idx as int) < nodes1@.len(),
                nodes1@[idx as int].1 == (Node { coord, ..nodes0@[idx as int].1 }),
                nodes0@[idx as int].0 == node_id,
                coord.in_range(),
                self.tracks.wf(),
                self.tracks@.len() == self0.tracks@.len(),
                forall|q: int| 0 <= q < self.tracks@.len() ==> ({
                    let ot = (#[trigger] self0.tracks@[q]).1;
                    let nt = self.tracks@[q].1;
                    &&& self.tracks@[q].0 == self0.tracks@[q].0
                    &&& nt.id == ot.id
                    &&& nt.start == ot.start
                    &&& nt.end == ot.end
                    &&& nt.color == ot.color
                    &&& nt.thickness == ot.thickness
                    &&& if q < i {
                        &&& nt.path == ot.path.spec_with_start(
                            nodes1.spec_get(ot.start)->Some_0.coord,
                        ).spec_with_end(nodes1.spec_get(ot.end)->Some_0.coord)
                        &&& nt.length == nt.path.spec_effective_length()
                        &&& nt.path.in_range()
                    } else {
                        nt == ot
                    }
                }),
                self.trains.wf(),
                self.trains@.len() == self0.trains@.len(),
                forall|q: int| 0 <= q < self.trains@.len() ==> ({
                    let ot = (#[trigger] self0.trains@[q]).1;
                    let nt = self.trains@[q].1;
                    &&& self.trains@[q].0 == self0.trains@[q].0
                    &&& nt.properties == ot.properties
                    &&& nt.current_track == ot.current_track
                    &&& nt.direction == ot.direction
                    &&& nt.wf_on(self.tracks)
                }),
            decreases n - i,
        {
            let ghost tracks_prev = self.tracks;
            let (tr_start, tr_end) = {
                let tr = self.tracks.value_at(i);
                (tr.start, tr.end)
            };
            proof {
                self.tracks.lemma_at(i as int);
                self0.tracks.lemma_at(i as int);
                assert(self0.nodes.spec_contains(tr_start));
                assert(self0.nodes.spec_contains(tr_end));
                IdMap::lemma_same_index_get(nodes0, nodes1);
            }
            let sp_idx = match self.nodes.find_index(tr_start) {
                Some(p) => p,
                None => vstd::pervasive::unreached(),
            };
            let sp = self.nodes.value_at(sp_idx).coord;
            let ep_idx = match self.nodes.find_index(tr_end) {
                Some(p) => p,
                None => vstd::pervasive::unreached(),
            };
            let ep = self.nodes.value_at(ep_idx).coord;
            proof {
                nodes1.lemma_at(sp_idx as int);
                nodes1.lemma_at(ep_idx as int);
                assert(nodes1.spec_get(tr_start) == Some(nodes1@[sp_idx as int].1));
                assert(nodes1.spec_get(tr_end) == Some(nodes1@[ep_idx as int].1));
                assert(nodes0@[sp_idx as int].1.coord.in_range());
                assert(nodes0@[ep_idx as int].1.coord.in_range());
            }
            let track_id = self.tracks.key_at(i);
            let tr = self.tracks.value_at_mut(i);
            let old_len = tr.length;
            tr.path.set_start(sp);
            tr.path.set_end(ep);
            proof {
                assert(tr.path.in_range());
            }
            let new_len = tr.path.effective_length();
            tr.length = new_len;
            proof {
                lemma_wf_same_keys(tracks_prev@, self.tracks@);
                self.tracks.lemma_at(i as int);
                assert(tracks_wf(self.tracks)) by {
                    assert forall|q: int| 0 <= q < self.tracks@.len() implies {
                        &&& (#[trigger] self.tracks@[q]).1.wf()
                        &&& self.tracks@[q].1.id == self.tracks@[q].0
                    } by {
                        assert(self0.tracks@[q].1.wf());
                        if q != i as int {
                            assert(self.tracks@[q] == tracks_prev@[q]);
                        }
                    }
                }
                IdMap::lemma_same_index_get(tracks_prev, self.tracks);
                assert(self0.tracks@[i as int].1.wf());
                self0.tracks@[i as int].1.path.lemma_length_bound();
                assert forall|q: int| 0 <= q < self.trains@.len() implies {
                    &&& (#[trigger] self.trains@[q]).1.properties.wf()
                    &&& self.trains@[q].1.current_track != track_id ==> self.trains@[q].1.wf_on(
                        self.tracks,
                    )
                    &&& self.trains@[q].1.current_track == track_id
                        ==> self.trains@[q].1.progress <= track_units(old_len)
                } by {
                    let ot0 = self0.trains@[q];
                    assert(self.trains@[q].1.wf_on(tracks_prev));
                    let k = self.trains@[q].1.current_track;
                    if k != track_id {
                        assert(self.tracks.spec_get(k) == tracks_prev.spec_get(k));
                    } else {
                        assert(tracks_prev.spec_get(k) == Some(tracks_prev@[i as int].1));
                    }
                }
            }
            let ghost pre_rescale = *self;
            self.rescale_trains(track_id, old_len);
            proof {
                assert(self.tracks == pre_rescale.tracks);
                assert(self.nodes == nodes1);
                assert forall|q: int| 0 <= q < self.trains@.len() implies ({
                    let ot = (#[trigger] self0.trains@[q]).1;
                    let nt = self.trains@[q].1;
                    &&& self.trains@[q].0 == self0.trains@[q].0
                    &&& nt.properties == ot.properties
                    &&& nt.current_track == ot.current_track
                    &&& nt.direction == ot.direction
                    &&& nt.wf_on(self.tracks)
                }) by {
                    assert(pre_rescale.trains@[q].0 == self0.trains@[q].0);
                    assert(pre_rescale.trains@[q].1.properties == self0.trains@[q].1.properties);
                }
                assert forall|q: int| 0 <= q < self.tracks@.len() implies ({
                    let ot = (#[trigger] self0.tracks@[q]).1;
                    let nt = self.tracks@[q].1;
                    &&& self.tracks@[q].0 == self0.tracks@[q].0
                    &&& nt.id == ot.id
                    &&& nt.start == ot.start
                    &&& nt.end == ot.end
                    &&& nt.color == ot.color
                    &&& nt.thickness == ot.thickness
                    &&& if q < i + 1 {
                        &&& nt.path == ot.path.spec_with_start(
                            nodes1.spec_get(ot.start)->Some_0.coord,
                        ).spec_with_end(nodes1.spec_get(ot.end)->Some_0.coord)
                        &&& nt.length == nt.path.spec_effective_length()
                        &&& nt.path.in_range()
                    } else {
                        nt == ot
                    }
                }) by {
                    if q != i as int {
                        assert(self.tracks@[q] == tracks_prev@[q]);
                    } else {
                        assert(nodes1.spec_get(tr_start)->Some_0.coord == sp);
                        assert(nodes1.spec_get(tr_end)->Some_0.coord == ep);
                    }
                }
            }
            i = i + 1;
        }
        proof {
            lemma_moved_graph_wf(self0, nodes0, nodes1, self.tracks, idx as int, node_id, coord);
            assert forall|q: int| 0 <= q < self.trains@.len() implies (
            #[trigger] self.trains@[q]).0 < self.next_train_serial by {
                assert(self.trains@[q].0 == self0.trains@[q].0);
            }
            assert forall|q: int| 0 <= q < self.tracks@.len() implies (
            #[trigger] self.tracks@[q]).0 < self.next_track_serial by {
                let ot = self0.tracks@[q];
                assert(self.tracks@[q].0 == self0.tracks@[q].0);
            }
            assert forall|q: int| 0 <= q < self.trains@.len() implies (
            #[trigger] self.trains@[q]).1.wf_on(self.tracks) by {
                let ot = self0.trains@[q];
            }
            assert forall|k: NodeID| k != node_id implies self.nodes.spec_get(k)
                == self0.nodes.spec_get(k) by {
                crate::graph::lemma_same_keys_get(nodes0, nodes1, k);
                if nodes0.spec_contains(k) {
                    let p = nodes0.spec_index_of(k);
                    nodes0.lemma_at(p);
                    assert(p != idx as int);
                    nodes1.lemma_at(p);
                }
            }
            self.nodes.lemma_at(idx as int);
            assert forall|q: int| 0 <= q < self.tracks@.len() implies ({
                let ot = (#[trigger] self0.tracks@[q]).1;
                let nt = self.tracks@[q].1;
                &&& nt.path == ot.path.spec_with_start(
                    nodes1.spec_get(ot.start)->Some_0.coord,
                ).spec_with_end(nodes1.spec_get(ot.end)->Some_0.coord)
                &&& nt.length == nt.path.spec_effective_length()
            }) by {
            }
        }
        let mut packets: Vec<ServerPacket> = Vec::new();
        packets.push(ServerPacket::PacketNODE(node_id, coord));
        packets.push(ServerPacket::PacketTRACK(self.track_table()));
        (Ok(()), packets)
    }

    /// Spawns a train at the start of a track, travelling forward with the
    /// given speed in pixels per second.
    pub fn add_train(&mut self, track_id: TrackID, speed: u64) -> (r: (
        Result<TrainID, CtrlError>,
        Vec<ServerPacket>,
    ))
        requires
            old(self).wf(),
        ensures
            final(self).wf(),
            final(self).nodes == old(self).nodes,
            final(self).tracks == old(self).tracks,
            final(self).next_node_serial == old(self).next_node_serial,
            final(self).next_track_serial == old(self).next_track_serial,
            r.0 is Ok <==> (old(self).tracks.spec_contains(track_id) && 1 <= speed <= MAX_SPEED
                && old(self).next_train_serial < u32::MAX),
            r.0 is Err ==> (*final(self) == *old(self) && r.1@.len() == 0),
            r.0 matches Ok(id) ==> {
                &&& id == old(self).next_train_serial
                &&& final(self).next_train_serial == old(self).next_train_serial + 1
                &&& forall|k: TrainID| k != id ==> final(self).trains.spec_get(k) == old(
                    self,
                ).trains.spec_get(k)
                &&& final(self).trains.spec_get(id) matches Some(t) && {
                    &&& t.current_track == track_id
                    &&& t.progress == 0
                    &&& t.direction == Direction::Forward
                    &&& t.properties.speed == speed
                }
                &&& r.1@.len() == 1
                &&& r.1@[0] == final(self).trains.spec_get(id)->Some_0.spec_packet(
                    id,
                    old(self).tracks,
                )
            },
    {
        if !self.tracks.contains_key(track_id) {
            return (Err(CtrlError::UnknownTrack(track_id)), Vec::new());
        }
        if speed < 1 || speed > MAX_SPEED {
            return (Err(CtrlError::SpeedOutOfRange), Vec::new());
        }
        if self.next_train_serial == u32::MAX {
            return (Err(CtrlError::IdSpaceExhausted), Vec::new());
        }
        let id = self.next_train_serial;
        let train = TrainInstance {
            properties: TrainProperties {
                speed,
                image_forward: default_forward_image(),
                image_backward: default_backward_image(),
            },
            current_track: track_id,
            progress: 0,
            direction: Direction::Forward,
        };
        let packet = train.to_packet(id, &self.tracks);
        let ghost trains_prev = self.trains;
        proof {
            assert forall|q: int| 0 <= q < self.trains@.len() implies (
            #[trigger] self.trains@[q]).0 < id by {
            }
        }
        self.trains.insert(id, train);
        self.next_train_serial = id + 1;
        proof {
            assert(self.trains@ == trains_prev@.push((id, train)));
            IdMap::lemma_append_get(trains_prev, self.trains, id, train);
            assert forall|q: int| 0 <= q < self.trains@.len() implies (
            #[trigger] self.trains@[q]).1.wf_on(self.tracks) by {
                if q < trains_prev@.len() {
                    assert(trains_prev@[q].1.wf_on(self.tracks));
                }
            }
        }
        let mut packets: Vec<ServerPacket> = Vec::new();
        packets.push(packet);
        (Ok(id), packets)
    }

    /// Applies one control command — with the fixed curve shape and
    /// thickness the control protocol uses for a new track — and then
    /// re-integrates all trains for the elapsed time.  The returned packets
    /// are the command's own broadcasts followed by the movement
    /// broadcasts; a rejected command reports its reason and broadcasts
    /// only the movement.
    /// Applies one control command — with the fixed curve shape and
    /// thickness the control protocol uses for a new track — and then
    /// re-integrates all trains for the elapsed time.  The returned packets
    /// are the command's own broadcasts followed by the movement
    /// broadcasts; a rejected command reports its reason and broadcasts
    /// only the movement.
    #[verifier::rlimit(100)]
    #[verifier::spinoff_prover]
    pub fn handle_ctrl(&mut self, cmd: CtrlPacket, elapsed: TimeMs) -> (r: (
        Result<(), CtrlError>,
        Vec<ServerPacket>,
    ))
        requires
            old(self).wf(),
        ensures
            final(self).wf(),
            r.0 is Err ==> (old(self).same_layout(*final(self)) && spec_integrated(
                *old(self),
                *final(self),
                r.1@,
                elapsed,
                None,
                None,
            )),
            cmd matches CtrlPacket::NewNode(coord, conn_type) ==> ({
                &&& (r.0 is Ok <==> (coord.in_range() && old(self).next_node_serial < u32::MAX))
                &&& (r.0 is Ok ==> ({
                    &&& final(self).next_node_serial == old(self).next_node_serial + 1
                    &&& (final(self).nodes.spec_get(old(self).next_node_serial)
                        matches Some(n) && n.coord == coord && n.conn_type == conn_type)
                    &&& r.1@.len() >= 1
                    &&& r.1@[0] == ServerPacket::PacketNODE(old(self).next_node_serial, coord)
                    &&& spec_integrated(*old(self), *final(self), r.1@, elapsed, None, None)
                }))
            }),
            cmd matches CtrlPacket::NewTrain(track_id, speed) ==> ({
                &&& (r.0 is Ok <==> (old(self).tracks.spec_contains(track_id) && 1 <= speed
                    <= MAX_SPEED && old(self).next_train_serial < u32::MAX))
                &&& (r.0 is Ok ==> ({
                    &&& final(self).next_train_serial == old(self).next_train_serial + 1
                    &&& r.1@.len() >= 1
                    &&& r.1@[0] is PacketTRAIN
                    &&& packet_train_id(r.1@[0]) == Some(old(self).next_train_serial)
                }))
            }),
            cmd matches CtrlPacket::NewTrack(start, end, color) ==> ({
                &&& (r.0 is Ok <==> (old(self).nodes.spec_contains(start) && old(
                    self,
                ).nodes.spec_contains(end) && old(self).next_track_serial < u32::MAX))
                &&& (r.0 is Ok ==> ({
                    &&& final(self).next_track_serial == old(self).next_track_serial + 1
                    &&& (final(self).tracks.spec_get(old(self).next_track_serial)
                        matches Some(t) && t.start == start && t.end == end && t.color == color
                        && t.thickness == 20)
                    &&& r.1@.len() >= 1
                    &&& (r.1@[0] matches ServerPacket::PacketTRACK(tbl) && tbl@
                        == spec_track_table(final(self).tracks))
                    &&& spec_integrated(
                        (Engine {
                            trains: old(self).trains,
                            tracks: final(self).tracks,
                            ..*old(self)
                        }),
                        *final(self),
                        r.1@,
                        elapsed,
                        None,
                        None,
                    )
                }))
            }),
            cmd matches CtrlPacket::NodeMove(node_id, coord) ==> ({
                &&& (r.0 is Ok <==> (old(self).nodes.spec_contains(node_id) && coord.in_range()))
                &&& (r.0 is Ok ==> ({
                    &&& (final(self).nodes.spec_get(node_id) matches Some(n) && n.coord == coord)
                    &&& r.1@.len() >= 2
                    &&& r.1@[0] == ServerPacket::PacketNODE(node_id, coord)
                    &&& (r.1@[1] matches ServerPacket::PacketTRACK(tbl) && tbl@
                        == spec_track_table(final(self).tracks))
                }))
            }),
            cmd matches CtrlPacket::TrackAdjust(track_id, diff) ==> ({
                &&& (r.0 is Ok <==> (old(self).tracks.spec_contains(track_id) && diff.in_range()))
                &&& (r.0 is Ok ==> ({
                    &&& (final(self).tracks.spec_get(track_id) matches Some(t) && t.path == old(
                        self,
                    ).tracks.spec_get(track_id)->Some_0.path.spec_apply_diff(diff) && t.length
                        == t.path.spec_effective_length())
                    &&& r.1@.len() >= 1
                    &&& (r.1@[0] matches ServerPacket::PacketTRACK(tbl) && tbl@
                        == spec_track_table(final(self).tracks))
                }))
            }),
    {
        let ghost old_self = *old(self);
        let ghost cmd_g = cmd;
        let (result, mut packets) = match cmd {
            CtrlPacket::NewNode(coord, conn_type) => {
                let (res, pkts) = self.add_node(coord, conn_type);
                (
                    match res {
                        Ok(_) => Ok(()),
                        Err(e) => Err(e),
                    },
                    pkts,
                )
            },
            CtrlPacket::NewTrain(track_id, speed) => {
                let (res, pkts) = self.add_train(track_id, speed);
                (
                    match res {
                        Ok(_) => Ok(()),
                        Err(e) => Err(e),
                    },
                    pkts,
                )
            },
            CtrlPacket::NewTrack(start, end, color) => {
                let (res, pkts) = self.add_track(
                    start,
                    end,
                    color,
                    20,
                    crate::geom::BezierDiff::ToBezier2,
                );
                (
                    match res {
                        Ok(_) => Ok(()),
                        Err(e) => Err(e),
                    },
                    pkts,
                )
            },
            CtrlPacket::NodeMove(node_id, coord) => self.move_node(node_id, coord),
            CtrlPacket::TrackAdjust(track_id, diff) => self.adjust_track_curve(track_id, diff),
        };
        let ghost mid_self = *self;
        let ghost cmd_pkts = packets@;
        let mut more = self.integrate(elapsed, None);
        let ghost more_g = more@;
        packets.append(&mut more);
        proof {
            assert(packets@ == cmd_pkts + more_g);
            if result is Err {
                assert(cmd_pkts.len() == 0);
                lemma_integrated_prefix(old_self, mid_self, *self, cmd_pkts, more_g, elapsed);
            } else {
                match cmd_g {
                    CtrlPacket::NewNode(coord2, conn_type2) => {
                        assert forall|q: int| 0 <= q < cmd_pkts.len() implies packet_train_id(
                            #[trigger] cmd_pkts[q],
                        ) is None by {
                            assert(cmd_pkts[q] == ServerPacket::PacketNODE(
                                old_self.next_node_serial,
                                coord2,
                            ));
                        }
                        lemma_integrated_prefix(
                            old_self,
                            mid_self,
                            *self,
                            cmd_pkts,
                            more_g,
                            elapsed,
                        );
                        crate::graph::lemma_same_mod_get(
                            mid_self.nodes,
                            self.nodes,
                            old_self.next_node_serial,
                        );
                    },
                    CtrlPacket::NewTrack(start2, end2, color2) => {
                        let proto = Engine {
                            trains: old_self.trains,
                            tracks: mid_self.tracks,
                            ..old_self
                        };
                        assert forall|q: int| 0 <= q < cmd_pkts.len() implies packet_train_id(
                            #[trigger] cmd_pkts[q],
                        ) is None by {
                            assert(cmd_pkts[q] is PacketTRACK);
                        }
                        lemma_integrated_prefix(proto, mid_self, *self, cmd_pkts, more_g, elapsed);
                    },
                    CtrlPacket::NodeMove(node_id2, coord2) => {
                        crate::graph::lemma_same_mod_get(mid_self.nodes, self.nodes, node_id2);
                    },
                    _ => {},
                }
            }
        }
        (result, packets)
    }

    /// Handles a control-subscription request: no state is resent, but the
    /// trains are re-integrated for the elapsed time, as for every event.
    pub fn subscribe_ctrl(&mut self, elapsed: TimeMs) -> (broadcasts: Vec<ServerPacket>)
        requires
            old(self).wf(),
        ensures
            final(self).wf(),
            old(self).same_layout(*final(self)),
            forall|k: TrainID| #[trigger] final(self).trains.spec_contains(k) ==> old(
                self,
            ).trains.spec_contains(k),
            spec_integrated(*old(self), *final(self), broadcasts@, elapsed, None, None),
    {
        self.integrate(elapsed, None)
    }
}


/// After a node moved and every track was re-pinned to its nodes' positions
/// and re-measured, the graph is well-formed again and every router still
/// targets existing tracks.
proof fn lemma_moved_graph_wf(
    self0: Engine,
    nodes0: IdMap<Node>,
    nodes1: IdMap<Node>,
    tracks2: IdMap<TrackPiece>,
    idx: int,
    node_id: NodeID,
    coord: Coord,
)
    requires
        self0.wf(),
        nodes0 == self0.nodes,
        nodes1.wf(),
        nodes1@.len() == nodes0@.len(),
        forall|q: int| 0 <= q < nodes1@.len() ==> (#[trigger] nodes1@[q]).0 == nodes0@[q].0,
        nodes1@ == nodes0@.update(idx, (nodes0@[idx].0, nodes1@[idx].1)),
        0 <= idx < nodes1@.len(),
        nodes1@[idx].1 == (Node { coord, ..nodes0@[idx].1 }),
        nodes0@[idx].0 == node_id,
        coord.in_range(),
        tracks2.wf(),
        tracks2@.len() == self0.tracks@.len(),
        forall|q: int| 0 <= q < tracks2@.len() ==> ({
            let ot = (#[trigger] self0.tracks@[q]).1;
            let nt = tracks2@[q].1;
            &&& tracks2@[q].0 == self0.tracks@[q].0
            &&& nt.id == ot.id
            &&& nt.start == ot.start
            &&& nt.end == ot.end
            &&& nt.color == ot.color
            &&& nt.thickness == ot.thickness
            &&& nt.path == ot.path.spec_with_start(
                nodes1.spec_get(ot.start)->Some_0.coord,
            ).spec_with_end(nodes1.spec_get(ot.end)->Some_0.coord)
            &&& nt.length == nt.path.spec_effective_length()
            &&& nt.path.in_range()
        }),
    ensures
        graph_wf(nodes1, tracks2),
        all_routers_target_tracks(nodes1, tracks2),
{
    assert forall|q: int| 0 <= q < nodes1@.len() implies {
        &&& (#[trigger] nodes1@[q]).1.wf()
        &&& nodes1@[q].1.id == nodes1@[q].0
    } by {
        assert(nodes0@[q].1.wf());
        if q != idx {
            assert(nodes1@[q] == nodes0@[q]);
        }
    }
    assert(tracks_wf(tracks2)) by {
        assert forall|q: int| 0 <= q < tracks2@.len() implies {
            &&& (#[trigger] tracks2@[q]).1.wf()
            &&& tracks2@[q].1.id == tracks2@[q].0
        } by {
            assert(self0.tracks@[q].1.wf());
        }
    }
    assert forall|q: int| 0 <= q < tracks2@.len() implies {
        &&& nodes1.spec_contains((#[trigger] tracks2@[q]).1.start)
        &&& nodes1.spec_contains(tracks2@[q].1.end)
        &&& nodes1.spec_get(tracks2@[q].1.start)->Some_0.coord == tracks2@[q].1.path.spec_start()
        &&& nodes1.spec_get(tracks2@[q].1.end)->Some_0.coord == tracks2@[q].1.path.spec_end()
    } by {
        let ot = self0.tracks@[q].1;
        let nt = tracks2@[q].1;
        assert(nodes0.spec_contains(ot.start));
        assert(nodes0.spec_contains(ot.end));
        IdMap::lemma_same_index_get(nodes0, nodes1);
        let cs = nodes1.spec_get(ot.start)->Some_0.coord;
        let ce = nodes1.spec_get(ot.end)->Some_0.coord;
        assert(nt.path == ot.path.spec_with_start(cs).spec_with_end(ce));
        assert(nt.path.spec_start() == cs);
        assert(nt.path.spec_end() == ce);
    }
    assert forall|q: int, tid: TrackID|
        #![trigger nodes1@[q].1.connections.spec_get(tid)]
        0 <= q < nodes1@.len() implies nodes1@[q].1.connections.spec_get(tid) == induced_conn(
        nodes1@[q].0,
        tid,
        tracks2,
    ) by {
        assert(nodes0@[q].1.connections.spec_get(tid) == induced_conn(
            nodes0@[q].0,
            tid,
            self0.tracks,
        ));
        assert(nodes1@[q].1.connections == nodes0@[q].1.connections);
        if self0.tracks.spec_contains(tid) {
            let ti2 = self0.tracks.spec_index_of(tid);
            self0.tracks.lemma_at(ti2);
            tracks2.lemma_at(ti2);
            assert(tracks2@[ti2].0 == tid);
        } else {
            if tracks2.spec_contains(tid) {
                let ti2 = tracks2.spec_index_of(tid);
                tracks2.lemma_at(ti2);
                assert(self0.tracks@[ti2].0 == tid);
                self0.tracks.lemma_at(ti2);
            }
        }
    }
    assert forall|q: int| 0 <= q < nodes1@.len() implies crate::graph::node_router_targets(
        (#[trigger] nodes1@[q]).1,
        tracks2,
    ) by {
        assert(crate::graph::node_router_targets(nodes0@[q].1, self0.tracks));
        assert(nodes1@[q].1.router == nodes0@[q].1.router);
        match nodes1@[q].1.router {
            Some(rt) => {
                assert forall|t: TrackID| #[trigger] self0.tracks.spec_contains(
                    t,
                ) implies tracks2.spec_contains(t) by {
                    let p = self0.tracks.spec_index_of(t);
                    self0.tracks.lemma_at(p);
                    tracks2.lemma_at(p);
                }
                crate::graph::lemma_router_targets_monotone(rt, self0.tracks, tracks2);
            },
            None => {},
        }
    }
}



} // verus!
