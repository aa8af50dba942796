//! The persisted layout: a snapshot of the node and track graph.
//!
//! A snapshot is two sibling documents — a nodes document and a tracks
//! document — from which [`load_layout`] reconstructs the graph.  Trains
//! are never persisted.  The connection maps and track lengths in the
//! documents are informative only: loading rebuilds connections from the
//! track endpoints and recomputes every length, and re-pins every curve to
//! its nodes' positions, as the engine invariant demands.

use vstd::prelude::*;
use crate::base::{MultiDirection, NodeID, NodeType, TrackID};
use crate::engine::{node_info_targets, Engine};
use crate::geom::{Bezier, Coord};
use crate::graph::{graph_wf, induced_conn, Node, TrackPiece};
use crate::idmap::IdMap;
use crate::packets::CtrlError;
use crate::routing::{RoutingInfo, RoutingType};

verus! {

/// A node as persisted: everything but the compiled router.
#[derive(Debug)]
pub struct StrippedNode {
    pub id: NodeID,
    pub coord: Coord,
    pub connections: IdMap<MultiDirection>,
    pub conn_type: NodeType,
    pub routing_info: Option<RoutingInfo>,
}

/// What persisting keeps of a node.
pub open spec fn spec_strip(n: Node) -> StrippedNode {
    StrippedNode {
        id: n.id,
        coord: n.coord,
        connections: n.connections,
        conn_type: n.conn_type,
        routing_info: n.routing_info,
    }
}

/// The documents hold exactly the engine's nodes (stripped of their
/// routers) and its tracks.
pub open spec fn stripped_docs(
    e: Engine,
    nd: IdMap<StrippedNode>,
    td: IdMap<TrackPiece>,
) -> bool {
    &&& nd@.len() == e.nodes@.len()
    &&& forall|i: int| 0 <= i < nd@.len() ==> ((#[trigger] nd@[i]).0 == e.nodes@[i].0
        && nd@[i].1 == spec_strip(e.nodes@[i].1))
    &&& td == e.tracks
}

/// What a successful load guarantees of the engine it builds.
pub open spec fn loaded_from(e: Engine, nd: IdMap<StrippedNode>, td: IdMap<TrackPiece>) -> bool {
    &&& e.wf()
    &&& e.trains@.len() == 0
    &&& e.nodes@.len() == nd@.len()
    &&& forall|i: int| 0 <= i < nd@.len() ==> ({
        let sn = (#[trigger] nd@[i]).1;
        let n = e.nodes@[i].1;
        &&& e.nodes@[i].0 == nd@[i].0
        &&& n.id == sn.id
        &&& n.coord == sn.coord
        &&& n.conn_type == sn.conn_type
    })
    &&& e.tracks@.len() == td@.len()
    &&& forall|i: int| 0 <= i < td@.len() ==> ({
        let st = (#[trigger] td@[i]).1;
        let t = e.tracks@[i].1;
        &&& e.tracks@[i].0 == td@[i].0
        &&& t.id == st.id
        &&& t.start == st.start
        &&& t.end == st.end
        &&& t.color == st.color
        &&& t.thickness == st.thickness
        &&& t.path == Bezier::spec_new(
            e.nodes.spec_get(st.start)->Some_0.coord,
            e.nodes.spec_get(st.end)->Some_0.coord,
            st.path.spec_get_diff(),
        )
    })
}

/// The conditions under which a pair of documents loads.
pub open spec fn spec_load_ok(nd: IdMap<StrippedNode>, td: IdMap<TrackPiece>) -> bool {
    &&& nd.wf()
    &&& td.wf()
    &&& forall|i: int| 0 <= i < nd@.len() ==> ({
        let sn = (#[trigger] nd@[i]).1;
        &&& sn.id == nd@[i].0
        &&& nd@[i].0 < u32::MAX
        &&& sn.coord.in_range()
        &&& (sn.routing_info matches Some(info) ==> (info.configured ==> (info.wf()
            && info.spec_valid())))
    })
    &&& forall|i: int| 0 <= i < td@.len() ==> ({
        let st = (#[trigger] td@[i]).1;
        &&& st.id == td@[i].0
        &&& td@[i].0 < u32::MAX
        &&& st.path.in_range()
        &&& nd.spec_contains(st.start)
        &&& nd.spec_contains(st.end)
    })
    &&& forall|i: int| 0 <= i < nd@.len() ==> stripped_info_targets((#[trigger] nd@[i]).1, td)
}

/// Every track outcome listed by a stored, configured routing
/// configuration targets a track of the tracks document.
pub open spec fn stripped_info_targets(sn: StrippedNode, td: IdMap<TrackPiece>) -> bool {
    match sn.routing_info {
        None => true,
        Some(info) => info.configured ==> forall|t: TrackID, d: crate::base::Direction|
            #[trigger] info.spec_has_outcome(RoutingType::Track(t, d)) ==> td.spec_contains(t),
    }
}

/// The collected list of configured routing configurations is faithful to
/// the nodes document: each entry is the stored, configured configuration
/// of its node.
pub open spec fn stash_ok(
    infos: Seq<(NodeID, RoutingInfo)>,
    nd0: IdMap<StrippedNode>,
) -> bool {
    forall|j: int| 0 <= j < infos.len() ==> ({
        let p = #[trigger] infos[j];
        &&& nd0.spec_get(p.0) matches Some(sn) && sn.routing_info == Some(p.1)
        &&& p.1.configured
        &&& p.1.wf()
    })
}

impl Engine {
    /// Consumes the engine and produces the two documents of a snapshot.
    /// Trains are deliberately left behind.
    pub fn into_documents(self) -> (r: (IdMap<StrippedNode>, IdMap<TrackPiece>))
        requires
            self.nodes.wf(),
        ensures
            stripped_docs(self, r.0, r.1),
            r.0.wf(),
    {
        let mut nodes = self.nodes;
        let tracks = self.tracks;
        let ghost nodes0 = nodes;
        let mut nd: IdMap<StrippedNode> = IdMap::new();
        let mut i: usize = 0;
        let n = nodes.len();
        while i < n
            invariant
                i <= n,
                n == nodes0@.len(),
                nodes0.wf(),
                nodes@ == nodes0@.subrange(i as int, n as int),
                nodes.wf(),
                nd.wf(),
                nd@.len() == i,
                forall|q: int| 0 <= q < i ==> ((#[trigger] nd@[q]).0 == nodes0@[q].0 && nd@[q].1
                    == spec_strip(nodes0@[q].1)),
            decreases n - i,
        {
            let (k, node) = match nodes.pop_first() {
                Some(p) => p,
                None => vstd::pervasive::unreached(),
            };
            let stripped = StrippedNode {
                id: node.id,
                coord: node.coord,
                connections: node.connections,
                conn_type: node.conn_type,
                routing_info: node.routing_info,
            };
            let ghost nd_prev = nd@;
            proof {
                assert forall|q: int| 0 <= q < nd@.len() implies (#[trigger] nd@[q]).0 < k by {
                    assert(nodes0@[q].0 < nodes0@[i as int].0);
                }
                assert(nodes0@.subrange(i as int, n as int).drop_first() =~= nodes0@.subrange(
                    i + 1,
                    n as int,
                ));
            }
            nd.insert(k, stripped);
            proof {
                assert(nd@ == nd_prev.push((k, stripped)));
            }
            i = i + 1;
        }
        (nd, tracks)
    }
}

/// Reconstructs an engine from a persisted snapshot.  Nodes are recreated
/// at their stored positions with their stored policy, tracks are rebuilt
/// between them — re-deriving every connection map from the track
/// endpoints, re-pinning every curve to its nodes and recomputing every
/// length — and the stored, configured routing configurations are
/// re-validated and installed.  Unconfigured stored configurations are
/// normalised to the default.  Trains always start empty.
pub fn load_layout(nd: IdMap<StrippedNode>, td: IdMap<TrackPiece>) -> (r: Result<
    Engine,
    &'static str,
>)
    ensures
        r is Ok <==> spec_load_ok(nd, td),
        r matches Ok(e) ==> loaded_from(e, nd, td),
{
    if !nd.is_sorted() {
        return Err("Loaded nodes aren't sorted by id");
    }
    if !td.is_sorted() {
        return Err("Loaded tracks aren't sorted by id");
    }
    let ghost nd0 = nd;
    let ghost td0 = td;
    let mut nd = nd;
    let mut td = td;
    let mut e = Engine::new();
    let mut infos: Vec<(NodeID, RoutingInfo)> = Vec::new();
    let mut err: Option<&'static str> = None;
    let n = nd.len();
    let mut i: usize = 0;
    while i < n
        invariant_except_break
            i <= n,
            n == nd0@.len(),
            nd0.wf(),
            td0.wf(),
            td == td0,
            nd@ == nd0@.subrange(i as int, n as int),
            e.wf(),
            e.tracks@.len() == 0,
            e.trains@.len() == 0,
            e.nodes@.len() == i,
            forall|q: int| 0 <= q < i ==> ({
                let sn = (#[trigger] nd0@[q]).1;
                let node = e.nodes@[q].1;
                &&& e.nodes@[q].0 == nd0@[q].0
                &&& node.id == sn.id
                &&& node.coord == sn.coord
                &&& node.conn_type == sn.conn_type
            }),
            forall|q: int| 0 <= q < i ==> ({
                let sn = (#[trigger] nd0@[q]).1;
                &&& sn.id == nd0@[q].0
                &&& nd0@[q].0 < u32::MAX
                &&& sn.coord.in_range()
                &&& (sn.routing_info matches Some(info) ==> (info.configured ==> info.wf()))
            }),
            stash_ok(infos@, nd0),
            forall|q: int| 0 <= q < i ==> ((#[trigger] nd0@[q]).1.routing_info
                matches Some(info) ==> (info.configured ==> infos@.contains(
                (nd0@[q].0, info),
            ))),
            err is None,
        ensures
            err is Some ==> !spec_load_ok(nd0, td0),
            err is None ==> ({
                &&& e.wf()
                &&& e.tracks@.len() == 0
                &&& e.trains@.len() == 0
                &&& e.nodes@.len() == nd0@.len()
                &&& td == td0
                &&& forall|q: int| 0 <= q < nd0@.len() ==> ({
                    let sn = (#[trigger] nd0@[q]).1;
                    let node = e.nodes@[q].1;
                    &&& e.nodes@[q].0 == nd0@[q].0
                    &&& node.id == sn.id
                    &&& node.coord == sn.coord
                    &&& node.conn_type == sn.conn_type
                })
                &&& forall|q: int| 0 <= q < nd0@.len() ==> ({
                    let sn = (#[trigger] nd0@[q]).1;
                    &&& sn.id == nd0@[q].0
                    &&& nd0@[q].0 < u32::MAX
                    &&& sn.coord.in_range()
                    &&& (sn.routing_info matches Some(info) ==> (info.configured ==> info.wf()))
                })
                &&& stash_ok(infos@, nd0)
                &&& forall|q: int| 0 <= q < nd0@.len() ==> ((#[trigger] nd0@[q]).1.routing_info
                    matches Some(info) ==> (info.configured ==> infos@.contains(
                    (nd0@[q].0, info),
                )))
            }),
        decreases n - i,
    {
        let (k, sn) = match nd.pop_first() {
            Some(p) => p,
            None => vstd::pervasive::unreached(),
        };
        proof {
            assert(nd0@.subrange(i as int, n as int).drop_first() =~= nd0@.subrange(
                i + 1,
                n as int,
            ));
            nd0.lemma_at(i as int);
        }
        if sn.id != k {
            proof {
                if spec_load_ok(nd0, td0) {
                    assert(nd0@[i as int].1.id == nd0@[i as int].0);
                }
            }
            err = Some("Loaded node id doesn't match its key");
            break ;
        }
        if k == u32::MAX {
            proof {
                if spec_load_ok(nd0, td0) {
                    assert(nd0@[i as int].0 < u32::MAX);
                }
            }
            err = Some("Loaded node identifier space is exhausted");
            break ;
        }
        if !sn.coord.check_range() {
            proof {
                if spec_load_ok(nd0, td0) {
                    assert(nd0@[i as int].1.coord.in_range());
                }
            }
            err = Some("Loaded node position is out of range");
            break ;
        }
        proof {
            assert forall|q: int| 0 <= q < e.nodes@.len() implies (#[trigger] e.nodes@[q]).0
                < k by {
                assert(nd0@[q].0 < nd0@[i as int].0);
            }
        }
        e.next_node_serial = k;
        let (res, _pkts) = e.add_node(sn.coord, sn.conn_type);
        proof {
            assert(res is Ok);
        }
        match sn.routing_info {
            Some(info) => {
                if info.configured {
                    if !info.wf_check() {
                        proof {
                            if spec_load_ok(nd0, td0) {
                                assert(nd0@[i as int].1.routing_info matches Some(info2)
                                    ==> (info2.configured ==> info2.wf()));
                            }
                        }
                        err = Some("Loaded routing info is malformed");
                        break ;
                    }
                    let ghost infos_prev = infos@;
                    let ghost info_g = info;
                    infos.push((k, info));
                    proof {
                        assert(infos@ == infos_prev.push((k, info_g)));
                        crate::routing::lemma_push_contains(infos_prev, (k, info_g));
                        nd0.lemma_at(i as int);
                        assert(stash_ok(infos@, nd0)) by {
                            assert forall|j: int| 0 <= j < infos@.len() implies ({
                                let p = #[trigger] infos@[j];
                                &&& nd0.spec_get(p.0) matches Some(sn2) && sn2.routing_info
                                    == Some(p.1)
                                &&& p.1.configured
                                &&& p.1.wf()
                            }) by {
                                if j < infos_prev.len() {
                                    assert(infos@[j] == infos_prev[j]);
                                } else {
                                    assert(infos@[j] == (k, info_g));
                                }
                            }
                        }
                    }
                }
            },
            None => {},
        }
        i = i + 1;
    }
    if let Some(msg) = err {
        return Err(msg);
    }
    let tn = td.len();
    let mut err2: Option<&'static str> = None;
    let mut i: usize = 0;
    while i < tn
        invariant_except_break
            i <= tn,
            tn == td0@.len(),
            nd0.wf(),
            td0.wf(),
            td@ == td0@.subrange(i as int, tn as int),
            e.wf(),
            e.trains@.len() == 0,
            e.nodes@.len() == nd0@.len(),
            forall|q: int| 0 <= q < nd0@.len() ==> ({
                let sn = (#[trigger] nd0@[q]).1;
                let node = e.nodes@[q].1;
                &&& e.nodes@[q].0 == nd0@[q].0
                &&& node.id == sn.id
                &&& node.coord == sn.coord
                &&& node.conn_type == sn.conn_type
            }),
            e.tracks@.len() == i,
            forall|q: int| 0 <= q < i ==> ({
                let st = (#[trigger] td0@[q]).1;
                let t = e.tracks@[q].1;
                &&& e.tracks@[q].0 == td0@[q].0
                &&& t.id == st.id
                &&& t.start == st.start
                &&& t.end == st.end
                &&& t.color == st.color
                &&& t.thickness == st.thickness
                &&& t.path == Bezier::spec_new(
                    e.nodes.spec_get(st.start)->Some_0.coord,
                    e.nodes.spec_get(st.end)->Some_0.coord,
                    st.path.spec_get_diff(),
                )
            }),
            forall|q: int| 0 <= q < i ==> ({
                let st = (#[trigger] td0@[q]).1;
                &&& st.id == td0@[q].0
                &&& td0@[q].0 < u32::MAX
                &&& st.path.in_range()
                &&& nd0.spec_contains(st.start)
                &&& nd0.spec_contains(st.end)
            }),
            stash_ok(infos@, nd0),
            forall|q: int| 0 <= q < nd0@.len() ==> ((#[trigger] nd0@[q]).1.routing_info
                matches Some(info) ==> (info.configured ==> infos@.contains(
                (nd0@[q].0, info),
            ))),
            err2 is None,
        ensures
            err2 is Some ==> !spec_load_ok(nd0, td0),
            err2 is None ==> ({
                &&& e.wf()
                &&& e.trains@.len() == 0
                &&& e.nodes@.len() == nd0@.len()
                &&& e.tracks@.len() == td0@.len()
                &&& forall|q: int| 0 <= q < nd0@.len() ==> ({
                    let sn = (#[trigger] nd0@[q]).1;
                    let node = e.nodes@[q].1;
                    &&& e.nodes@[q].0 == nd0@[q].0
                    &&& node.id == sn.id
                    &&& node.coord == sn.coord
                    &&& node.conn_type == sn.conn_type
                })
                &&& forall|q: int| 0 <= q < td0@.len() ==> ({
                    let st = (#[trigger] td0@[q]).1;
                    let t = e.tracks@[q].1;
                    &&& e.tracks@[q].0 == td0@[q].0
                    &&& t.id == st.id
                    &&& t.start == st.start
                    &&& t.end == st.end
                    &&& t.color == st.color
                    &&& t.thickness == st.thickness
                    &&& t.path == Bezier::spec_new(
                        e.nodes.spec_get(st.start)->Some_0.coord,
                        e.nodes.spec_get(st.end)->Some_0.coord,
                        st.path.spec_get_diff(),
                    )
                })
                &&& forall|q: int| 0 <= q < td0@.len() ==> ({
                    let st = (#[trigger] td0@[q]).1;
                    &&& st.id == td0@[q].0
                    &&& td0@[q].0 < u32::MAX
                    &&& st.path.in_range()
                    &&& nd0.spec_contains(st.start)
                    &&& nd0.spec_contains(st.end)
                })
                &&& stash_ok(infos@, nd0)
                &&& forall|q: int| 0 <= q < nd0@.len() ==> ((#[trigger] nd0@[q]).1.routing_info
                    matches Some(info) ==> (info.configured ==> infos@.contains(
                    (nd0@[q].0, info),
                )))
            }),
        decreases tn - i,
    {
        let (k, st) = match td.pop_first() {
            Some(p) => p,
            None => vstd::pervasive::unreached(),
        };
        proof {
            assert(td0@.subrange(i as int, tn as int).drop_first() =~= td0@.subrange(
                i + 1,
                tn as int,
            ));
            td0.lemma_at(i as int);
            crate::idmap::lemma_wf_same_keys(nd0@, e.nodes@);
            crate::idmap::lemma_same_keys_index(nd0, e.nodes);
        }
        if st.id != k {
            proof {
                if spec_load_ok(nd0, td0) {
                    assert(td0@[i as int].1.id == td0@[i as int].0);
                }
            }
            err2 = Some("Loaded track id doesn't match its key");
            break ;
        }
        if k == u32::MAX {
            proof {
                if spec_load_ok(nd0, td0) {
                    assert(td0@[i as int].0 < u32::MAX);
                }
            }
            err2 = Some("Loaded track identifier space is exhausted");
            break ;
        }
        if !st.path.check_range() {
            proof {
                if spec_load_ok(nd0, td0) {
                    assert(td0@[i as int].1.path.in_range());
                }
            }
            err2 = Some("Loaded track curve is out of range");
            break ;
        }
        if !e.nodes.contains_key(st.start) {
            proof {
                if spec_load_ok(nd0, td0) {
                    assert(nd0.spec_contains(td0@[i as int].1.start));
                }
            }
            err2 = Some("Loaded track contains start node not included in nodes");
            break ;
        }
        if !e.nodes.contains_key(st.end) {
            proof {
                if spec_load_ok(nd0, td0) {
                    assert(nd0.spec_contains(td0@[i as int].1.end));
                }
            }
            err2 = Some("Loaded track contains end node not included in nodes");
            break ;
        }
        proof {
            assert forall|q: int| 0 <= q < e.tracks@.len() implies (#[trigger] e.tracks@[q]).0
                < k by {
                assert(td0@[q].0 < td0@[i as int].0);
            }
        }
        e.next_track_serial = k;
        let ghost e_prev = e;
        let diff = st.path.get_diff();
        let (res, _pkts) = e.add_track(st.start, st.end, st.color, st.thickness, diff);
        proof {
            assert(res is Ok);
            assert forall|q: int| 0 <= q < i + 1 implies ({
                let st2 = (#[trigger] td0@[q]).1;
                let t = e.tracks@[q].1;
                &&& e.tracks@[q].0 == td0@[q].0
                &&& t.id == st2.id
                &&& t.start == st2.start
                &&& t.end == st2.end
                &&& t.color == st2.color
                &&& t.thickness == st2.thickness
                &&& t.path == Bezier::spec_new(
                    e.nodes.spec_get(st2.start)->Some_0.coord,
                    e.nodes.spec_get(st2.end)->Some_0.coord,
                    st2.path.spec_get_diff(),
                )
            }) by {
                crate::idmap::lemma_wf_same_keys(e_prev.nodes@, e.nodes@);
                IdMap::lemma_same_index_get(e_prev.nodes, e.nodes);
                if q < i as int {
                    assert(e.tracks@[q] == e_prev.tracks@[q]);
                    let st2 = td0@[q].1;
                    assert(nd0.spec_contains(st2.start));
                    crate::idmap::lemma_same_keys_index(nd0, e_prev.nodes);
                    let sq = nd0.spec_index_of(st2.start);
                    let eq = nd0.spec_index_of(st2.end);
                    assert(e_prev.nodes.spec_get(st2.start) == Some(e_prev.nodes@[sq].1));
                    assert(e.nodes.spec_get(st2.start) == Some(e.nodes@[sq].1));
                    assert(e_prev.nodes.spec_get(st2.end) == Some(e_prev.nodes@[eq].1));
                    assert(e.nodes.spec_get(st2.end) == Some(e.nodes@[eq].1));
                }
            }
        }
        i = i + 1;
    }
    if let Some(msg) = err2 {
        return Err(msg);
    }
    let ghost e_mid = e;
    let ghost infos0 = infos@;
    let m = infos.len();
    let mut err3: Option<&'static str> = None;
    let mut i: usize = 0;
    while i < m
        invariant_except_break
            i <= m,
            m == infos0.len(),
            infos@ == infos0.subrange(i as int, m as int),
            nd0.wf(),
            td0.wf(),
            e.wf(),
            e.trains@.len() == 0,
            e.tracks == e_mid.tracks,
            e.nodes@.len() == nd0@.len(),
            e_mid.tracks@.len() == td0@.len(),
            forall|q: int| 0 <= q < e_mid.tracks@.len() ==> (#[trigger] e_mid.tracks@[q]).0
                == td0@[q].0,
            forall|q: int| 0 <= q < nd0@.len() ==> ({
                let sn = (#[trigger] nd0@[q]).1;
                let node = e.nodes@[q].1;
                &&& e.nodes@[q].0 == nd0@[q].0
                &&& node.id == sn.id
                &&& node.coord == sn.coord
                &&& node.conn_type == sn.conn_type
            }),
            stash_ok(infos0, nd0),
            forall|q: int| 0 <= q < nd0@.len() ==> ((#[trigger] nd0@[q]).1.routing_info
                matches Some(info) ==> (info.configured ==> infos0.contains(
                (nd0@[q].0, info),
            ))),
            forall|q: int| 0 <= q < nd0@.len() ==> ((#[trigger] nd0@[q]).1.routing_info
                matches Some(info) ==> (info.configured ==> exists|j: int|
                0 <= j < infos0.len() && infos0[j] == (nd0@[q].0, info))),
            forall|j: int| 0 <= j < i ==> ({
                let info = (#[trigger] infos0[j]).1;
                &&& info.spec_valid()
                &&& forall|t: TrackID, d: crate::base::Direction|
                    #[trigger] info.spec_has_outcome(RoutingType::Track(t, d))
                        ==> td0.spec_contains(t)
            }),
            err3 is None,
        ensures
            err3 is Some ==> !spec_load_ok(nd0, td0),
            err3 is None ==> ({
                &&& e.wf()
                &&& e.trains@.len() == 0
                &&& e.tracks == e_mid.tracks
                &&& e.nodes@.len() == nd0@.len()
                &&& forall|q: int| 0 <= q < nd0@.len() ==> ({
                    let sn = (#[trigger] nd0@[q]).1;
                    let node = e.nodes@[q].1;
                    &&& e.nodes@[q].0 == nd0@[q].0
                    &&& node.id == sn.id
                    &&& node.coord == sn.coord
                    &&& node.conn_type == sn.conn_type
                })
                &&& forall|j: int| 0 <= j < infos0.len() ==> ({
                    let info = (#[trigger] infos0[j]).1;
                    &&& info.spec_valid()
                    &&& forall|t: TrackID, d: crate::base::Direction|
                        #[trigger] info.spec_has_outcome(RoutingType::Track(t, d))
                            ==> td0.spec_contains(t)
                })
            }),
        decreases m - i,
    {
        let (k, info) = infos.remove(0);
        let ghost info_g = info;
        proof {
            assert(infos0.subrange(i as int, m as int).drop_first() =~= infos0.subrange(
                i + 1,
                m as int,
            ));
            assert((k, info_g) == infos0[i as int]);
            assert(nd0.spec_get(k) matches Some(sn) && sn.routing_info == Some(info_g));
            assert(info_g.wf());
            crate::idmap::lemma_same_keys_index(nd0, e.nodes);
            assert(nd0.spec_contains(k));
            assert(e.nodes.spec_contains(k));
        }
        let ghost e_prev = e;
        match e.set_node_routing(k, info) {
            Ok(_) => {
                proof {
                    assert(info_g.spec_valid());
                    assert forall|t: TrackID, d: crate::base::Direction|
                        #[trigger] info_g.spec_has_outcome(RoutingType::Track(t, d))
                            implies td0.spec_contains(t) by {
                        assert(e_prev.tracks.spec_contains(t));
                        let p = e_prev.tracks.spec_index_of(t);
                        e_prev.tracks.lemma_at(p);
                        assert(e_prev.tracks@[p].0 == t);
                        assert(td0@[p].0 == t);
                        td0.lemma_at(p);
                    }
                    assert forall|q: int| 0 <= q < nd0@.len() implies ({
                        let sn = (#[trigger] nd0@[q]).1;
                        let node = e.nodes@[q].1;
                        &&& e.nodes@[q].0 == nd0@[q].0
                        &&& node.id == sn.id
                        &&& node.coord == sn.coord
                        &&& node.conn_type == sn.conn_type
                    }) by {
                        if e_prev.nodes@[q].0 != k {
                            assert(e.nodes@[q] == e_prev.nodes@[q]);
                        } else {
                            e_prev.nodes.lemma_at(q);
                            e.nodes.lemma_at(q);
                            assert(e.nodes.spec_get(k) is Some);
                        }
                    }
                }
            },
            Err(_) => {
                proof {
                    if spec_load_ok(nd0, td0) {
                        let q = nd0.spec_index_of(k);
                        nd0.lemma_at(q);
                        assert(nd0@[q].1.routing_info == Some(info_g));
                        assert(info_g.spec_valid());
                        assert(stripped_info_targets(nd0@[q].1, td0));
                        assert forall|t: TrackID, d: crate::base::Direction|
                            #[trigger] info_g.spec_has_outcome(RoutingType::Track(t, d))
                                implies e_prev.tracks.spec_contains(t) by {
                            assert(td0.spec_contains(t));
                            let p = td0.spec_index_of(t);
                            td0.lemma_at(p);
                            assert(e_prev.tracks@[p].0 == t);
                            e_prev.tracks.lemma_at(p);
                        }
                        assert(false);
                    }
                }
                err3 = Some("Loaded routing info is invalid");
                break ;
            },
        }
        i = i + 1;
    }
    if let Some(msg) = err3 {
        return Err(msg);
    }
    proof {
        assert(spec_load_ok(nd0, td0)) by {
            assert forall|q: int| 0 <= q < nd0@.len() implies ({
                let sn = (#[trigger] nd0@[q]).1;
                &&& (sn.routing_info matches Some(info) ==> (info.configured ==> (info.wf()
                    && info.spec_valid())))
                &&& stripped_info_targets(sn, td0)
            }) by {
                match nd0@[q].1.routing_info {
                    Some(info) => {
                        if info.configured {
                            assert(infos0.contains((nd0@[q].0, info)));
                            let j = choose|j: int|
                                0 <= j < infos0.len() && infos0[j] == (nd0@[q].0, info);
                            assert(infos0[j].1.spec_valid());
                        }
                    },
                    None => {},
                }
            }
        }
        assert(loaded_from(e, nd0, td0)) by {
            assert forall|q: int| 0 <= q < td0@.len() implies ({
                let st = (#[trigger] td0@[q]).1;
                let t = e.tracks@[q].1;
                &&& e.tracks@[q].0 == td0@[q].0
                &&& t.id == st.id
                &&& t.start == st.start
                &&& t.end == st.end
                &&& t.color == st.color
                &&& t.thickness == st.thickness
                &&& t.path == Bezier::spec_new(
                    e.nodes.spec_get(st.start)->Some_0.coord,
                    e.nodes.spec_get(st.end)->Some_0.coord,
                    st.path.spec_get_diff(),
                )
            }) by {
                assert(e.tracks@[q] == e_mid.tracks@[q]);
                let st = td0@[q].1;
                crate::idmap::lemma_wf_same_keys(nd0@, e.nodes@);
                crate::idmap::lemma_same_keys_index(nd0, e.nodes);
                crate::idmap::lemma_wf_same_keys(nd0@, e_mid.nodes@);
                crate::idmap::lemma_same_keys_index(nd0, e_mid.nodes);
                let sq = nd0.spec_index_of(st.start);
                let eq2 = nd0.spec_index_of(st.end);
                assert(e.nodes.spec_get(st.start) == Some(e.nodes@[sq].1));
                assert(e_mid.nodes.spec_get(st.start) == Some(e_mid.nodes@[sq].1));
                assert(e.nodes.spec_get(st.end) == Some(e.nodes@[eq2].1));
                assert(e_mid.nodes.spec_get(st.end) == Some(e_mid.nodes@[eq2].1));
            }
        }
    }
    Ok(e)
}

/// The snapshot of a well-formed engine always loads: saving never produces
/// documents that [`load_layout`] rejects.
pub proof fn lemma_snapshot_loads(e: Engine, nd: IdMap<StrippedNode>, td: IdMap<TrackPiece>)
    requires
        e.wf(),
        stripped_docs(e, nd, td),
        nd.wf(),
    ensures
        spec_load_ok(nd, td),
{
    assert forall|i: int| 0 <= i < nd@.len() implies ({
        let sn = (#[trigger] nd@[i]).1;
        &&& sn.id == nd@[i].0
        &&& nd@[i].0 < u32::MAX
        &&& sn.coord.in_range()
        &&& (sn.routing_info matches Some(info) ==> (info.configured ==> (info.wf()
            && info.spec_valid())))
    }) by {
        assert(e.nodes@[i].1.wf());
        assert(e.nodes@[i].1.id == e.nodes@[i].0);
        assert(e.nodes@[i].0 < e.next_node_serial);
    }
    assert forall|i: int| 0 <= i < td@.len() implies ({
        let st = (#[trigger] td@[i]).1;
        &&& st.id == td@[i].0
        &&& td@[i].0 < u32::MAX
        &&& st.path.in_range()
        &&& nd.spec_contains(st.start)
        &&& nd.spec_contains(st.end)
    }) by {
        assert(e.tracks@[i].1.wf());
        assert(e.tracks@[i].1.id == e.tracks@[i].0);
        assert(e.tracks@[i].0 < e.next_track_serial);
        assert(e.nodes.spec_contains(td@[i].1.start));
        assert(e.nodes.spec_contains(td@[i].1.end));
        crate::idmap::lemma_same_keys_index(e.nodes, nd);
    }
    assert forall|i: int| 0 <= i < nd@.len() implies stripped_info_targets(
        (#[trigger] nd@[i]).1,
        td,
    ) by {
        assert(crate::engine::node_info_targets(e.nodes@[i].1, e.tracks));
    }
}

/// Round trip: saving a graph and reloading the documents reproduces it —
/// node for node the same position, policy, and connection map (the same
/// tracks reached in the same directions of travel), and track for track
/// the very same curve.
pub proof fn lemma_layout_round_trip(
    e: Engine,
    nd: IdMap<StrippedNode>,
    td: IdMap<TrackPiece>,
    e2: Engine,
)
    requires
        e.wf(),
        stripped_docs(e, nd, td),
        loaded_from(e2, nd, td),
    ensures
        e2.nodes@.len() == e.nodes@.len(),
        forall|i: int| 0 <= i < e.nodes@.len() ==> ({
            let a = (#[trigger] e.nodes@[i]).1;
            let b = e2.nodes@[i].1;
            &&& e2.nodes@[i].0 == e.nodes@[i].0
            &&& b.coord == a.coord
            &&& b.conn_type == a.conn_type
            &&& forall|tid: TrackID| #[trigger] b.connections.spec_get(tid)
                == a.connections.spec_get(tid)
        }),
        e2.tracks@.len() == e.tracks@.len(),
        forall|i: int| 0 <= i < e.tracks@.len() ==> ((#[trigger] e2.tracks@[i]).0
            == e.tracks@[i].0 && e2.tracks@[i].1.path == e.tracks@[i].1.path),
{
    assert forall|i: int| 0 <= i < e2.nodes@.len() implies (#[trigger] e2.nodes@[i]).0
        == e.nodes@[i].0 by {
        assert(nd@[i].0 == e.nodes@[i].0);
        assert(e2.nodes@[i].0 == nd@[i].0);
    }
    assert forall|i: int| 0 <= i < e2.nodes@.len() implies (#[trigger] e2.nodes@[i]).1.coord
        == e.nodes@[i].1.coord by {
        assert(nd@[i].1 == spec_strip(e.nodes@[i].1));
        assert(e2.nodes@[i].1.coord == nd@[i].1.coord);
    }
    assert forall|i: int| 0 <= i < e2.nodes@.len() implies (#[trigger] e2.nodes@[i]).1.conn_type
        == e.nodes@[i].1.conn_type by {
        assert(nd@[i].1 == spec_strip(e.nodes@[i].1));
        assert(e2.nodes@[i].1.conn_type == nd@[i].1.conn_type);
    }
    assert forall|i: int| 0 <= i < e.tracks@.len() implies ((#[trigger] e2.tracks@[i]).0
        == e.tracks@[i].0 && e2.tracks@[i].1.path == e.tracks@[i].1.path) by {
        let st = td@[i].1;
        assert(st == e.tracks@[i].1);
        assert(e.nodes.spec_contains(st.start));
        assert(e.nodes.spec_contains(st.end));
        crate::idmap::lemma_same_keys_index(e.nodes, e2.nodes);
        let sq = e.nodes.spec_index_of(st.start);
        let eq2 = e.nodes.spec_index_of(st.end);
        e.nodes.lemma_at(sq);
        e.nodes.lemma_at(eq2);
        assert(e2.nodes.spec_get(st.start) == Some(e2.nodes@[sq].1));
        assert(e2.nodes.spec_get(st.end) == Some(e2.nodes@[eq2].1));
        assert(e2.nodes@[sq].1.coord == e.nodes@[sq].1.coord);
        assert(e2.nodes@[eq2].1.coord == e.nodes@[eq2].1.coord);
        assert(e.nodes.spec_get(st.start)->Some_0.coord == st.path.spec_start());
        assert(e.nodes.spec_get(st.end)->Some_0.coord == st.path.spec_end());
        st.path.lemma_rebuild();
    }
    assert forall|i: int| 0 <= i < e.nodes@.len() implies ({
        let a = (#[trigger] e.nodes@[i]).1;
        let b = e2.nodes@[i].1;
        &&& e2.nodes@[i].0 == e.nodes@[i].0
        &&& b.coord == a.coord
        &&& b.conn_type == a.conn_type
        &&& forall|tid: TrackID| #[trigger] b.connections.spec_get(tid)
            == a.connections.spec_get(tid)
    }) by {
        let a = e.nodes@[i].1;
        let b = e2.nodes@[i].1;
        assert forall|tid: TrackID| #[trigger] b.connections.spec_get(tid)
            == a.connections.spec_get(tid) by {
            assert(a.connections.spec_get(tid) == induced_conn(e.nodes@[i].0, tid, e.tracks));
            assert(b.connections.spec_get(tid) == induced_conn(e2.nodes@[i].0, tid, e2.tracks));
            crate::idmap::lemma_same_keys_index(e.tracks, e2.tracks);
            if e.tracks.spec_contains(tid) {
                let p = e.tracks.spec_index_of(tid);
                e.tracks.lemma_at(p);
                assert(e2.tracks.spec_get(tid) == Some(e2.tracks@[p].1));
                assert(e2.tracks@[p].1.start == td@[p].1.start);
                assert(e2.tracks@[p].1.end == td@[p].1.end);
            }
        }
    }
}

} // verus!
