//! End-to-end scenarios against the engine: movement, clicks,
//! subscriptions and the persisted layout.

use train_backend::base::{ClickModifier, Direction, NodeType, RemovalType};
use train_backend::engine::Engine;
use train_backend::geom::{Bezier, BezierDiff, Coord};
use train_backend::packets::{CtrlError, CtrlPacket, ServerPacket};
use train_backend::persist::load_layout;

fn loop_engine(speed: u64) -> Engine {
    // one track of length 1000 px between two reflecting nodes
    let mut e = Engine::new();
    let (a, _) = e.add_node(Coord(0, 0), NodeType::Reverse);
    let (b, _) = e.add_node(Coord(1000, 0), NodeType::Reverse);
    let a = a.unwrap();
    let b = b.unwrap();
    let (t, _) = e.add_track(a, b, "#6FC".to_string(), 20, BezierDiff::ToBezier2);
    let t = t.unwrap();
    let (id, _) = e.add_train(t, speed);
    assert_eq!(id.unwrap(), 0);
    e
}

#[test]
fn reverse_loop_round_trip_in_two_track_times() {
    // a train at speed S on a closed run of length L is at the far boundary
    // with its direction flipped after L/S, and back after 2 L/S
    let mut e = loop_engine(1000);
    assert_eq!(e.next_wait(), Some(1000));
    e.handle_tick(1000);
    let train = e.trains.get(0).unwrap();
    assert_eq!(train.direction, Direction::Backward);
    assert_eq!(train.progress, 1_000_000);
    e.handle_tick(1000);
    let train = e.trains.get(0).unwrap();
    assert_eq!(train.direction, Direction::Forward);
    assert_eq!(train.progress, 0);
}

#[test]
fn progress_stays_in_bounds_over_many_track_lengths() {
    let mut e = loop_engine(997);
    for _ in 0..20 {
        e.handle_tick(7919);
        let train = e.trains.get(0).unwrap();
        assert!(train.progress <= 1_000_000);
    }
}

#[test]
fn estimated_time_is_zero_exactly_at_the_boundary() {
    // length 1000 px at 250 px/s: four seconds to the boundary
    let mut e = loop_engine(250);
    assert_eq!(e.next_wait(), Some(4000));
    e.handle_tick(1500);
    let train = e.trains.get(0).unwrap();
    assert_eq!(train.progress, 375_000);
    let left = train.estimated_time_left(&e.tracks);
    assert_eq!(left, 2500);
    assert!(left > 0);
    e.handle_tick(2500);
    // at the boundary the train has already bounced; a fresh train pinned
    // mid-track never reports zero
    let train = e.trains.get(0).unwrap();
    assert_eq!(train.progress, 1_000_000);
    assert_eq!(train.estimated_time_left(&e.tracks), 4000);
}

#[test]
fn random_node_with_single_track_reflects() {
    // an arriving train at a random node with only its own track bounces
    let mut e = Engine::new();
    let (a, _) = e.add_node(Coord(0, 0), NodeType::Random);
    let (b, _) = e.add_node(Coord(600, 0), NodeType::Reverse);
    let (t, _) = e.add_track(a.unwrap(), b.unwrap(), "#888".to_string(), 20, BezierDiff::ToBezier2);
    let (id, _) = e.add_train(t.unwrap(), 600);
    let id = id.unwrap();
    // send it backwards into the random node
    e.handle_click(id, ClickModifier { ctrl: false, shift: true, alt: false }, 0);
    assert_eq!(e.trains.get(id).unwrap().direction, Direction::Backward);
    e.handle_tick(1);
    let train = e.trains.get(id).unwrap();
    assert_eq!(train.direction, Direction::Forward);
    assert_eq!(train.current_track, 0);
    assert_eq!(train.progress, 600);
}

#[test]
fn random_node_never_returns_the_incoming_track() {
    // with two other tracks, a random node always picks one of them
    let mut e = Engine::new();
    let hub = e.add_node(Coord(0, 0), NodeType::Random).0.unwrap();
    let r1 = e.add_node(Coord(500, 0), NodeType::Reverse).0.unwrap();
    let r2 = e.add_node(Coord(0, 500), NodeType::Reverse).0.unwrap();
    let r3 = e.add_node(Coord(-500, 0), NodeType::Reverse).0.unwrap();
    let t_in = e.add_track(hub, r1, "#111".to_string(), 20, BezierDiff::ToBezier2).0.unwrap();
    let _t2 = e.add_track(hub, r2, "#222".to_string(), 20, BezierDiff::ToBezier2).0.unwrap();
    let _t3 = e.add_track(hub, r3, "#333".to_string(), 20, BezierDiff::ToBezier2).0.unwrap();
    let id = e.add_train(t_in, 500).0.unwrap();
    // drive the train backwards into the hub, many times
    for _ in 0..12 {
        e.handle_click(id, ClickModifier { ctrl: false, shift: true, alt: false }, 0);
        let before = e.trains.get(id).unwrap().current_track;
        e.handle_tick(1000);
        let train = e.trains.get(id).unwrap();
        if before == t_in {
            // leaving the hub it must be on one of the other two tracks
            assert_ne!(train.current_track, t_in);
        }
        // park the train again on the incoming track for the next round
        if train.current_track != t_in {
            // move it off and reset by removing and re-adding
            let tid = id;
            e.handle_click(tid, ClickModifier { ctrl: true, shift: false, alt: false }, 0);
            let new_id = e.add_train(t_in, 500).0.unwrap();
            assert!(e.trains.get(new_id).is_some());
            return;
        }
    }
}

#[test]
fn ctrl_click_removes_and_announces_once() {
    let mut e = loop_engine(100);
    let broadcasts = e.handle_click(0, ClickModifier { ctrl: true, shift: false, alt: false }, 50);
    assert!(e.trains.get(0).is_none());
    match &broadcasts[0] {
        ServerPacket::PacketREMOVE(id, kind) => {
            assert_eq!(*id, 0);
            assert!(matches!(
                kind,
                RemovalType::Vibrate | RemovalType::TakeOff | RemovalType::Derail
            ));
        },
        other => panic!("expected a removal first, got {:?}", other),
    }
    let removals = broadcasts
        .iter()
        .filter(|p| matches!(p, ServerPacket::PacketREMOVE(0, _)))
        .count();
    assert_eq!(removals, 1);
}

#[test]
fn subscription_after_new_track_sees_the_table_before_any_train() {
    let mut e = loop_engine(100);
    let c = e.add_node(Coord(0, 800), NodeType::Reverse).0.unwrap();
    let (res, _) = e.handle_ctrl(CtrlPacket::NewTrack(0, c, "#0AF".to_string()), 10);
    assert!(res.is_ok());
    let (snapshot, _) = e.subscribe_view(5);
    // nodes first, then the full track table, then the trains
    let table_at = snapshot
        .iter()
        .position(|p| matches!(p, ServerPacket::PacketTRACK(_)))
        .unwrap();
    assert_eq!(table_at, 3);
    match &snapshot[table_at] {
        ServerPacket::PacketTRACK(rows) => {
            assert_eq!(rows.len(), 2);
            assert!(rows.iter().any(|r| r.0 == 1));
        },
        _ => unreachable!(),
    }
    for (i, p) in snapshot.iter().enumerate() {
        if matches!(p, ServerPacket::PacketTRAIN(..)) {
            assert!(i > table_at);
        }
        if matches!(p, ServerPacket::PacketNODE(..)) {
            assert!(i < table_at);
        }
    }
}

#[test]
fn control_errors_are_reported() {
    let mut e = Engine::new();
    assert_eq!(e.add_train(7, 100).0, Err(CtrlError::UnknownTrack(7)));
    let a = e.add_node(Coord(0, 0), NodeType::Reverse).0.unwrap();
    let b = e.add_node(Coord(100, 0), NodeType::Reverse).0.unwrap();
    let t = e.add_track(a, b, "#fff".to_string(), 20, BezierDiff::ToBezier2).0.unwrap();
    assert_eq!(e.add_train(t, 0).0, Err(CtrlError::SpeedOutOfRange));
    assert_eq!(
        e.add_node(Coord(2_000_000_000, 0), NodeType::Random).0,
        Err(CtrlError::CoordOutOfRange)
    );
    assert_eq!(e.move_node(55, Coord(1, 1)).0, Err(CtrlError::UnknownNode(55)));
    assert_eq!(e.add_track(a, 44, "#fff".to_string(), 20, BezierDiff::ToBezier2).0,
        Err(CtrlError::UnknownNode(44)));
}

#[test]
fn moving_a_node_re_pins_curves_and_rescales_trains() {
    let mut e = loop_engine(100);
    let (res, _) = e.move_node(1, Coord(2000, 0));
    assert!(res.is_ok());
    let track = e.tracks.get(0).unwrap();
    assert_eq!(track.length, 2000);
    assert_eq!(track.path.end(), Coord(2000, 0));
    assert_eq!(track.path.start(), Coord(0, 0));
    let train = e.trains.get(0).unwrap();
    assert!(train.progress <= 2_000_000);
}

#[test]
fn layout_round_trip_preserves_graph() {
    let mut e = loop_engine(100);
    e.add_node(Coord(-300, 40), NodeType::Random).0.unwrap();
    let (nd, td) = e.into_documents();
    let e2 = load_layout(nd, td).expect("a saved layout loads");
    // rebuild the same layout for comparison
    let mut orig = loop_engine(100);
    orig.add_node(Coord(-300, 40), NodeType::Random).0.unwrap();
    assert_eq!(e2.nodes.len(), orig.nodes.len());
    assert_eq!(e2.tracks.len(), orig.tracks.len());
    assert!(e2.trains.is_empty());
    for id in 0..3u32 {
        let a = orig.nodes.get(id).unwrap();
        let b = e2.nodes.get(id).unwrap();
        assert_eq!(a.coord, b.coord);
        assert_eq!(a.conn_type, b.conn_type);
        for t in 0..1u32 {
            assert_eq!(a.connections.get(t).copied(), b.connections.get(t).copied());
        }
    }
    let ta = orig.tracks.get(0).unwrap();
    let tb = e2.tracks.get(0).unwrap();
    assert_eq!(ta.path, tb.path);
    assert_eq!(ta.start, tb.start);
    assert_eq!(ta.end, tb.end);
    assert_eq!(ta.length, tb.length);
}

#[test]
fn chord_length_is_exact_for_right_triangles() {
    let p = Bezier::Bezier2(Coord(0, 0), Coord(300, 400));
    assert_eq!(p.fast_length(), 500);
    let degenerate = Bezier::Bezier2(Coord(7, 7), Coord(7, 7));
    assert_eq!(degenerate.fast_length(), 0);
    assert_eq!(degenerate.effective_length(), 1);
    let bent = Bezier::Bezier3(Coord(0, 0), Coord(300, 400), Coord(600, 800));
    // (500 + 500 + 1000) / 2
    assert_eq!(bent.fast_length(), 1000);
}
