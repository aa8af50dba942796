//! Validation and behaviour of routing configurations.

use train_backend::base::Direction;
use train_backend::engine::{Engine, SetRoutingError};
use train_backend::geom::{BezierDiff, Coord};
use train_backend::idmap::IdMap;
use train_backend::base::NodeType;
use train_backend::router::BuiltRouter;
use train_backend::routing::{
    configured_default, AfterEffects, CompoundRoutingType, RoutingCheckError, RoutingInfo,
    RoutingState, RoutingType,
};

fn state(
    after_click: AfterEffects,
    forward: Vec<(u32, (CompoundRoutingType, AfterEffects))>,
) -> RoutingState {
    let mut fw = IdMap::new();
    for (k, v) in forward {
        fw.insert(k, v);
    }
    RoutingState { after_click, forward_routings: fw, backward_routings: IdMap::new() }
}

fn info_with(states: Vec<(u32, RoutingState)>, default_state: u32) -> RoutingInfo {
    let mut m = IdMap::new();
    for (k, v) in states {
        m.insert(k, v);
    }
    RoutingInfo { configured: true, default_state, states: m }
}

#[test]
fn check_accepts_a_valid_configuration() {
    let info = info_with(
        vec![(
            0,
            state(
                AfterEffects::Nothing,
                vec![(
                    3,
                    (
                        CompoundRoutingType::Weighted(vec![
                            (2, RoutingType::BounceBack),
                            (1, RoutingType::Derail),
                        ]),
                        AfterEffects::SwitchState(0),
                    ),
                )],
            ),
        )],
        0,
    );
    assert_eq!(info.check(), Ok(()));
}

#[test]
fn check_rejects_a_missing_default_state() {
    let info = info_with(vec![], 0);
    assert_eq!(info.check(), Err(RoutingCheckError::DefaultStateMissing));
    assert_eq!(
        RoutingCheckError::DefaultStateMissing.message(),
        "Default state isn't defined in states"
    );
}

#[test]
fn default_info_is_rejected_for_its_missing_default_state() {
    let info = RoutingInfo::default();
    let reason = info.check().unwrap_err();
    assert_eq!(reason, RoutingCheckError::DefaultStateMissing);
    assert_eq!(reason.message(), "Default state isn't defined in states");
}

#[test]
fn check_rejects_empty_and_zero_distributions() {
    let empty = info_with(
        vec![(
            0,
            state(
                AfterEffects::Nothing,
                vec![(1, (CompoundRoutingType::Weighted(vec![]), AfterEffects::Nothing))],
            ),
        )],
        0,
    );
    assert_eq!(empty.check(), Err(RoutingCheckError::RouteWeightsEmpty));

    let zero = info_with(
        vec![(
            0,
            state(
                AfterEffects::Nothing,
                vec![(
                    1,
                    (
                        CompoundRoutingType::Weighted(vec![(0, RoutingType::BounceBack)]),
                        AfterEffects::Nothing,
                    ),
                )],
            ),
        )],
        0,
    );
    assert_eq!(zero.check(), Err(RoutingCheckError::RouteWeightsZero));
}

#[test]
fn check_rejects_missing_after_effect_targets() {
    let click = info_with(
        vec![(0, state(AfterEffects::SwitchState(9), vec![]))],
        0,
    );
    assert_eq!(click.check(), Err(RoutingCheckError::ClickStateMissing));

    let effect = info_with(
        vec![(
            0,
            state(
                AfterEffects::Nothing,
                vec![(
                    1,
                    (
                        CompoundRoutingType::Simple(RoutingType::BounceBack),
                        AfterEffects::SwitchState(7),
                    ),
                )],
            ),
        )],
        0,
    );
    assert_eq!(effect.check(), Err(RoutingCheckError::RouteStateMissing));
}

#[test]
fn unconfigured_router_reflects_and_ignores_clicks() {
    let info = RoutingInfo::default();
    assert!(!info.configured);
    assert!(configured_default());
    let mut router = BuiltRouter::build(&info);
    let before = router.state();
    assert_eq!(router.route((5, Direction::Forward)), RoutingType::BounceBack);
    router.clicked();
    assert_eq!(router.state(), before);
}

#[test]
fn zero_weight_outcomes_are_never_drawn() {
    let info = info_with(
        vec![(
            0,
            state(
                AfterEffects::Nothing,
                vec![(
                    1,
                    (
                        CompoundRoutingType::Weighted(vec![
                            (0, RoutingType::Derail),
                            (3, RoutingType::BounceBack),
                        ]),
                        AfterEffects::Nothing,
                    ),
                )],
            ),
        )],
        0,
    );
    assert_eq!(info.check(), Ok(()));
    let mut router = BuiltRouter::build(&info);
    for _ in 0..32 {
        assert_eq!(router.route((1, Direction::Forward)), RoutingType::BounceBack);
    }
}

#[test]
fn missing_table_entry_falls_back_to_derail() {
    let info = info_with(vec![(0, state(AfterEffects::Nothing, vec![]))], 0);
    assert_eq!(info.check(), Ok(()));
    let mut router = BuiltRouter::build(&info);
    assert_eq!(router.route((9, Direction::Forward)), RoutingType::Derail);
}

#[test]
fn after_effects_switch_the_state() {
    let s0 = state(
        AfterEffects::SwitchState(1),
        vec![(
            2,
            (
                CompoundRoutingType::Simple(RoutingType::BounceBack),
                AfterEffects::SwitchState(1),
            ),
        )],
    );
    let s1 = state(AfterEffects::Nothing, vec![]);
    let info = info_with(vec![(0, s0), (1, s1)], 0);
    assert_eq!(info.check(), Ok(()));
    let mut router = BuiltRouter::build(&info);
    assert_eq!(router.state(), 0);
    assert_eq!(router.route((2, Direction::Forward)), RoutingType::BounceBack);
    assert_eq!(router.state(), 1);
}

#[test]
fn outcomes_and_incoming_list_the_tables() {
    let info = info_with(
        vec![(
            0,
            state(
                AfterEffects::Nothing,
                vec![(
                    4,
                    (
                        CompoundRoutingType::Simple(RoutingType::Track(6, Direction::Forward)),
                        AfterEffects::Nothing,
                    ),
                )],
            ),
        )],
        0,
    );
    let outs = info.outcomes();
    assert_eq!(outs, vec![RoutingType::Track(6, Direction::Forward)]);
    let inc = info.incoming();
    assert_eq!(inc, vec![(4, Direction::Forward)]);
}

#[test]
fn installation_rejects_unknown_target_tracks() {
    let mut e = Engine::new();
    let a = e.add_node(Coord(0, 0), NodeType::Configurable).0.unwrap();
    let b = e.add_node(Coord(100, 0), NodeType::Reverse).0.unwrap();
    let t = e.add_track(a, b, "#123".to_string(), 20, BezierDiff::ToBezier2).0.unwrap();
    let bad = info_with(
        vec![(
            0,
            state(
                AfterEffects::Nothing,
                vec![(
                    t,
                    (
                        CompoundRoutingType::Simple(RoutingType::Track(77, Direction::Forward)),
                        AfterEffects::Nothing,
                    ),
                )],
            ),
        )],
        0,
    );
    assert_eq!(
        e.set_node_routing(a, bad),
        Err(SetRoutingError::UnknownTargetTrack(77))
    );
    let good = info_with(
        vec![(
            0,
            state(
                AfterEffects::Nothing,
                vec![(
                    t,
                    (
                        CompoundRoutingType::Simple(RoutingType::Track(t, Direction::Forward)),
                        AfterEffects::Nothing,
                    ),
                )],
            ),
        )],
        0,
    );
    assert_eq!(e.set_node_routing(a, good), Ok(()));
    assert!(e.get_node_routing(a).unwrap().configured);
    assert_eq!(e.get_node_type(a), Some(NodeType::Configurable));
    let names = e.list_nodes();
    assert_eq!(names, vec![(a, Coord(0, 0)), (b, Coord(100, 0))]);
}
