//! Routing configuration for configurable nodes: a weighted finite-state
//! machine, stored as plain data so that it round-trips through persistence.
//!
//! A [`RoutingInfo`] holds a default state and a map of states; each state
//! carries a click-triggered after-effect and, per incoming track and
//! direction, a weighted distribution of routing outcomes together with a
//! weighted after-effect.  [`RoutingInfo::check`] validates the structure;
//! an info that fails validation must never be installed.

use vstd::prelude::*;
use crate::base::{Direction, TrackID};
use crate::idmap::IdMap;
use crate::rng::weight_sum;

verus! {

pub type RoutingStateID = u32;

/// A sampling weight.  Weights are whole numbers; a distribution is valid
/// when it is non-empty and its weights sum to a positive total.
pub type Weight = u64;

/// What a node tells an arriving train to do: vanish, reverse in place, or
/// continue onto a target track entering in a given direction.
#[derive(Debug, Clone, Copy, PartialEq, Eq, Structural)]
pub enum RoutingType {
    Derail,
    BounceBack,
    Track(TrackID, Direction),
}

/// A routing outcome: either fixed, or drawn from a weighted distribution.
#[derive(Debug, Clone, PartialEq)]
pub enum CompoundRoutingType {
    Simple(RoutingType),
    Weighted(Vec<(Weight, RoutingType)>),
}

/// A state transition triggered after routing or after a click: none, a
/// fixed switch, or a weighted draw over optional switches.
#[derive(Debug, Clone, PartialEq)]
pub enum AfterEffects {
    Nothing,
    SwitchState(RoutingStateID),
    Weighted(Vec<(Weight, Option<RoutingStateID>)>),
}

/// One state of the machine: its click-triggered after-effect and its
/// routing tables for trains entering forwards and backwards, keyed by the
/// incoming track.
#[derive(Debug)]
pub struct RoutingState {
    pub after_click: AfterEffects,
    pub forward_routings: IdMap<(CompoundRoutingType, AfterEffects)>,
    pub backward_routings: IdMap<(CompoundRoutingType, AfterEffects)>,
}

/// The full routing configuration of a configurable node.
#[derive(Debug)]
pub struct RoutingInfo {
    pub configured: bool,
    pub default_state: RoutingStateID,
    pub states: IdMap<RoutingState>,
}

/// The `configured` flag a stored document gets when it does not carry one.
pub fn configured_default() -> (r: bool)
    ensures
        r == true,
{
    true
}

/// The weights of a weighted-entry list.
pub open spec fn pair_weights<X>(s: Seq<(Weight, X)>) -> Seq<u64> {
    s.map_values(|p: (Weight, X)| p.0)
}

/// A weighted distribution is usable when it is non-empty and its total is
/// positive and fits the 64-bit sampler total.
pub open spec fn valid_weight_seq(ws: Seq<u64>) -> bool {
    ws.len() > 0 && 0 < weight_sum(ws) <= u64::MAX
}

pub proof fn lemma_weight_sum_push(s: Seq<u64>, w: u64)
    ensures
        weight_sum(s.push(w)) == weight_sum(s) + w,
{
    assert(s.push(w).drop_last() =~= s);
}

/// Why a [`RoutingInfo`] was rejected.
#[derive(Debug, Clone, Copy, PartialEq, Eq, Structural)]
pub enum RoutingCheckError {
    /// The default state is not defined among the states.
    DefaultStateMissing,
    /// A state switched to after clicking is not defined among the states.
    ClickStateMissing,
    /// The distribution of effects after clicking is an empty list.
    ClickWeightsEmpty,
    /// The weights of the effects after clicking add up to zero.
    ClickWeightsZero,
    /// The distribution of a routing option is an empty list.
    RouteWeightsEmpty,
    /// The weights of a routing option add up to zero.
    RouteWeightsZero,
    /// A state switched to after using a route is not defined among the states.
    RouteStateMissing,
    /// The distribution of effects after using a route is an empty list.
    EffectWeightsEmpty,
    /// The weights of the effects after using a route add up to zero.
    EffectWeightsZero,
    /// A weight total is beyond what the 64-bit sampler can hold.
    WeightOverflow,
}

impl RoutingCheckError {
    /// The human-readable reason reported to a control client.
    pub fn message(&self) -> &'static str {
        match self {
            RoutingCheckError::DefaultStateMissing => "Default state isn't defined in states",
            RoutingCheckError::ClickStateMissing => "State after clicking isn't defined in states",
            RoutingCheckError::ClickWeightsEmpty => "Possibilities after clicking is a empty list",
            RoutingCheckError::ClickWeightsZero => "Total weights adds up to zero after clicking",
            RoutingCheckError::RouteWeightsEmpty => "Possibilities of a routing option is a empty list",
            RoutingCheckError::RouteWeightsZero => "Total weights for a routing option adds up to zero",
            RoutingCheckError::RouteStateMissing => "State after using route isn't defined in states",
            RoutingCheckError::EffectWeightsEmpty => "Possibilities after using route is a empty list",
            RoutingCheckError::EffectWeightsZero => "Total weights adds up to zero after using route",
            RoutingCheckError::WeightOverflow => "Total weights overflow the sampler",
        }
    }
}

/// Some after-effect of `ae` switches to a state that `states` lacks.
pub open spec fn ae_state_missing(ae: AfterEffects, states: IdMap<RoutingState>) -> bool {
    match ae {
        AfterEffects::Nothing => false,
        AfterEffects::SwitchState(s) => !states.spec_contains(s),
        AfterEffects::Weighted(v) => exists|i: int|
            0 <= i < v@.len() && ((#[trigger] v@[i]).1 matches Some(s)
                && !states.spec_contains(s)),
    }
}

/// The distribution of `ae` is an empty list.
pub open spec fn ae_weights_empty(ae: AfterEffects) -> bool {
    ae matches AfterEffects::Weighted(v) && v@.len() == 0
}

/// The distribution of `ae` is non-empty and its weights add up to zero.
pub open spec fn ae_weights_zero(ae: AfterEffects) -> bool {
    ae matches AfterEffects::Weighted(v) && v@.len() > 0 && weight_sum(pair_weights(v@)) == 0
}

/// The weights of `ae` add up beyond the 64-bit sampler total.
pub open spec fn ae_weights_overflow(ae: AfterEffects) -> bool {
    ae matches AfterEffects::Weighted(v) && weight_sum(pair_weights(v@)) > u64::MAX
}

/// The distribution of `c` is an empty list.
pub open spec fn crt_weights_empty(c: CompoundRoutingType) -> bool {
    c matches CompoundRoutingType::Weighted(v) && v@.len() == 0
}

/// The distribution of `c` is non-empty and its weights add up to zero.
pub open spec fn crt_weights_zero(c: CompoundRoutingType) -> bool {
    c matches CompoundRoutingType::Weighted(v) && v@.len() > 0 && weight_sum(pair_weights(v@))
        == 0
}

/// The weights of `c` add up beyond the 64-bit sampler total.
pub open spec fn crt_weights_overflow(c: CompoundRoutingType) -> bool {
    c matches CompoundRoutingType::Weighted(v) && weight_sum(pair_weights(v@)) > u64::MAX
}

/// Whether the rejection reason `e` in fact holds of one routing entry:
/// of its outcome distribution or of its after-effect.
pub open spec fn pair_reason_holds(
    p: (CompoundRoutingType, AfterEffects),
    states: IdMap<RoutingState>,
    e: RoutingCheckError,
) -> bool {
    match e {
        RoutingCheckError::RouteWeightsEmpty => crt_weights_empty(p.0),
        RoutingCheckError::RouteWeightsZero => crt_weights_zero(p.0),
        RoutingCheckError::RouteStateMissing => ae_state_missing(p.1, states),
        RoutingCheckError::EffectWeightsEmpty => ae_weights_empty(p.1),
        RoutingCheckError::EffectWeightsZero => ae_weights_zero(p.1),
        RoutingCheckError::WeightOverflow => crt_weights_overflow(p.0) || ae_weights_overflow(
            p.1,
        ),
        _ => false,
    }
}

/// Whether the rejection reason `e` in fact holds of some entry of the
/// routing table `m`.
pub open spec fn entry_reason_holds(
    m: IdMap<(CompoundRoutingType, AfterEffects)>,
    states: IdMap<RoutingState>,
    e: RoutingCheckError,
) -> bool {
    exists|j: int| 0 <= j < m@.len() && pair_reason_holds((#[trigger] m@[j]).1, states, e)
}

/// Outcome of summing one weighted-entry list.
enum WeightStatus {
    Good,
    Empty,
    Zero,
    Overflow,
}

/// Classifies a weighted-entry list: empty, all-zero, overflowing, or good.
fn check_weights<X>(v: &Vec<(Weight, X)>) -> (r: WeightStatus)
    ensures
        r is Good <==> valid_weight_seq(pair_weights(v@)),
        r is Empty <==> v@.len() == 0,
        r is Zero <==> (v@.len() > 0 && weight_sum(pair_weights(v@)) == 0),
        r is Overflow <==> (v@.len() > 0 && weight_sum(pair_weights(v@)) > u64::MAX),
{
    if v.len() == 0 {
        proof {
            assert(pair_weights(v@) =~= Seq::<u64>::empty());
        }
        return WeightStatus::Empty;
    }
    let ghost ws = pair_weights(v@);
    let n = v.len();
    let mut acc: u64 = 0;
    let mut ovf: bool = false;
    let mut i: usize = 0;
    while i < n
        invariant
            i <= n,
            n == v@.len(),
            ws == pair_weights(v@),
            ws.len() == n,
            forall|j: int| 0 <= j < n ==> ws[j] == v@[j].0,
            !ovf ==> acc == weight_sum(ws.subrange(0, i as int)),
            ovf ==> weight_sum(ws.subrange(0, i as int)) > u64::MAX,
        decreases n - i,
    {
        let w = v[i].0;
        proof {
            assert(ws.subrange(0, i + 1) =~= ws.subrange(0, i as int).push(ws[i as int]));
            lemma_weight_sum_push(ws.subrange(0, i as int), ws[i as int]);
        }
        if ovf {
        } else if u64::MAX - acc < w {
            ovf = true;
        } else {
            acc = acc + w;
        }
        i = i + 1;
    }
    proof {
        assert(ws.subrange(0, n as int) =~= ws);
    }
    if ovf {
        WeightStatus::Overflow
    } else if acc == 0 {
        WeightStatus::Zero
    } else {
        WeightStatus::Good
    }
}

impl CompoundRoutingType {
    /// Well-formed as a distribution, regardless of which states exist.
    pub open spec fn valid(self) -> bool {
        match self {
            CompoundRoutingType::Simple(_) => true,
            CompoundRoutingType::Weighted(v) => valid_weight_seq(pair_weights(v@)),
        }
    }

    /// Whether this outcome distribution lists `rt` among its
    /// alternatives, whatever its weight.
    pub open spec fn spec_has_outcome(self, rt: RoutingType) -> bool {
        match self {
            CompoundRoutingType::Simple(x) => x == rt,
            CompoundRoutingType::Weighted(v) => exists|k: int|
                0 <= k < v@.len() && (#[trigger] v@[k]).1 == rt,
        }
    }

    fn check_route(&self) -> (r: Result<(), RoutingCheckError>)
        ensures
            r is Ok <==> self.valid(),
            r == Err::<(), RoutingCheckError>(RoutingCheckError::RouteWeightsEmpty)
                <==> crt_weights_empty(*self),
            r == Err::<(), RoutingCheckError>(RoutingCheckError::RouteWeightsZero)
                <==> crt_weights_zero(*self),
            r == Err::<(), RoutingCheckError>(RoutingCheckError::WeightOverflow)
                <==> crt_weights_overflow(*self),
            r matches Err(e) ==> (e == RoutingCheckError::RouteWeightsEmpty || e
                == RoutingCheckError::RouteWeightsZero || e
                == RoutingCheckError::WeightOverflow),
    {
        match self {
            CompoundRoutingType::Simple(_) => Ok(()),
            CompoundRoutingType::Weighted(v) => match check_weights(v) {
                WeightStatus::Good => Ok(()),
                WeightStatus::Empty => Err(RoutingCheckError::RouteWeightsEmpty),
                WeightStatus::Zero => Err(RoutingCheckError::RouteWeightsZero),
                WeightStatus::Overflow => Err(RoutingCheckError::WeightOverflow),
            },
        }
    }
}

impl AfterEffects {
    /// Well-formed as a distribution and every target state exists.
    pub open spec fn valid(self, states: IdMap<RoutingState>) -> bool {
        match self {
            AfterEffects::Nothing => true,
            AfterEffects::SwitchState(s) => states.spec_contains(s),
            AfterEffects::Weighted(v) => valid_weight_seq(pair_weights(v@)) && forall|i: int|
                0 <= i < v@.len() ==> ((#[trigger] v@[i]).1 matches Some(s)
                    ==> states.spec_contains(s)),
        }
    }

    /// Validates this after-effect; `click` picks the family of reasons
    /// reported for a click-triggered effect.
    fn check(&self, states: &IdMap<RoutingState>, click: bool) -> (r: Result<
        (),
        RoutingCheckError,
    >)
        requires
            states.wf(),
        ensures
            r is Ok <==> self.valid(*states),
            r == Err::<(), RoutingCheckError>(RoutingCheckError::ClickStateMissing) ==> (click
                && ae_state_missing(*self, *states)),
            r == Err::<(), RoutingCheckError>(RoutingCheckError::RouteStateMissing) ==> (!click
                && ae_state_missing(*self, *states)),
            r == Err::<(), RoutingCheckError>(RoutingCheckError::ClickWeightsEmpty) ==> (click
                && ae_weights_empty(*self)),
            r == Err::<(), RoutingCheckError>(RoutingCheckError::EffectWeightsEmpty) ==> (!click
                && ae_weights_empty(*self)),
            r == Err::<(), RoutingCheckError>(RoutingCheckError::ClickWeightsZero) ==> (click
                && ae_weights_zero(*self)),
            r == Err::<(), RoutingCheckError>(RoutingCheckError::EffectWeightsZero) ==> (!click
                && ae_weights_zero(*self)),
            r == Err::<(), RoutingCheckError>(RoutingCheckError::WeightOverflow)
                ==> ae_weights_overflow(*self),
            r matches Err(e) ==> (e != RoutingCheckError::DefaultStateMissing && e
                != RoutingCheckError::RouteWeightsEmpty && e
                != RoutingCheckError::RouteWeightsZero),
    {
        match self {
            AfterEffects::Nothing => Ok(()),
            AfterEffects::SwitchState(s) => {
                if states.contains_key(*s) {
                    Ok(())
                } else {
                    Err(
                        if click {
                            RoutingCheckError::ClickStateMissing
                        } else {
                            RoutingCheckError::RouteStateMissing
                        },
                    )
                }
            },
            AfterEffects::Weighted(v) => {
                match check_weights(v) {
                    WeightStatus::Good => {},
                    WeightStatus::Empty => {
                        return Err(
                            if click {
                                RoutingCheckError::ClickWeightsEmpty
                            } else {
                                RoutingCheckError::EffectWeightsEmpty
                            },
                        );
                    },
                    WeightStatus::Zero => {
                        return Err(
                            if click {
                                RoutingCheckError::ClickWeightsZero
                            } else {
                                RoutingCheckError::EffectWeightsZero
                            },
                        );
                    },
                    WeightStatus::Overflow => {
                        return Err(RoutingCheckError::WeightOverflow);
                    },
                }
                let n = v.len();
                let mut i: usize = 0;
                while i < n
                    invariant
                        i <= n,
                        n == v@.len(),
                        states.wf(),
                        *self == AfterEffects::Weighted(*v),
                        valid_weight_seq(pair_weights(v@)),
                        forall|j: int| 0 <= j < i ==> ((#[trigger] v@[j]).1 matches Some(s)
                            ==> states.spec_contains(s)),
                    decreases n - i,
                {
                    match v[i].1 {
                        Some(s) => {
                            if !states.contains_key(s) {
                                assert(v@[i as int].1 == Some(s));
                                return Err(
                                    if click {
                                        RoutingCheckError::ClickStateMissing
                                    } else {
                                        RoutingCheckError::RouteStateMissing
                                    },
                                );
                            }
                        },
                        None => {},
                    }
                    i = i + 1;
                }
                Ok(())
            },
        }
    }
}

/// Membership of `x` in a pushed sequence.
pub proof fn lemma_push_contains<T>(s: Seq<T>, x: T)
    ensures
        forall|y: T| #[trigger] s.push(x).contains(y) <==> (s.contains(y) || y == x),
{
    assert forall|y: T| #[trigger] s.push(x).contains(y) implies (s.contains(y) || y == x) by {
        let i = choose|i: int| 0 <= i < s.push(x).len() && s.push(x)[i] == y;
        if i < s.len() {
            assert(s[i] == y);
        }
    }
    assert forall|y: T| (s.contains(y) || y == x) implies #[trigger] s.push(x).contains(y) by {
        if s.contains(y) {
            let i = choose|i: int| 0 <= i < s.len() && s[i] == y;
            assert(s.push(x)[i] == y);
        } else {
            assert(s.push(x)[s.len() as int] == y);
        }
    }
}

/// Pushing a fresh element keeps a sequence free of duplicates.
pub proof fn lemma_push_no_duplicates<T>(s: Seq<T>, x: T)
    requires
        s.no_duplicates(),
        !s.contains(x),
    ensures
        s.push(x).no_duplicates(),
{
    assert forall|i: int, j: int|
        0 <= i < s.push(x).len() && 0 <= j < s.push(x).len() && i != j implies s.push(x)[i]
        != s.push(x)[j] by {
        if i < s.len() && j < s.len() {
        } else if i < s.len() {
            assert(s[i] == s.push(x)[i]);
            if s.push(x)[i] == x {
                assert(s.contains(x));
            }
        } else if j < s.len() {
            assert(s[j] == s.push(x)[j]);
            if s.push(x)[j] == x {
                assert(s.contains(x));
            }
        }
    }
}

/// The distribution of an after-effect, taken alone, is usable.
pub open spec fn ae_dist_valid(ae: AfterEffects) -> bool {
    ae matches AfterEffects::Weighted(v) ==> valid_weight_seq(pair_weights(v@))
}

impl RoutingState {
    pub open spec fn wf(self) -> bool {
        self.forward_routings.wf() && self.backward_routings.wf()
    }

    /// Every distribution of this state, taken alone, is usable; implied by
    /// [`RoutingState::valid`].
    pub open spec fn dists_valid(self) -> bool {
        &&& ae_dist_valid(self.after_click)
        &&& forall|j: int| 0 <= j < self.forward_routings@.len() ==> {
            &&& (#[trigger] self.forward_routings@[j]).1.0.valid()
            &&& ae_dist_valid(self.forward_routings@[j].1.1)
        }
        &&& forall|j: int| 0 <= j < self.backward_routings@.len() ==> {
            &&& (#[trigger] self.backward_routings@[j]).1.0.valid()
            &&& ae_dist_valid(self.backward_routings@[j].1.1)
        }
    }

    pub proof fn lemma_valid_dists(self, states: IdMap<RoutingState>)
        requires
            self.valid(states),
        ensures
            self.dists_valid(),
    {
        assert forall|j: int| 0 <= j < self.forward_routings@.len() implies {
            &&& (#[trigger] self.forward_routings@[j]).1.0.valid()
            &&& ae_dist_valid(self.forward_routings@[j].1.1)
        } by {
            assert(self.forward_routings@[j].1.1.valid(states));
        }
        assert forall|j: int| 0 <= j < self.backward_routings@.len() implies {
            &&& (#[trigger] self.backward_routings@[j]).1.0.valid()
            &&& ae_dist_valid(self.backward_routings@[j].1.1)
        } by {
            assert(self.backward_routings@[j].1.1.valid(states));
        }
    }

    /// The routing table consulted for a train entering in `dir`.
    pub open spec fn spec_table(self, dir: Direction) -> IdMap<
        (CompoundRoutingType, AfterEffects),
    > {
        match dir {
            Direction::Forward => self.forward_routings,
            Direction::Backward => self.backward_routings,
        }
    }

    /// Whether this state has a routing entry for `track` entered in `dir`.
    pub open spec fn spec_has_incoming(self, track: TrackID, dir: Direction) -> bool {
        self.spec_table(dir).spec_contains(track)
    }

    /// Whether the rejection reason `e` in fact holds of this state: of its
    /// click-triggered after-effect or of some routing entry.
    pub open spec fn reason_holds(self, states: IdMap<RoutingState>, e: RoutingCheckError) -> bool {
        match e {
            RoutingCheckError::DefaultStateMissing => false,
            RoutingCheckError::ClickStateMissing => ae_state_missing(self.after_click, states),
            RoutingCheckError::ClickWeightsEmpty => ae_weights_empty(self.after_click),
            RoutingCheckError::ClickWeightsZero => ae_weights_zero(self.after_click),
            RoutingCheckError::WeightOverflow => ae_weights_overflow(self.after_click)
                || entry_reason_holds(self.forward_routings, states, e) || entry_reason_holds(
                self.backward_routings,
                states,
                e,
            ),
            _ => entry_reason_holds(self.forward_routings, states, e) || entry_reason_holds(
                self.backward_routings,
                states,
                e,
            ),
        }
    }

    /// Whether any entry of this state can produce the outcome `rt`.
    pub open spec fn spec_has_outcome(self, rt: RoutingType) -> bool {
        (exists|j: int| 0 <= j < self.forward_routings@.len()
            && (#[trigger] self.forward_routings@[j]).1.0.spec_has_outcome(rt)) || (exists|j: int|
            0 <= j < self.backward_routings@.len()
                && (#[trigger] self.backward_routings@[j]).1.0.spec_has_outcome(rt))
    }

    /// Validates every distribution and after-effect of this state.
    fn check(&self, states: &IdMap<RoutingState>) -> (r: Result<(), RoutingCheckError>)
        requires
            self.wf(),
            states.wf(),
        ensures
            r is Ok <==> self.valid(*states),
            r matches Err(e) ==> self.reason_holds(*states, e),
    {
        if let Err(e) = self.after_click.check(states, true) {
            return Err(e);
        }
        let n = self.forward_routings.len();
        let mut i: usize = 0;
        while i < n
            invariant
                i <= n,
                n == self.forward_routings@.len(),
                self.wf(),
                states.wf(),
                forall|j: int| 0 <= j < i ==> {
                    &&& (#[trigger] self.forward_routings@[j]).1.0.valid()
                    &&& self.forward_routings@[j].1.1.valid(*states)
                },
            decreases n - i,
        {
            let entry = self.forward_routings.value_at(i);
            if let Err(e) = entry.0.check_route() {
                proof {
                    assert(pair_reason_holds(self.forward_routings@[i as int].1, *states, e));
                }
                return Err(e);
            }
            if let Err(e) = entry.1.check(states, false) {
                proof {
                    assert(pair_reason_holds(self.forward_routings@[i as int].1, *states, e));
                }
                return Err(e);
            }
            i = i + 1;
        }
        let n = self.backward_routings.len();
        let mut i: usize = 0;
        while i < n
            invariant
                i <= n,
                n == self.backward_routings@.len(),
                self.wf(),
                states.wf(),
                forall|j: int| 0 <= j < self.forward_routings@.len() ==> {
                    &&& (#[trigger] self.forward_routings@[j]).1.0.valid()
                    &&& self.forward_routings@[j].1.1.valid(*states)
                },
                forall|j: int| 0 <= j < i ==> {
                    &&& (#[trigger] self.backward_routings@[j]).1.0.valid()
                    &&& self.backward_routings@[j].1.1.valid(*states)
                },
            decreases n - i,
        {
            let entry = self.backward_routings.value_at(i);
            if let Err(e) = entry.0.check_route() {
                proof {
                    assert(pair_reason_holds(self.backward_routings@[i as int].1, *states, e));
                }
                return Err(e);
            }
            if let Err(e) = entry.1.check(states, false) {
                proof {
                    assert(pair_reason_holds(self.backward_routings@[i as int].1, *states, e));
                }
                return Err(e);
            }
            i = i + 1;
        }
        Ok(())
    }

    /// Every distribution of the state is valid and every after-effect
    /// target exists among `states`.
    pub open spec fn valid(self, states: IdMap<RoutingState>) -> bool {
        &&& self.after_click.valid(states)
        &&& forall|i: int| 0 <= i < self.forward_routings@.len() ==> {
            &&& (#[trigger] self.forward_routings@[i]).1.0.valid()
            &&& self.forward_routings@[i].1.1.valid(states)
        }
        &&& forall|i: int| 0 <= i < self.backward_routings@.len() ==> {
            &&& (#[trigger] self.backward_routings@[i]).1.0.valid()
            &&& self.backward_routings@[i].1.1.valid(states)
        }
    }
}

impl RoutingInfo {
    pub open spec fn wf(self) -> bool {
        self.states.wf() && forall|i: int| 0 <= i < self.states@.len()
            ==> (#[trigger] self.states@[i]).1.wf()
    }

    /// The structural validity that [`RoutingInfo::check`] decides: the
    /// default state exists, every after-effect and after-click target
    /// exists, and every weighted distribution is non-empty with a positive
    /// total that fits the sampler.
    pub open spec fn spec_valid(self) -> bool {
        &&& self.states.spec_contains(self.default_state)
        &&& forall|i: int| 0 <= i < self.states@.len()
            ==> (#[trigger] self.states@[i]).1.valid(self.states)
    }

    /// Whether the rejection reason `e` in fact holds of this info, so that
    /// a rejection names a rule the configuration really violates.
    pub open spec fn reason_holds(self, e: RoutingCheckError) -> bool {
        match e {
            RoutingCheckError::DefaultStateMissing => !self.states.spec_contains(
                self.default_state,
            ),
            _ => exists|i: int| 0 <= i < self.states@.len()
                && (#[trigger] self.states@[i]).1.reason_holds(self.states, e),
        }
    }

    /// Whether this info and all its maps are well-formed, decidable at run
    /// time for a value that crossed the unverified boundary.
    pub fn wf_check(&self) -> (r: bool)
        ensures
            r == self.wf(),
    {
        if !self.states.is_sorted() {
            return false;
        }
        let n = self.states.len();
        let mut i: usize = 0;
        while i < n
            invariant
                i <= n,
                n == self.states@.len(),
                self.states.wf(),
                forall|j: int| 0 <= j < i ==> (#[trigger] self.states@[j]).1.wf(),
            decreases n - i,
        {
            let state = self.states.value_at(i);
            if !state.forward_routings.is_sorted() || !state.backward_routings.is_sorted() {
                return false;
            }
            i = i + 1;
        }
        true
    }

    /// Accepts exactly the structurally valid configurations
    /// ([`RoutingInfo::spec_valid`]); a rejection carries a reason that in
    /// fact holds of the configuration ([`RoutingInfo::reason_holds`]), and
    /// a missing default state is reported as exactly that.
    pub fn check(&self) -> (r: Result<(), RoutingCheckError>)
        requires
            self.wf(),
        ensures
            r is Ok <==> self.spec_valid(),
            r matches Err(e) ==> self.reason_holds(e),
            r == Err::<(), RoutingCheckError>(RoutingCheckError::DefaultStateMissing)
                <==> !self.states.spec_contains(self.default_state),
    {
        if !self.states.contains_key(self.default_state) {
            return Err(RoutingCheckError::DefaultStateMissing);
        }
        let n = self.states.len();
        let mut i: usize = 0;
        while i < n
            invariant
                i <= n,
                n == self.states@.len(),
                self.wf(),
                self.states.spec_contains(self.default_state),
                forall|j: int| 0 <= j < i ==> (#[trigger] self.states@[j]).1.valid(self.states),
            decreases n - i,
        {
            let state = self.states.value_at(i);
            if let Err(e) = state.check(&self.states) {
                proof {
                    assert(self.states@[i as int].1.reason_holds(self.states, e));
                }
                return Err(e);
            }
            i = i + 1;
        }
        Ok(())
    }

    /// Whether some state of this info has a routing entry for `track`
    /// entered in `dir`.
    pub open spec fn spec_has_incoming(self, track: TrackID, dir: Direction) -> bool {
        exists|i: int| 0 <= i < self.states@.len()
            && (#[trigger] self.states@[i]).1.spec_has_incoming(track, dir)
    }

    /// Whether some distribution of this info lists the outcome `rt`.
    pub open spec fn spec_has_outcome(self, rt: RoutingType) -> bool {
        exists|i: int| 0 <= i < self.states@.len()
            && (#[trigger] self.states@[i]).1.spec_has_outcome(rt)
    }

    /// All (track, direction) pairs some state has a routing entry for.
    pub fn incoming(&self) -> (r: Vec<(TrackID, Direction)>)
        requires
            self.wf(),
        ensures
            forall|t: TrackID, d: Direction| r@.contains((t, d)) <==> self.spec_has_incoming(
                t,
                d,
            ),
            r@.no_duplicates(),
    {
        let mut out: Vec<(TrackID, Direction)> = Vec::new();
        let n = self.states.len();
        let mut i: usize = 0;
        while i < n
            invariant
                i <= n,
                n == self.states@.len(),
                self.wf(),
                out@.no_duplicates(),
                forall|t: TrackID, d: Direction| out@.contains((t, d)) <==> exists|j: int|
                    0 <= j < i && (#[trigger] self.states@[j]).1.spec_has_incoming(t, d),
            decreases n - i,
        {
            let state = self.states.value_at(i);
            push_keys(&state.forward_routings, Direction::Forward, &mut out);
            push_keys(&state.backward_routings, Direction::Backward, &mut out);
            proof {
                assert forall|t: TrackID, d: Direction| out@.contains((t, d)) implies exists|
                    j: int,
                |
                    0 <= j < i + 1 && (#[trigger] self.states@[j]).1.spec_has_incoming(t, d) by {
                    if !(exists|j: int| 0 <= j < i
                        && (#[trigger] self.states@[j]).1.spec_has_incoming(t, d)) {
                        assert(self.states@[i as int].1.spec_has_incoming(t, d));
                    }
                }
            }
            i = i + 1;
        }
        out
    }

    /// All routing outcomes some distribution of this info lists.
    pub fn outcomes(&self) -> (r: Vec<RoutingType>)
        requires
            self.wf(),
        ensures
            forall|rt: RoutingType| r@.contains(rt) <==> self.spec_has_outcome(rt),
            r@.no_duplicates(),
    {
        let mut out: Vec<RoutingType> = Vec::new();
        let n = self.states.len();
        let mut i: usize = 0;
        while i < n
            invariant
                i <= n,
                n == self.states@.len(),
                self.wf(),
                out@.no_duplicates(),
                forall|rt: RoutingType| out@.contains(rt) <==> exists|j: int|
                    0 <= j < i && (#[trigger] self.states@[j]).1.spec_has_outcome(rt),
            decreases n - i,
        {
            let state = self.states.value_at(i);
            push_outcomes(&state.forward_routings, &mut out);
            push_outcomes(&state.backward_routings, &mut out);
            proof {
                assert forall|rt: RoutingType| out@.contains(rt) implies exists|j: int|
                    0 <= j < i + 1 && (#[trigger] self.states@[j]).1.spec_has_outcome(rt) by {
                    if !(exists|j: int| 0 <= j < i
                        && (#[trigger] self.states@[j]).1.spec_has_outcome(rt)) {
                        assert(self.states@[i as int].1.spec_has_outcome(rt));
                    }
                }
            }
            i = i + 1;
        }
        out
    }
}

impl Default for RoutingInfo {
    /// The configuration a configurable node is created with: unconfigured,
    /// with no states; its router reflects every train back.
    fn default() -> (r: Self)
        ensures
            r.configured == false,
            r.default_state == 0u32,
            r.states@.len() == 0,
            r.wf(),
    {
        RoutingInfo { configured: false, default_state: 0, states: IdMap::new() }
    }
}

/// Whether `out` lists the pair `(t, d)`.
fn contains_pair(out: &Vec<(TrackID, Direction)>, t: TrackID, d: Direction) -> (r: bool)
    ensures
        r == out@.contains((t, d)),
{
    let n = out.len();
    let mut i: usize = 0;
    while i < n
        invariant
            i <= n,
            n == out@.len(),
            forall|j: int| 0 <= j < i ==> out@[j] != (t, d),
        decreases n - i,
    {
        if out[i].0 == t && out[i].1 == d {
            assert(out@[i as int] == (t, d));
            return true;
        }
        i = i + 1;
    }
    false
}

/// Adds to `out` each key of `m` paired with `d`, skipping pairs already
/// present.
fn push_keys(
    m: &IdMap<(CompoundRoutingType, AfterEffects)>,
    d: Direction,
    out: &mut Vec<(TrackID, Direction)>,
)
    requires
        m.wf(),
        old(out)@.no_duplicates(),
    ensures
        final(out)@.no_duplicates(),
        forall|t: TrackID, d2: Direction| final(out)@.contains((t, d2))
            <==> (old(out)@.contains((t, d2)) || (d2 == d && m.spec_contains(t))),
{
    let n = m.len();
    let mut i: usize = 0;
    while i < n
        invariant
            i <= n,
            n == m@.len(),
            m.wf(),
            out@.no_duplicates(),
            forall|t: TrackID, d2: Direction| out@.contains((t, d2)) <==> (old(out)@.contains(
                (t, d2),
            ) || (d2 == d && exists|j: int| 0 <= j < i && (#[trigger] m@[j]).0 == t)),
        decreases n - i,
    {
        let t = m.key_at(i);
        if !contains_pair(out, t, d) {
            proof {
                lemma_push_contains(out@, (t, d));
                lemma_push_no_duplicates(out@, (t, d));
            }
            out.push((t, d));
        }
        proof {
            assert forall|t2: TrackID, d2: Direction| out@.contains((t2, d2)) implies (old(
                out,
            )@.contains((t2, d2)) || (d2 == d && exists|j: int| 0 <= j < i + 1
                && (#[trigger] m@[j]).0 == t2)) by {
                if !(old(out)@.contains((t2, d2)) || (d2 == d && exists|j: int| 0 <= j < i
                    && (#[trigger] m@[j]).0 == t2)) {
                    assert((t2, d2) == (t, d));
                    assert(m@[i as int].0 == t2);
                }
            }
            assert forall|t2: TrackID, d2: Direction|
                (d2 == d && exists|j: int| 0 <= j < i + 1 && (#[trigger] m@[j]).0
                    == t2) implies out@.contains((t2, d2)) by {
                let j = choose|j: int| 0 <= j < i + 1 && (#[trigger] m@[j]).0 == t2;
                if j < i {
                } else {
                    assert(t2 == t);
                }
            }
        }
        i = i + 1;
    }
    proof {
        assert forall|t: TrackID| m.spec_contains(t) implies exists|j: int|
            0 <= j < n && (#[trigger] m@[j]).0 == t by {
            let j = choose|j: int| 0 <= j < m@.len() && m@[j].0 == t;
            assert(m@[j].0 == t);
        }
    }
}

/// Whether `out` lists the outcome `rt`.
fn contains_outcome(out: &Vec<RoutingType>, rt: RoutingType) -> (r: bool)
    ensures
        r == out@.contains(rt),
{
    let n = out.len();
    let mut i: usize = 0;
    while i < n
        invariant
            i <= n,
            n == out@.len(),
            forall|j: int| 0 <= j < i ==> out@[j] != rt,
        decreases n - i,
    {
        if out[i] == rt {
            return true;
        }
        i = i + 1;
    }
    false
}

/// Adds to `out` each outcome listed by an entry of `m`, skipping outcomes
/// already present.
fn push_outcomes(m: &IdMap<(CompoundRoutingType, AfterEffects)>, out: &mut Vec<RoutingType>)
    requires
        m.wf(),
        old(out)@.no_duplicates(),
    ensures
        final(out)@.no_duplicates(),
        forall|rt: RoutingType| final(out)@.contains(rt) <==> (old(out)@.contains(rt) || exists|
            j: int,
        | 0 <= j < m@.len() && (#[trigger] m@[j]).1.0.spec_has_outcome(rt)),
{
    let n = m.len();
    let mut i: usize = 0;
    while i < n
        invariant
            i <= n,
            n == m@.len(),
            m.wf(),
            out@.no_duplicates(),
            forall|rt: RoutingType| out@.contains(rt) <==> (old(out)@.contains(rt) || exists|
                j: int,
            | 0 <= j < i && (#[trigger] m@[j]).1.0.spec_has_outcome(rt)),
        decreases n - i,
    {
        let entry = m.value_at(i);
        match &entry.0 {
            CompoundRoutingType::Simple(x) => {
                if !contains_outcome(out, *x) {
                    proof {
                        lemma_push_contains(out@, *x);
                        lemma_push_no_duplicates(out@, *x);
                    }
                    out.push(*x);
                }
                proof {
                    assert(m@[i as int].1.0.spec_has_outcome(*x));
                    assert forall|rt: RoutingType| out@.contains(rt) implies (old(out)@.contains(
                        rt,
                    ) || exists|j: int| 0 <= j < i + 1
                        && (#[trigger] m@[j]).1.0.spec_has_outcome(rt)) by {
                        if !(old(out)@.contains(rt) || exists|j: int| 0 <= j < i
                            && (#[trigger] m@[j]).1.0.spec_has_outcome(rt)) {
                            assert(rt == *x);
                        }
                    }
                }
            },
            CompoundRoutingType::Weighted(v) => {
                let vn = v.len();
                let mut k: usize = 0;
                while k < vn
                    invariant
                        k <= vn,
                        vn == v@.len(),
                        m@[i as int].1.0 == CompoundRoutingType::Weighted(*v),
                        0 <= i < m@.len(),
                        out@.no_duplicates(),
                        forall|rt: RoutingType| out@.contains(rt) <==> (old(out)@.contains(rt)
                            || (exists|j: int| 0 <= j < i
                            && (#[trigger] m@[j]).1.0.spec_has_outcome(rt)) || exists|q: int|
                            0 <= q < k && (#[trigger] v@[q]).1 == rt),
                    decreases vn - k,
                {
                    let x = v[k].1;
                    if !contains_outcome(out, x) {
                        proof {
                            lemma_push_contains(out@, x);
                            lemma_push_no_duplicates(out@, x);
                        }
                        out.push(x);
                    }
                    proof {
                        assert(v@[k as int].1 == x);
                        assert forall|rt: RoutingType| out@.contains(rt) implies (old(
                            out,
                        )@.contains(rt) || (exists|j: int| 0 <= j < i
                            && (#[trigger] m@[j]).1.0.spec_has_outcome(rt)) || exists|q: int|
                            0 <= q < k + 1 && (#[trigger] v@[q]).1 == rt) by {
                            if !(old(out)@.contains(rt) || (exists|j: int| 0 <= j < i
                                && (#[trigger] m@[j]).1.0.spec_has_outcome(rt)) || exists|q: int|
                                0 <= q < k && (#[trigger] v@[q]).1 == rt) {
                                assert(rt == x);
                            }
                        }
                    }
                    k = k + 1;
                }
                proof {
                    assert forall|rt: RoutingType|
                        (exists|q: int| 0 <= q < vn && (#[trigger] v@[q]).1
                            == rt) implies m@[i as int].1.0.spec_has_outcome(rt) by {
                    }
                    assert forall|rt: RoutingType| m@[i as int].1.0.spec_has_outcome(
                        rt,
                    ) implies (exists|q: int| 0 <= q < vn && (#[trigger] v@[q]).1 == rt) by {
                    }
                }
            },
        }
        proof {
            assert forall|rt: RoutingType|
                (exists|j: int| 0 <= j < i + 1
                    && (#[trigger] m@[j]).1.0.spec_has_outcome(rt)) implies out@.contains(rt) by {
                let j = choose|j: int| 0 <= j < i + 1 && (#[trigger] m@[j]).1.0.spec_has_outcome(
                    rt,
                );
            }
        }
        i = i + 1;
    }
}

} // verus!
