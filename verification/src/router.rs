//! The sampler-ready form of a routing configuration.
//!
//! [`BuiltRouter`] is compiled from a validated [`RoutingInfo`] once, at
//! installation time, so that each routing decision is a single draw from a
//! prebuilt weighted sampler.  The build keeps the tables as data that
//! mirror the source configuration entry for entry.

use vstd::prelude::*;
use crate::base::{Direction, TrackID};
use crate::idmap::IdMap;
use crate::rng::{weights_of, WeightedSampler};
use crate::routing::{
    pair_weights, valid_weight_seq, AfterEffects, CompoundRoutingType, RoutingInfo, RoutingState,
    RoutingStateID, RoutingType,
};

verus! {

/// The values of a weighted-entry list.
pub open spec fn pair_values<X>(s: Seq<(u64, X)>) -> Seq<X> {
    s.map_values(|p: (u64, X)| p.1)
}

/// A routing-outcome distribution with its sampler built.
pub enum BuiltCompoundRoutingType {
    Simple(RoutingType),
    Weighted(WeightedSampler, Vec<RoutingType>),
}

impl BuiltCompoundRoutingType {
    pub open spec fn wf(self) -> bool {
        match self {
            BuiltCompoundRoutingType::Simple(_) => true,
            BuiltCompoundRoutingType::Weighted(s, outs) => weights_of(s).len() == outs@.len()
                && outs@.len() > 0,
        }
    }

    /// The built distribution draws over exactly the source's entries.
    pub open spec fn models(self, c: CompoundRoutingType) -> bool {
        match self {
            BuiltCompoundRoutingType::Simple(x) => c == CompoundRoutingType::Simple(x),
            BuiltCompoundRoutingType::Weighted(s, outs) => match c {
                CompoundRoutingType::Weighted(v) => weights_of(s) == pair_weights(v@) && outs@
                    == pair_values(v@),
                CompoundRoutingType::Simple(_) => false,
            },
        }
    }

    /// Whether a draw from this distribution can return `rt`: it is the
    /// fixed outcome, or a listed outcome with positive weight.
    pub open spec fn can_produce(self, rt: RoutingType) -> bool {
        match self {
            BuiltCompoundRoutingType::Simple(x) => rt == x,
            BuiltCompoundRoutingType::Weighted(s, outs) => exists|i: int|
                0 <= i < outs@.len() && (#[trigger] outs@[i]) == rt && weights_of(s)[i] > 0,
        }
    }

    /// A producible outcome of a built distribution is listed by its source.
    pub proof fn lemma_produce_listed(self, c: CompoundRoutingType, rt: RoutingType)
        requires
            self.models(c),
            self.can_produce(rt),
        ensures
            c.spec_has_outcome(rt),
    {
        match self {
            BuiltCompoundRoutingType::Simple(_) => {},
            BuiltCompoundRoutingType::Weighted(s, outs) => {
                let i = choose|i: int| 0 <= i < outs@.len() && (#[trigger] outs@[i]) == rt
                    && weights_of(s)[i] > 0;
                match c {
                    CompoundRoutingType::Weighted(v) => {
                        assert(v@[i].1 == rt);
                    },
                    CompoundRoutingType::Simple(_) => {},
                }
            },
        }
    }

    fn sample(&self) -> (r: RoutingType)
        requires
            self.wf(),
        ensures
            self.can_produce(r),
    {
        match self {
            BuiltCompoundRoutingType::Simple(x) => *x,
            BuiltCompoundRoutingType::Weighted(s, outs) => {
                let i = s.sample();
                outs[i]
            },
        }
    }

    /// Compiles one outcome distribution.
    fn build(c: &CompoundRoutingType) -> (r: Self)
        requires
            c.valid(),
        ensures
            r.wf(),
            r.models(*c),
    {
        match c {
            CompoundRoutingType::Simple(x) => BuiltCompoundRoutingType::Simple(*x),
            CompoundRoutingType::Weighted(v) => {
                let n = v.len();
                let mut ws: Vec<u64> = Vec::new();
                let mut outs: Vec<RoutingType> = Vec::new();
                let mut i: usize = 0;
                while i < n
                    invariant
                        i <= n,
                        n == v@.len(),
                        ws@ == pair_weights(v@).subrange(0, i as int),
                        outs@ == pair_values(v@).subrange(0, i as int),
                    decreases n - i,
                {
                    let e = v[i];
                    ws.push(e.0);
                    outs.push(e.1);
                    proof {
                        assert(pair_weights(v@).subrange(0, i + 1) =~= pair_weights(
                            v@,
                        ).subrange(0, i as int).push(v@[i as int].0));
                        assert(pair_values(v@).subrange(0, i + 1) =~= pair_values(v@).subrange(
                            0,
                            i as int,
                        ).push(v@[i as int].1));
                    }
                    i = i + 1;
                }
                proof {
                    assert(ws@ =~= pair_weights(v@));
                    assert(outs@ =~= pair_values(v@));
                }
                match WeightedSampler::new(&ws) {
                    Some(s) => BuiltCompoundRoutingType::Weighted(s, outs),
                    None => vstd::pervasive::unreached(),
                }
            },
        }
    }
}

/// An after-effect distribution with its sampler built.
pub enum BuiltAfterEffects {
    Nothing,
    SwitchState(RoutingStateID),
    Weighted(WeightedSampler, Vec<Option<RoutingStateID>>),
}

/// The state an after-effect draw leaves the machine in: the drawn switch
/// target, or the current state when nothing was drawn.
pub open spec fn apply_switch(r: Option<RoutingStateID>, cur: RoutingStateID) -> RoutingStateID {
    match r {
        Some(s) => s,
        None => cur,
    }
}

impl BuiltAfterEffects {
    pub open spec fn wf(self) -> bool {
        match self {
            BuiltAfterEffects::Nothing => true,
            BuiltAfterEffects::SwitchState(_) => true,
            BuiltAfterEffects::Weighted(s, effs) => weights_of(s).len() == effs@.len()
                && effs@.len() > 0,
        }
    }

    pub open spec fn models(self, ae: AfterEffects) -> bool {
        match self {
            BuiltAfterEffects::Nothing => ae == AfterEffects::Nothing,
            BuiltAfterEffects::SwitchState(s) => ae == AfterEffects::SwitchState(s),
            BuiltAfterEffects::Weighted(s, effs) => match ae {
                AfterEffects::Weighted(v) => weights_of(s) == pair_weights(v@) && effs@
                    == pair_values(v@),
                _ => false,
            },
        }
    }

    /// Whether a draw from this after-effect can move the machine from
    /// state `cur` to state `next`.
    pub open spec fn can_switch(self, cur: RoutingStateID, next: RoutingStateID) -> bool {
        match self {
            BuiltAfterEffects::Nothing => next == cur,
            BuiltAfterEffects::SwitchState(s) => next == s,
            BuiltAfterEffects::Weighted(s, effs) => exists|i: int|
                0 <= i < effs@.len() && weights_of(s)[i] > 0 && ((#[trigger] effs@[i]) == Some(
                    next,
                ) || (effs@[i] is None && next == cur)),
        }
    }

    /// Every switch target of this after-effect is a state of `states`.
    pub open spec fn targets_in<T>(self, states: IdMap<T>) -> bool {
        match self {
            BuiltAfterEffects::Nothing => true,
            BuiltAfterEffects::SwitchState(s) => states.spec_contains(s),
            BuiltAfterEffects::Weighted(_, effs) => forall|i: int| 0 <= i < effs@.len()
                ==> ((#[trigger] effs@[i]) matches Some(s) ==> states.spec_contains(s)),
        }
    }

    /// A switch within listed targets stays among the states that hold them.
    pub proof fn lemma_switch_stays<T>(
        self,
        states: IdMap<T>,
        cur: RoutingStateID,
        next: RoutingStateID,
    )
        requires
            self.targets_in(states),
            self.can_switch(cur, next),
            states.spec_contains(cur),
        ensures
            states.spec_contains(next),
    {
    }

    fn sample(&self) -> (r: Option<RoutingStateID>)
        requires
            self.wf(),
        ensures
            forall|cur: RoutingStateID| self.can_switch(cur, apply_switch(r, cur)),
    {
        match self {
            BuiltAfterEffects::Nothing => None,
            BuiltAfterEffects::SwitchState(s) => Some(*s),
            BuiltAfterEffects::Weighted(s, effs) => {
                let i = s.sample();
                let e = effs[i];
                proof {
                    assert forall|cur: RoutingStateID| self.can_switch(
                        cur,
                        apply_switch(e, cur),
                    ) by {
                        assert(effs@[i as int] == e);
                    }
                }
                e
            },
        }
    }

    /// Compiles one after-effect distribution.
    fn build(ae: &AfterEffects) -> (r: Self)
        requires
            ae matches AfterEffects::Weighted(v) ==> valid_weight_seq(pair_weights(v@)),
        ensures
            r.wf(),
            r.models(*ae),
    {
        match ae {
            AfterEffects::Nothing => BuiltAfterEffects::Nothing,
            AfterEffects::SwitchState(s) => BuiltAfterEffects::SwitchState(*s),
            AfterEffects::Weighted(v) => {
                let n = v.len();
                let mut ws: Vec<u64> = Vec::new();
                let mut effs: Vec<Option<RoutingStateID>> = Vec::new();
                let mut i: usize = 0;
                while i < n
                    invariant
                        i <= n,
                        n == v@.len(),
                        ws@ == pair_weights(v@).subrange(0, i as int),
                        effs@ == pair_values(v@).subrange(0, i as int),
                    decreases n - i,
                {
                    let e = v[i];
                    ws.push(e.0);
                    effs.push(e.1);
                    proof {
                        assert(pair_weights(v@).subrange(0, i + 1) =~= pair_weights(
                            v@,
                        ).subrange(0, i as int).push(v@[i as int].0));
                        assert(pair_values(v@).subrange(0, i + 1) =~= pair_values(v@).subrange(
                            0,
                            i as int,
                        ).push(v@[i as int].1));
                    }
                    i = i + 1;
                }
                proof {
                    assert(ws@ =~= pair_weights(v@));
                    assert(effs@ =~= pair_values(v@));
                }
                match WeightedSampler::new(&ws) {
                    Some(s) => BuiltAfterEffects::Weighted(s, effs),
                    None => vstd::pervasive::unreached(),
                }
            },
        }
    }

    /// A built after-effect that mirrors a source effect whose targets are
    /// valid only switches among the corresponding states.
    pub proof fn lemma_targets_from_models<T>(
        self,
        ae: AfterEffects,
        src_states: IdMap<RoutingState>,
        built_states: IdMap<T>,
    )
        requires
            self.models(ae),
            ae.valid(src_states),
            forall|k: RoutingStateID| built_states.spec_contains(k)
                <==> src_states.spec_contains(k),
        ensures
            self.targets_in(built_states),
    {
        match self {
            BuiltAfterEffects::Nothing => {},
            BuiltAfterEffects::SwitchState(_) => {},
            BuiltAfterEffects::Weighted(_, effs) => {
                match ae {
                    AfterEffects::Weighted(v) => {
                        assert forall|i: int| 0 <= i < effs@.len() implies ((
                        #[trigger] effs@[i]) matches Some(s) ==> built_states.spec_contains(
                            s,
                        )) by {
                            assert(effs@[i] == v@[i].1);
                        }
                    },
                    _ => {},
                }
            },
        }
    }
}

/// One machine state in sampler-ready form: its click-triggered after-effect
/// and its routing tables for both directions of entry.
pub struct BuiltRoutingState {
    pub after_click: BuiltAfterEffects,
    pub forward: IdMap<(BuiltCompoundRoutingType, BuiltAfterEffects)>,
    pub backward: IdMap<(BuiltCompoundRoutingType, BuiltAfterEffects)>,
}

impl BuiltRoutingState {
    /// The table consulted for a train entering in `dir`.
    pub open spec fn table(self, dir: Direction) -> IdMap<
        (BuiltCompoundRoutingType, BuiltAfterEffects),
    > {
        match dir {
            Direction::Forward => self.forward,
            Direction::Backward => self.backward,
        }
    }

    /// Well-formed as data, regardless of which states exist.
    pub open spec fn wf_local(self) -> bool {
        &&& self.forward.wf() && self.backward.wf()
        &&& self.after_click.wf()
        &&& forall|j: int| 0 <= j < self.forward@.len() ==> {
            &&& (#[trigger] self.forward@[j]).1.0.wf()
            &&& self.forward@[j].1.1.wf()
        }
        &&& forall|j: int| 0 <= j < self.backward@.len() ==> {
            &&& (#[trigger] self.backward@[j]).1.0.wf()
            &&& self.backward@[j].1.1.wf()
        }
    }

    /// Additionally, every switch target exists among `states`.
    pub open spec fn wf<T>(self, states: IdMap<T>) -> bool {
        &&& self.wf_local()
        &&& self.after_click.targets_in(states)
        &&& forall|j: int| 0 <= j < self.forward@.len()
            ==> (#[trigger] self.forward@[j]).1.1.targets_in(states)
        &&& forall|j: int| 0 <= j < self.backward@.len()
            ==> (#[trigger] self.backward@[j]).1.1.targets_in(states)
    }

    /// The built state mirrors the source state entry for entry.
    pub open spec fn models(self, src: RoutingState) -> bool {
        &&& self.after_click.models(src.after_click)
        &&& self.forward@.len() == src.forward_routings@.len()
        &&& forall|j: int| 0 <= j < self.forward@.len() ==> {
            &&& (#[trigger] self.forward@[j]).0 == src.forward_routings@[j].0
            &&& self.forward@[j].1.0.models(src.forward_routings@[j].1.0)
            &&& self.forward@[j].1.1.models(src.forward_routings@[j].1.1)
        }
        &&& self.backward@.len() == src.backward_routings@.len()
        &&& forall|j: int| 0 <= j < self.backward@.len() ==> {
            &&& (#[trigger] self.backward@[j]).0 == src.backward_routings@[j].0
            &&& self.backward@[j].1.0.models(src.backward_routings@[j].1.0)
            &&& self.backward@[j].1.1.models(src.backward_routings@[j].1.1)
        }
    }

    /// Compiles one table of a source state.
    fn build_table(src: &IdMap<(CompoundRoutingType, AfterEffects)>) -> (r: IdMap<
        (BuiltCompoundRoutingType, BuiltAfterEffects),
    >)
        requires
            src.wf(),
            forall|j: int| 0 <= j < src@.len() ==> {
                &&& (#[trigger] src@[j]).1.0.valid()
                &&& crate::routing::ae_dist_valid(src@[j].1.1)
            },
        ensures
            r.wf(),
            r@.len() == src@.len(),
            forall|j: int| 0 <= j < r@.len() ==> {
                &&& (#[trigger] r@[j]).0 == src@[j].0
                &&& r@[j].1.0.models(src@[j].1.0)
                &&& r@[j].1.1.models(src@[j].1.1)
                &&& r@[j].1.0.wf()
                &&& r@[j].1.1.wf()
            },
    {
        let mut out: IdMap<(BuiltCompoundRoutingType, BuiltAfterEffects)> = IdMap::new();
        let n = src.len();
        let mut i: usize = 0;
        while i < n
            invariant
                i <= n,
                n == src@.len(),
                src.wf(),
                out.wf(),
                out@.len() == i,
                forall|j: int| 0 <= j < src@.len() ==> {
                    &&& (#[trigger] src@[j]).1.0.valid()
                    &&& crate::routing::ae_dist_valid(src@[j].1.1)
                },
                forall|j: int| 0 <= j < i ==> {
                    &&& (#[trigger] out@[j]).0 == src@[j].0
                    &&& out@[j].1.0.models(src@[j].1.0)
                    &&& out@[j].1.1.models(src@[j].1.1)
                    &&& out@[j].1.0.wf()
                    &&& out@[j].1.1.wf()
                },
            decreases n - i,
        {
            let entry = src.value_at(i);
            let k = src.key_at(i);
            let built_outcome = BuiltCompoundRoutingType::build(&entry.0);
            let built_effect = BuiltAfterEffects::build(&entry.1);
            proof {
                assert forall|j: int| 0 <= j < out@.len() implies (#[trigger] out@[j]).0 < k by {
                    assert(out@[j].0 == src@[j].0);
                    assert(src@[j].0 < src@[i as int].0);
                }
            }
            let ghost prev = out@;
            out.insert(k, (built_outcome, built_effect));
            proof {
                assert(out@ == prev.push((k, (built_outcome, built_effect))));
            }
            i = i + 1;
        }
        out
    }

    /// Compiles one source state.
    fn build(src: &RoutingState) -> (r: Self)
        requires
            src.wf(),
            src.dists_valid(),
        ensures
            r.wf_local(),
            r.models(*src),
    {
        BuiltRoutingState {
            after_click: BuiltAfterEffects::build(&src.after_click),
            forward: Self::build_table(&src.forward_routings),
            backward: Self::build_table(&src.backward_routings),
        }
    }
}

/// The routing machine of a configurable node, with a current state and
/// sampler-ready tables.  An unconfigured router reflects every train back
/// and ignores clicks.
pub struct BuiltRouter {
    pub configured: bool,
    pub current_state: RoutingStateID,
    pub states: IdMap<BuiltRoutingState>,
}

impl BuiltRouter {
    pub open spec fn wf(self) -> bool {
        &&& self.states.wf()
        &&& forall|i: int| 0 <= i < self.states@.len() ==> (#[trigger] self.states@[i]).1.wf(
            self.states,
        )
        &&& self.configured ==> self.states.spec_contains(self.current_state)
    }

    /// The built router mirrors the source info state for state.
    pub open spec fn models(self, info: RoutingInfo) -> bool {
        &&& self.states@.len() == info.states@.len()
        &&& forall|i: int| 0 <= i < self.states@.len() ==> {
            &&& (#[trigger] self.states@[i]).0 == info.states@[i].0
            &&& self.states@[i].1.models(info.states@[i].1)
        }
    }

    /// Matching state maps hold exactly the same state identifiers.
    pub proof fn lemma_models_keys(self, info: RoutingInfo)
        requires
            self.models(info),
        ensures
            forall|k: RoutingStateID| self.states.spec_contains(k)
                <==> info.states.spec_contains(k),
    {
        assert forall|k: RoutingStateID| self.states.spec_contains(k)
            <==> info.states.spec_contains(k) by {
            if self.states.spec_contains(k) {
                let i = choose|i: int| 0 <= i < self.states@.len() && self.states@[i].0 == k;
                assert(info.states@[i].0 == k);
            }
            if info.states.spec_contains(k) {
                let i = choose|i: int| 0 <= i < info.states@.len() && info.states@[i].0 == k;
                assert(self.states@[i].0 == k);
            }
        }
    }

    /// The routing entry the machine consults for a train arriving on
    /// `track` travelling in `dir`.
    pub open spec fn spec_entry(self, track: TrackID, dir: Direction) -> Option<
        (BuiltCompoundRoutingType, BuiltAfterEffects),
    > {
        match self.states.spec_get(self.current_state) {
            None => None,
            Some(st) => st.table(dir).spec_get(track),
        }
    }

    /// The identifier of the machine's current state.
    pub fn state(&self) -> (r: RoutingStateID)
        ensures
            r == self.current_state,
    {
        self.current_state
    }

    /// Routes a train that arrived at this node on `incoming`.  An
    /// unconfigured router reflects the train back and keeps its state; a
    /// missing table entry derails the train, the defined fallback for a
    /// pair the tables never anticipated; otherwise the outcome is drawn
    /// from the entry's distribution and the machine may switch state as
    /// the entry's after-effect allows.
    pub fn route(&mut self, incoming: (TrackID, Direction)) -> (r: RoutingType)
        requires
            old(self).wf(),
        ensures
            final(self).wf(),
            final(self).configured == old(self).configured,
            final(self).states == old(self).states,
            !old(self).configured ==> (r == RoutingType::BounceBack && *final(self) == *old(
                self,
            )),
            old(self).configured ==> match old(self).spec_entry(incoming.0, incoming.1) {
                None => r == RoutingType::Derail && *final(self) == *old(self),
                Some(e) => e.0.can_produce(r) && e.1.can_switch(
                    old(self).current_state,
                    final(self).current_state,
                ),
            },
    {
        if !self.configured {
            return RoutingType::BounceBack;
        }
        let ghost old_self = *old(self);
        let cur = self.current_state;
        let st = match self.states.get(cur) {
            Some(st) => st,
            None => {
                proof {
                    assert(false);
                }
                vstd::pervasive::unreached()
            },
        };
        proof {
            let i = old_self.states.spec_index_of(cur);
            old_self.states.lemma_at(i);
            assert(old_self.states@[i].1.wf(old_self.states));
        }
        let entry = match incoming.1 {
            Direction::Forward => st.forward.get(incoming.0),
            Direction::Backward => st.backward.get(incoming.0),
        };
        match entry {
            None => RoutingType::Derail,
            Some(entry) => {
                proof {
                    let table = st.table(incoming.1);
                    let j = table.spec_index_of(incoming.0);
                    table.lemma_at(j);
                    assert(table@[j].1.1.targets_in(old_self.states));
                }
                let out = entry.0.sample();
                let sw = entry.1.sample();
                proof {
                    entry.1.lemma_switch_stays(
                        old_self.states,
                        cur,
                        apply_switch(sw, cur),
                    );
                }
                match sw {
                    Some(ns) => {
                        self.current_state = ns;
                    },
                    None => {},
                }
                out
            },
        }
    }

    /// Applies the current state's click-triggered after-effect.  On an
    /// unconfigured router a click is a no-op.
    pub fn clicked(&mut self)
        requires
            old(self).wf(),
        ensures
            final(self).wf(),
            final(self).configured == old(self).configured,
            final(self).states == old(self).states,
            !old(self).configured ==> *final(self) == *old(self),
            old(self).configured ==> match old(self).states.spec_get(old(self).current_state) {
                None => *final(self) == *old(self),
                Some(st) => st.after_click.can_switch(
                    old(self).current_state,
                    final(self).current_state,
                ),
            },
    {
        if !self.configured {
            return ;
        }
        let ghost old_self = *old(self);
        let cur = self.current_state;
        let st = match self.states.get(cur) {
            Some(st) => st,
            None => {
                proof {
                    assert(false);
                }
                vstd::pervasive::unreached()
            },
        };
        proof {
            let i = old_self.states.spec_index_of(cur);
            old_self.states.lemma_at(i);
            assert(old_self.states@[i].1.wf(old_self.states));
        }
        let sw = st.after_click.sample();
        proof {
            st.after_click.lemma_switch_stays(old_self.states, cur, apply_switch(sw, cur));
        }
        match sw {
            Some(ns) => {
                self.current_state = ns;
            },
            None => {},
        }
    }

    /// Compiles a routing configuration.  A configured info must have passed
    /// [`RoutingInfo::check`]; an unconfigured info builds the reflecting
    /// router, whose state table is never consulted.
    pub fn build(info: &RoutingInfo) -> (r: BuiltRouter)
        requires
            info.wf(),
            info.configured ==> info.spec_valid(),
        ensures
            r.wf(),
            r.configured == info.configured,
            r.current_state == info.default_state,
            info.configured ==> r.models(*info),
            !info.configured ==> r.states@.len() == 0,
    {
        if !info.configured {
            return BuiltRouter {
                configured: false,
                current_state: info.default_state,
                states: IdMap::new(),
            };
        }
        let mut states: IdMap<BuiltRoutingState> = IdMap::new();
        let n = info.states.len();
        let mut i: usize = 0;
        while i < n
            invariant
                i <= n,
                n == info.states@.len(),
                info.wf(),
                info.spec_valid(),
                states.wf(),
                states@.len() == i,
                forall|j: int| 0 <= j < i ==> {
                    &&& (#[trigger] states@[j]).0 == info.states@[j].0
                    &&& states@[j].1.models(info.states@[j].1)
                    &&& states@[j].1.wf_local()
                },
            decreases n - i,
        {
            let src = info.states.value_at(i);
            let k = info.states.key_at(i);
            proof {
                assert(info.states@[i as int].1.valid(info.states));
                info.states@[i as int].1.lemma_valid_dists(info.states);
                assert forall|j: int| 0 <= j < states@.len() implies (#[trigger] states@[j]).0
                    < k by {
                    assert(states@[j].0 == info.states@[j].0);
                    assert(info.states@[j].0 < info.states@[i as int].0);
                }
            }
            let built = BuiltRoutingState::build(src);
            let ghost prev = states@;
            states.insert(k, built);
            proof {
                assert(states@ == prev.push((k, built)));
            }
            i = i + 1;
        }
        let r = BuiltRouter { configured: true, current_state: info.default_state, states };
        proof {
            assert(r.models(*info));
            r.lemma_models_keys(*info);
            assert(r.states.spec_contains(r.current_state)) by {
                assert(info.states.spec_contains(info.default_state));
            }
            assert forall|i2: int| 0 <= i2 < r.states@.len() implies (
            #[trigger] r.states@[i2]).1.wf(r.states) by {
                let built_st = r.states@[i2].1;
                let src_st = info.states@[i2].1;
                assert(src_st.valid(info.states));
                built_st.after_click.lemma_targets_from_models(
                    src_st.after_click,
                    info.states,
                    r.states,
                );
                assert forall|j: int| 0 <= j < built_st.forward@.len() implies (
                #[trigger] built_st.forward@[j]).1.1.targets_in(r.states) by {
                    assert(src_st.forward_routings@[j].1.1.valid(info.states));
                    built_st.forward@[j].1.1.lemma_targets_from_models(
                        src_st.forward_routings@[j].1.1,
                        info.states,
                        r.states,
                    );
                }
                assert forall|j: int| 0 <= j < built_st.backward@.len() implies (
                #[trigger] built_st.backward@[j]).1.1.targets_in(r.states) by {
                    assert(src_st.backward_routings@[j].1.1.valid(info.states));
                    built_st.backward@[j].1.1.lemma_targets_from_models(
                        src_st.backward_routings@[j].1.1,
                        info.states,
                        r.states,
                    );
                }
            }
        }
        r
    }
}

} // verus!
