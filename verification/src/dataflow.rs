//! The states a local can be in along the control flow, and how a MIR
//! statement or terminator changes the states seen at its location.

use crate::mir::{BasicBlockId, MirOperand, MirRval, MirStatement, MirStatementKind, MirTerminator, MirTerminatorKind, successors_of};
use crate::models::Range;
use crate::transform::{Location, LocationRanges};
use crate::maps::{states_get_index, states_in, states_index_of, states_insert, states_len, states_new, states_set_value};
use crate::utils::{covers, eliminated_ranges, separated};
use indexmap::IndexMap;
use std::collections::VecDeque;
use vstd::prelude::*;

verus! {

/// A state of a local at a location.
#[derive(Clone, Copy, PartialEq, Eq, Hash, Debug, Structural)]
pub enum LocalStateVariant {
    Uninitialized,
    Initialized,
    Moved,
    Dropped,
}

/// A set of states, one flag per state.
#[derive(Clone, Copy, PartialEq, Eq, Debug, Structural)]
pub struct StateSet {
    pub uninitialized: bool,
    pub initialized: bool,
    pub moved: bool,
    pub dropped: bool,
}

/// The set that holds `v` alone.
pub open spec fn only(v: LocalStateVariant) -> StateSet {
    StateSet {
        uninitialized: v == LocalStateVariant::Uninitialized,
        initialized: v == LocalStateVariant::Initialized,
        moved: v == LocalStateVariant::Moved,
        dropped: v == LocalStateVariant::Dropped,
    }
}

impl StateSet {
    pub open spec fn has(self, v: LocalStateVariant) -> bool {
        match v {
            LocalStateVariant::Uninitialized => self.uninitialized,
            LocalStateVariant::Initialized => self.initialized,
            LocalStateVariant::Moved => self.moved,
            LocalStateVariant::Dropped => self.dropped,
        }
    }

    /// No state.
    pub fn empty() -> (r: Self)
        ensures
            forall|v: LocalStateVariant| !r.has(v),
    {
        StateSet { uninitialized: false, initialized: false, moved: false, dropped: false }
    }

    /// The states in either set.
    pub fn union(self, other: Self) -> (r: Self)
        ensures
            forall|w: LocalStateVariant| r.has(w) == (self.has(w) || other.has(w)),
    {
        StateSet {
            uninitialized: self.uninitialized || other.uninitialized,
            initialized: self.initialized || other.initialized,
            moved: self.moved || other.moved,
            dropped: self.dropped || other.dropped,
        }
    }

    /// Whether every path leaves the local initialized: the set is exactly
    /// `{Initialized}`.
    pub fn is_definitely_live(&self) -> (r: bool)
        ensures
            r == (*self == only(LocalStateVariant::Initialized)),
    {
        self.initialized && !self.uninitialized && !self.moved && !self.dropped
    }

    /// Whether some path leaves the local initialized.
    pub fn is_maybe_initialized(&self) -> (r: bool)
        ensures
            r == self.has(LocalStateVariant::Initialized),
    {
        self.initialized
    }
}

/// The set that holds `v` alone.
pub fn only_state(v: LocalStateVariant) -> (r: StateSet)
    ensures
        r == only(v),
{
    StateSet {
        uninitialized: v == LocalStateVariant::Uninitialized,
        initialized: v == LocalStateVariant::Initialized,
        moved: v == LocalStateVariant::Moved,
        dropped: v == LocalStateVariant::Dropped,
    }
}

/// The states of each local at one location, in a map from locals to their
/// states that keeps the order in which the locals came.
#[derive(Debug)]
pub struct LocalStates(pub(crate) IndexMap<u32, StateSet>);

impl LocalStates {
    /// No local is listed twice.
    #[verifier::type_invariant]
    closed spec fn locals_listed_once(self) -> bool {
        unique_locals(states_in(self.0))
    }

    /// The number of locals.
    fn count(&self) -> (r: usize)
        ensures
            r == self@.len(),
    {
        states_len(&self.0)
    }

    /// The local and its states at position `i`.
    fn at(&self, i: usize) -> (r: (u32, StateSet))
        requires
            i < self@.len(),
        ensures
            r == self@[i as int],
    {
        match states_get_index(&self.0, i) {
            Some((l, st)) => (*l, *st),
            None => (0, StateSet::empty()),
        }
    }

    /// The position of local `l`.
    fn position(&self, l: u32) -> (r: Option<usize>)
        ensures
            match r {
                Some(j) => entry_of(self@, l) == Some(j as int),
                None => entry_of(self@, l) is None,
            },
    {
        states_index_of(&self.0, l)
    }

    /// The locals and their states, in order.
    pub fn entries(&self) -> (r: Vec<(u32, StateSet)>)
        ensures
            r@ == self@,
    {
        let mut v: Vec<(u32, StateSet)> = Vec::new();
        let n = self.count();
        let mut i: usize = 0;
        while i < n
            invariant
                n == self@.len(),
                i <= n,
                v@ == self@.take(i as int),
            decreases n - i,
        {
            v.push(self.at(i));
            i = i + 1;
            proof {
                assert(v@ =~= self@.take(i as int));
            }
        }
        proof {
            assert(self@.take(n as int) =~= self@);
        }
        v
    }
}

impl Clone for LocalStates {
    /// The same states for the same locals.
    fn clone(&self) -> (r: Self)
        ensures
            r@ == self@,
    {
        self.copy()
    }
}

impl View for LocalStates {
    type V = Seq<(u32, StateSet)>;

    closed spec fn view(&self) -> Seq<(u32, StateSet)> {
        states_in(self.0)
    }
}

/// No local is listed twice.
pub open spec fn distinct_locals(locals: Seq<u32>) -> bool {
    forall|i: int, j: int| 0 <= i < j < locals.len() ==> locals[i] != locals[j]
}

/// The locals of `locals` in order, each at its first place only: the keys
/// of a map collected from them.
pub open spec fn first_places(locals: Seq<u32>) -> Seq<u32>
    decreases locals.len(),
{
    if locals.len() == 0 {
        Seq::empty()
    } else {
        let rest = first_places(locals.drop_last());
        if rest.contains(locals.last()) {
            rest
        } else {
            rest.push(locals.last())
        }
    }
}

/// Locals listed once keep their places.
pub proof fn lemma_first_places_distinct(locals: Seq<u32>)
    requires
        distinct_locals(locals),
    ensures
        first_places(locals) == locals,
    decreases locals.len(),
{
    if locals.len() > 0 {
        let init = locals.drop_last();
        assert(distinct_locals(init));
        lemma_first_places_distinct(init);
        if first_places(init).contains(locals.last()) {
            let k = choose|k: int| 0 <= k < init.len() && init[k] == locals.last();
            assert(locals[k] == locals[locals.len() - 1]);
        }
        assert(init.push(locals.last()) =~= locals);
    }
}

/// The locals of the entries of `s`, in order.
pub open spec fn local_keys(s: Seq<(u32, StateSet)>) -> Seq<u32> {
    s.map_values(|p: (u32, StateSet)| p.0)
}

/// No local has two entries, as in a map from locals to their states.
pub open spec fn unique_locals(s: Seq<(u32, StateSet)>) -> bool {
    forall|i: int, j: int| 0 <= i < j < s.len() ==> s[i].0 != s[j].0
}

/// The first entry of `s` for local `l`.
pub open spec fn entry_of(s: Seq<(u32, StateSet)>, l: u32) -> Option<int>
    decreases s.len(),
{
    if s.len() == 0 {
        None
    } else if s[0].0 == l {
        Some(0)
    } else {
        match entry_of(s.drop_first(), l) {
            Some(i) => Some(i + 1),
            None => None,
        }
    }
}

pub proof fn lemma_entry_of(s: Seq<(u32, StateSet)>, l: u32)
    ensures
        entry_of(s, l) matches Some(i) ==> 0 <= i < s.len() && s[i].0 == l && forall|j: int|
            0 <= j < i ==> s[j].0 != l,
        entry_of(s, l) is None ==> forall|j: int| 0 <= j < s.len() ==> s[j].0 != l,
    decreases s.len(),
{
    if s.len() > 0 {
        lemma_entry_of(s.drop_first(), l);
        if s[0].0 != l {
            assert forall|j: int| 1 <= j < s.len() implies s[j] == s.drop_first()[j - 1] by {}
        }
    }
}

/// `s` with the states of local `l` replaced by `st`.
pub open spec fn update_local(s: Seq<(u32, StateSet)>, l: u32, st: StateSet) -> Seq<(u32, StateSet)> {
    match entry_of(s, l) {
        Some(i) => s.update(i, (l, st)),
        None => s,
    }
}

/// `s` with local `l` in state `v` alone.
pub open spec fn reset_spec(s: Seq<(u32, StateSet)>, l: u32, v: LocalStateVariant) -> Seq<(u32, StateSet)> {
    update_local(s, l, only(v))
}

/// `s` with local `l` no longer initialized but dropped; its other states stay.
pub open spec fn drop_spec(s: Seq<(u32, StateSet)>, l: u32) -> Seq<(u32, StateSet)> {
    match entry_of(s, l) {
        Some(i) => update_local(s, l, StateSet { initialized: false, dropped: true, ..s[i].1 }),
        None => s,
    }
}

/// What reading `op` does to the states: a moved local becomes `Moved`.
pub open spec fn operand_effect(s: Seq<(u32, StateSet)>, op: MirOperand) -> Seq<(u32, StateSet)> {
    match op {
        MirOperand::Move { place } => reset_spec(s, place.local.id, LocalStateVariant::Moved),
        _ => s,
    }
}

/// What reading the operands `ops`, in order, does to the states.
pub open spec fn operands_effect(s: Seq<(u32, StateSet)>, ops: Seq<MirOperand>) -> Seq<(u32, StateSet)>
    decreases ops.len(),
{
    if ops.len() == 0 {
        s
    } else {
        operand_effect(operands_effect(s, ops.drop_last()), ops.last())
    }
}

/// What evaluating `rval` does to the states.
pub open spec fn rval_effect(s: Seq<(u32, StateSet)>, rval: MirRval) -> Seq<(u32, StateSet)> {
    match rval {
        MirRval::Use { operand } => operand_effect(s, operand),
        MirRval::Repeat { operand } => operand_effect(s, operand),
        MirRval::Cast { operand } => operand_effect(s, operand),
        MirRval::UnaryOp { operand } => operand_effect(s, operand),
        MirRval::BinaryOp { left, right } => operand_effect(operand_effect(s, left), right),
        MirRval::Aggregate { fields } => operands_effect(s, fields@),
        MirRval::Ref { .. } => s,
        MirRval::Other => s,
    }
}

/// What a statement does to the states: an assignment initializes its
/// target after its right-hand side is read; `StorageDead` uninitializes.
pub open spec fn statement_effect(s: Seq<(u32, StateSet)>, st: MirStatementKind) -> Seq<(u32, StateSet)> {
    match st {
        MirStatementKind::Assign { place, rval } => reset_spec(rval_effect(s, rval), place.local.id, LocalStateVariant::Initialized),
        MirStatementKind::StorageDead { local } => reset_spec(s, local.id, LocalStateVariant::Uninitialized),
        _ => s,
    }
}

/// What a terminator does to the states: a drop marks the place dropped; a
/// call reads its function and arguments and initializes its destination.
pub open spec fn terminator_effect(s: Seq<(u32, StateSet)>, t: MirTerminatorKind) -> Seq<(u32, StateSet)> {
    match t {
        MirTerminatorKind::SwitchInt { discr, .. } => operand_effect(s, discr),
        MirTerminatorKind::Drop { place, .. } => drop_spec(s, place.local.id),
        MirTerminatorKind::Call { func, args, destination, .. } => reset_spec(
            operands_effect(operand_effect(s, func), args@),
            destination.local.id,
            LocalStateVariant::Initialized,
        ),
        MirTerminatorKind::TailCall { func, args, .. } => operands_effect(operand_effect(s, func), args@),
        MirTerminatorKind::Assert { cond, .. } => operand_effect(s, cond),
        _ => s,
    }
}

/// The states in either set.
pub open spec fn union_set(a: StateSet, b: StateSet) -> StateSet {
    StateSet {
        uninitialized: a.uninitialized || b.uninitialized,
        initialized: a.initialized || b.initialized,
        moved: a.moved || b.moved,
        dropped: a.dropped || b.dropped,
    }
}

/// `a` with each local also taking the states that `b` has for it.
pub open spec fn join_spec(a: Seq<(u32, StateSet)>, b: Seq<(u32, StateSet)>) -> Seq<(u32, StateSet)> {
    Seq::new(
        a.len(),
        |i: int|
            (
                a[i].0,
                match entry_of(b, a[i].0) {
                    Some(k) => union_set(a[i].1, b[k].1),
                    None => a[i].1,
                },
            ),
    )
}

/// Joining the states of locals listed once with themselves changes
/// nothing.
pub proof fn law_join_with_itself(s: Seq<(u32, StateSet)>)
    requires
        unique_locals(s),
    ensures
        join_spec(s, s) == s,
{
    assert forall|i: int| 0 <= i < s.len() implies #[trigger] join_spec(s, s)[i] == s[i] by {
        lemma_entry_of(s, s[i].0);
        let k = entry_of(s, s[i].0);
        assert(k == Some(i));
    }
    assert(join_spec(s, s) =~= s);
}

/// Joining keeps the locals, in order, so locals listed once stay so.
pub proof fn law_join_keeps_locals(a: Seq<(u32, StateSet)>, b: Seq<(u32, StateSet)>)
    ensures
        same_locals(join_spec(a, b), a),
        unique_locals(a) ==> unique_locals(join_spec(a, b)),
{
}

impl LocalStates {
    /// The locals `locals`, each with no state yet. Each local is listed
    /// once, at its first place, as the keys of a map collected from them
    /// are.
    pub fn init_from_locals(locals: &Vec<u32>) -> (r: Self)
        ensures
            unique_locals(r@),
            local_keys(r@) == first_places(locals@),
            forall|i: int| 0 <= i < r@.len() ==> forall|v: LocalStateVariant| !(#[trigger] r@[i]).1.has(v),
    {
        let mut m = states_new();
        let mut i: usize = 0;
        proof {
            assert(local_keys(states_in(m)) =~= first_places(locals@.take(0)));
        }
        while i < locals.len()
            invariant
                i <= locals@.len(),
                unique_locals(states_in(m)),
                local_keys(states_in(m)) == first_places(locals@.take(i as int)),
                forall|k: int|
                    0 <= k < states_in(m).len() ==> forall|w: LocalStateVariant| !(#[trigger] states_in(m)[k]).1.has(w),
            decreases locals@.len() - i,
        {
            let l = locals[i];
            let found = states_index_of(&m, l);
            proof {
                lemma_entry_of(states_in(m), l);
                assert(locals@.take(i + 1).drop_last() =~= locals@.take(i as int));
                if let Some(k) = found {
                    assert(local_keys(states_in(m))[k as int] == l);
                } else {
                    assert(!local_keys(states_in(m)).contains(l));
                }
            }
            if found.is_none() {
                let ghost old_v = states_in(m);
                states_insert(&mut m, l, StateSet::empty());
                proof {
                    assert(local_keys(states_in(m)) =~= local_keys(old_v).push(l));
                }
            }
            i = i + 1;
        }
        proof {
            assert(locals@.take(locals@.len() as int) =~= locals@);
        }
        LocalStates(m)
    }

    /// Adds to each local the states that `others` has for it.
    #[verifier::spinoff_prover]
    pub fn join(&mut self, others: &Self)
        ensures
            final(self)@ == join_spec(old(self)@, others@),
            others@ == old(self)@ ==> final(self)@ == old(self)@,
            unique_locals(final(self)@),
            final(self)@.len() == old(self)@.len(),
            forall|i: int|
                0 <= i < old(self)@.len() ==> {
                    &&& (#[trigger] final(self)@[i]).0 == old(self)@[i].0
                    &&& forall|v: LocalStateVariant|
                        final(self)@[i].1.has(v) == (old(self)@[i].1.has(v) || match entry_of(
                            others@,
                            old(self)@[i].0,
                        ) {
                            Some(k) => others@[k].1.has(v),
                            None => false,
                        })
                },
    {
        proof {
            use_type_invariant(&*self);
            law_join_with_itself(self@);
            law_join_keeps_locals(self@, others@);
        }
        let ghost s0 = self@;
        let mut i: usize = 0;
        while i < self.count()
            invariant
                i <= self@.len(),
                self@.len() == s0.len(),
                forall|k: int| i <= k < s0.len() ==> self@[k] == s0[k],
                forall|k: int|
                    0 <= k < i ==> {
                        &&& (#[trigger] self@[k]).0 == s0[k].0
                        &&& forall|v: LocalStateVariant|
                            self@[k].1.has(v) == (s0[k].1.has(v) || match entry_of(others@, s0[k].0) {
                                Some(j) => others@[j].1.has(v),
                                None => false,
                            })
                    },
            decreases s0.len() - i,
        {
            let (l, st) = self.at(i);
            proof {
                lemma_entry_of(others@, l);
            }
            assert(st == s0[i as int].1);
            assert(l == s0[i as int].0);
            match others.position(l) {
                Some(j) => {
                    let o = others.at(j).1;
                    assert(entry_of(others@, s0[i as int].0) == Some(j as int));
                    let merged = st.union(o);
                    self.set_state(i, merged);
                    assert(forall|v: LocalStateVariant|
                        #[trigger] merged.has(v) == (s0[i as int].1.has(v) || others@[j as int].1.has(v)));
                },
                None => {
                    assert(entry_of(others@, s0[i as int].0) is None);
                },
            }
            assert(self@[i as int].0 == s0[i as int].0);
            i = i + 1;
        }
        proof {
            assert forall|k: int| 0 <= k < s0.len() implies #[trigger] self@[k] == join_spec(s0, others@)[k] by {
                let a = self@[k];
                assert(a.0 == s0[k].0);
                let o = match entry_of(others@, s0[k].0) {
                    Some(j) => others@[j].1,
                    None => StateSet { uninitialized: false, initialized: false, moved: false, dropped: false },
                };
                assert(a.1.has(LocalStateVariant::Uninitialized) == (s0[k].1.has(LocalStateVariant::Uninitialized) || o.has(LocalStateVariant::Uninitialized)));
                assert(a.1.has(LocalStateVariant::Initialized) == (s0[k].1.has(LocalStateVariant::Initialized) || o.has(LocalStateVariant::Initialized)));
                assert(a.1.has(LocalStateVariant::Moved) == (s0[k].1.has(LocalStateVariant::Moved) || o.has(LocalStateVariant::Moved)));
                assert(a.1.has(LocalStateVariant::Dropped) == (s0[k].1.has(LocalStateVariant::Dropped) || o.has(LocalStateVariant::Dropped)));
            }
            assert(self@ =~= join_spec(s0, others@));
        }
    }

    /// Gives the `i`-th local the states `st`.
    fn set_state(&mut self, i: usize, st: StateSet)
        requires
            i < old(self)@.len(),
        ensures
            final(self)@ == old(self)@.update(i as int, (old(self)@[i as int].0, st)),
    {
        proof {
            use_type_invariant(&*self);
        }
        let ghost s0 = self@;
        let mut m = states_new();
        std::mem::swap(&mut m, &mut self.0);
        states_set_value(&mut m, i, st);
        proof {
            let v = states_in(m);
            assert(v =~= s0.update(i as int, (s0[i as int].0, st)));
            assert forall|a: int, b: int| 0 <= a < b < v.len() implies v[a].0 != v[b].0 by {
                assert(v[a].0 == s0[a].0 && v[b].0 == s0[b].0);
            }
        }
        self.0 = m;
    }

    /// Puts local `l` in state `v` alone.
    pub fn reset(&mut self, l: u32, v: LocalStateVariant)
        ensures
            final(self)@ == reset_spec(old(self)@, l, v),
    {
        match self.position(l) {
            Some(i) => {
                proof {
                    lemma_entry_of(self@, l);
                }
                let st = StateSet {
                    uninitialized: v == LocalStateVariant::Uninitialized,
                    initialized: v == LocalStateVariant::Initialized,
                    moved: v == LocalStateVariant::Moved,
                    dropped: v == LocalStateVariant::Dropped,
                };
                self.set_state(i, st);
            },
            None => {},
        }
    }

    /// Takes `Initialized` from local `l` and adds `Dropped`.
    pub fn mark_dropped(&mut self, l: u32)
        ensures
            final(self)@ == drop_spec(old(self)@, l),
    {
        match self.position(l) {
            Some(i) => {
                proof {
                    lemma_entry_of(self@, l);
                }
                let old_st = self.at(i).1;
                let st = StateSet { initialized: false, dropped: true, ..old_st };
                self.set_state(i, st);
            },
            None => {},
        }
    }

    /// Reads an operand: a moved local becomes `Moved`.
    pub fn visit_operand(&mut self, operand: &MirOperand)
        ensures
            final(self)@ == operand_effect(old(self)@, *operand),
    {
        match operand {
            MirOperand::Move { place } => self.reset(place.local.id, LocalStateVariant::Moved),
            _ => {},
        }
    }

    /// Reads the operands `ops` in order.
    fn visit_operands(&mut self, ops: &Vec<MirOperand>)
        ensures
            final(self)@ == operands_effect(old(self)@, ops@),
    {
        let ghost s0 = self@;
        let mut i: usize = 0;
        while i < ops.len()
            invariant
                i <= ops@.len(),
                self@ == operands_effect(s0, ops@.take(i as int)),
            decreases ops@.len() - i,
        {
            self.visit_operand(&ops[i]);
            proof {
                assert(ops@.take(i + 1).drop_last() =~= ops@.take(i as int));
            }
            i = i + 1;
        }
        proof {
            assert(ops@.take(i as int) =~= ops@);
        }
    }

    /// Evaluates a right-hand side.
    pub fn visit_rval(&mut self, rval: &MirRval)
        ensures
            final(self)@ == rval_effect(old(self)@, *rval),
    {
        match rval {
            MirRval::Use { operand } => self.visit_operand(operand),
            MirRval::Repeat { operand } => self.visit_operand(operand),
            MirRval::Cast { operand } => self.visit_operand(operand),
            MirRval::UnaryOp { operand } => self.visit_operand(operand),
            MirRval::BinaryOp { left, right } => {
                self.visit_operand(left);
                self.visit_operand(right);
            },
            MirRval::Aggregate { fields } => self.visit_operands(fields),
            MirRval::Ref { .. } => {},
            MirRval::Other => {},
        }
    }

    /// Applies a statement.
    pub fn visit_statement(&mut self, statement: &MirStatement)
        ensures
            final(self)@ == statement_effect(old(self)@, statement.kind),
    {
        match &statement.kind {
            MirStatementKind::Assign { place, rval } => {
                self.visit_rval(rval);
                self.reset(place.local.id, LocalStateVariant::Initialized);
            },
            MirStatementKind::StorageDead { local } => {
                self.reset(local.id, LocalStateVariant::Uninitialized);
            },
            _ => {},
        }
    }

    /// Applies a terminator.
    pub fn visit_terminator(&mut self, terminator: &MirTerminator)
        ensures
            final(self)@ == terminator_effect(old(self)@, terminator.kind),
    {
        match &terminator.kind {
            MirTerminatorKind::SwitchInt { discr, .. } => self.visit_operand(discr),
            MirTerminatorKind::Drop { place, .. } => self.mark_dropped(place.local.id),
            MirTerminatorKind::Call { func, args, destination, .. } => {
                self.visit_operand(func);
                self.visit_operands(args);
                self.reset(destination.local.id, LocalStateVariant::Initialized);
            },
            MirTerminatorKind::TailCall { func, args, .. } => {
                self.visit_operand(func);
                self.visit_operands(args);
            },
            MirTerminatorKind::Assert { cond, .. } => self.visit_operand(cond),
            _ => {},
        }
    }
}


/// The two state lists are for the same locals, in the same order.
pub open spec fn same_locals(a: Seq<(u32, StateSet)>, b: Seq<(u32, StateSet)>) -> bool {
    &&& a.len() == b.len()
    &&& forall|i: int| 0 <= i < a.len() ==> (#[trigger] a[i]).0 == b[i].0
}

proof fn lemma_update_local_keeps_locals(s: Seq<(u32, StateSet)>, l: u32, st: StateSet)
    ensures
        same_locals(update_local(s, l, st), s),
{
    lemma_entry_of(s, l);
}

proof fn lemma_operand_keeps_locals(s: Seq<(u32, StateSet)>, op: MirOperand)
    ensures
        same_locals(operand_effect(s, op), s),
{
    if let MirOperand::Move { place } = op {
        lemma_update_local_keeps_locals(s, place.local.id, only(LocalStateVariant::Moved));
    }
}

proof fn lemma_operands_keep_locals(s: Seq<(u32, StateSet)>, ops: Seq<MirOperand>)
    ensures
        same_locals(operands_effect(s, ops), s),
    decreases ops.len(),
{
    if ops.len() > 0 {
        lemma_operands_keep_locals(s, ops.drop_last());
        lemma_operand_keeps_locals(operands_effect(s, ops.drop_last()), ops.last());
    }
}

proof fn lemma_statement_keeps_locals(s: Seq<(u32, StateSet)>, st: MirStatementKind)
    ensures
        same_locals(statement_effect(s, st), s),
{
    match st {
        MirStatementKind::Assign { place, rval } => {
            let r = rval_effect(s, rval);
            match rval {
                MirRval::Use { operand } => lemma_operand_keeps_locals(s, operand),
                MirRval::Repeat { operand } => lemma_operand_keeps_locals(s, operand),
                MirRval::Cast { operand } => lemma_operand_keeps_locals(s, operand),
                MirRval::UnaryOp { operand } => lemma_operand_keeps_locals(s, operand),
                MirRval::BinaryOp { left, right } => {
                    lemma_operand_keeps_locals(s, left);
                    lemma_operand_keeps_locals(operand_effect(s, left), right);
                },
                MirRval::Aggregate { fields } => lemma_operands_keep_locals(s, fields@),
                _ => {},
            }
            lemma_update_local_keeps_locals(r, place.local.id, only(LocalStateVariant::Initialized));
        },
        MirStatementKind::StorageDead { local } => {
            lemma_update_local_keeps_locals(s, local.id, only(LocalStateVariant::Uninitialized));
        },
        _ => {},
    }
}

proof fn lemma_terminator_keeps_locals(s: Seq<(u32, StateSet)>, t: MirTerminatorKind)
    ensures
        same_locals(terminator_effect(s, t), s),
{
    match t {
        MirTerminatorKind::SwitchInt { discr, .. } => lemma_operand_keeps_locals(s, discr),
        MirTerminatorKind::Drop { place, .. } => {
            lemma_entry_of(s, place.local.id);
            if let Some(i) = entry_of(s, place.local.id) {
                lemma_update_local_keeps_locals(
                    s,
                    place.local.id,
                    StateSet { initialized: false, dropped: true, ..s[i].1 },
                );
            }
        },
        MirTerminatorKind::Call { func, args, destination, .. } => {
            lemma_operand_keeps_locals(s, func);
            lemma_operands_keep_locals(operand_effect(s, func), args@);
            lemma_update_local_keeps_locals(
                operands_effect(operand_effect(s, func), args@),
                destination.local.id,
                only(LocalStateVariant::Initialized),
            );
        },
        MirTerminatorKind::TailCall { func, args, .. } => {
            lemma_operand_keeps_locals(s, func);
            lemma_operands_keep_locals(operand_effect(s, func), args@);
        },
        MirTerminatorKind::Assert { cond, .. } => lemma_operand_keeps_locals(s, cond),
        _ => {},
    }
}

/// A basic block of a body: its statements and, where it has one, its
/// terminator.
#[derive(Clone, Debug)]
pub struct FlowBlock {
    pub statements: Vec<MirStatement>,
    pub terminator: Option<MirTerminator>,
}

/// The number of locations in a block: one per statement, and one for the
/// terminator where there is one.
pub open spec fn location_count(b: FlowBlock) -> int {
    b.statements@.len() + if b.terminator is Some {
        1int
    } else {
        0int
    }
}

/// The locations of the blocks `bs`, block by block, each block's in order
/// of statement index.
pub open spec fn locations_of(bs: Seq<(BasicBlockId, FlowBlock)>) -> Seq<(usize, usize)>
    decreases bs.len(),
{
    if bs.len() == 0 {
        Seq::empty()
    } else {
        locations_of(bs.drop_last()) + Seq::new(
            location_count(bs.last().1) as nat,
            |k: int| (bs.last().0.0, k as usize),
        )
    }
}

impl LocalStates {
    /// A copy of the states.
    pub fn copy(&self) -> (r: Self)
        ensures
            r@ == self@,
    {
        proof {
            use_type_invariant(self);
        }
        let mut m = states_new();
        let n = self.count();
        let mut i: usize = 0;
        proof {
            assert(states_in(m) =~= self@.take(0));
        }
        while i < n
            invariant
                n == self@.len(),
                i <= n,
                unique_locals(self@),
                states_in(m) == self@.take(i as int),
            decreases n - i,
        {
            let (l, st) = self.at(i);
            proof {
                lemma_entry_of(states_in(m), l);
                if let Some(k) = entry_of(states_in(m), l) {
                    assert(self@[k].0 == self@[i as int].0);
                }
            }
            states_insert(&mut m, l, st);
            i = i + 1;
            proof {
                assert(states_in(m) =~= self@.take(i as int));
            }
        }
        proof {
            assert(self@.take(n as int) =~= self@);
        }
        LocalStates(m)
    }

    /// Whether the two hold the same states for the same locals, in order.
    pub fn same_as(&self, other: &Self) -> (r: bool)
        ensures
            r == (self@ == other@),
    {
        if self.count() != other.count() {
            return false;
        }
        let mut i: usize = 0;
        while i < self.count()
            invariant
                i <= self@.len(),
                self@.len() == other@.len(),
                forall|k: int| 0 <= k < i ==> self@[k] == other@[k],
            decreases self@.len() - i,
        {
            let (l1, s1) = self.at(i);
            let (l2, s2) = other.at(i);
            if l1 != l2 || s1 != s2 {
                return false;
            }
            i = i + 1;
        }
        proof {
            assert(self@ =~= other@);
        }
        true
    }
}

/// The position of the first block with id `id`.
/// The first block of `bs`, from the `i`-th on, with id `id`.
pub open spec fn first_block_from(bs: Seq<(BasicBlockId, FlowBlock)>, id: BasicBlockId, i: int) -> Option<int>
    decreases bs.len() - i,
{
    if i < 0 || i >= bs.len() {
        None
    } else if bs[i].0 == id {
        Some(i)
    } else {
        first_block_from(bs, id, i + 1)
    }
}

/// The first of `locs`, from the `i`-th on, that is `loc`.
pub open spec fn first_loc_from(locs: Seq<(usize, usize)>, loc: (usize, usize), i: int) -> Option<int>
    decreases locs.len() - i,
{
    if i < 0 || i >= locs.len() {
        None
    } else if locs[i] == loc {
        Some(i)
    } else {
        first_loc_from(locs, loc, i + 1)
    }
}

proof fn lemma_first_block_from(bs: Seq<(BasicBlockId, FlowBlock)>, id: BasicBlockId, i: int)
    ensures
        first_block_from(bs, id, i) matches Some(k) ==> i <= k < bs.len() && bs[k].0 == id,
    decreases bs.len() - i,
{
    if 0 <= i < bs.len() && bs[i].0 != id {
        lemma_first_block_from(bs, id, i + 1);
    }
}

proof fn lemma_first_loc_from(locs: Seq<(usize, usize)>, loc: (usize, usize), i: int)
    ensures
        first_loc_from(locs, loc, i) matches Some(k) ==> i <= k < locs.len() && locs[k] == loc,
    decreases locs.len() - i,
{
    if 0 <= i < locs.len() && locs[i] != loc {
        lemma_first_loc_from(locs, loc, i + 1);
    }
}

fn find_block(blocks: &Vec<(BasicBlockId, FlowBlock)>, id: BasicBlockId) -> (r: Option<usize>)
    ensures
        r matches Some(i) ==> i < blocks@.len() && blocks@[i as int].0 == id,
        match r {
            Some(i) => first_block_from(blocks@, id, 0) == Some(i as int),
            None => first_block_from(blocks@, id, 0) is None,
        },
{
    let mut i: usize = 0;
    while i < blocks.len()
        invariant
            i <= blocks@.len(),
            first_block_from(blocks@, id, 0) == first_block_from(blocks@, id, i as int),
        decreases blocks@.len() - i,
    {
        if blocks[i].0 == id {
            return Some(i);
        }
        i = i + 1;
    }
    None
}

/// The position of the first location `loc` among `locs`.
fn find_location(locs: &Vec<(usize, usize)>, loc: (usize, usize)) -> (r: Option<usize>)
    ensures
        r matches Some(i) ==> i < locs@.len() && locs@[i as int] == loc,
        match r {
            Some(i) => first_loc_from(locs@, loc, 0) == Some(i as int),
            None => first_loc_from(locs@, loc, 0) is None,
        },
{
    let mut i: usize = 0;
    while i < locs.len()
        invariant
            i <= locs@.len(),
            first_loc_from(locs@, loc, 0) == first_loc_from(locs@, loc, i as int),
        decreases locs@.len() - i,
    {
        if locs[i].0 == loc.0 && locs[i].1 == loc.1 {
            return Some(i);
        }
        i = i + 1;
    }
    None
}

/// The states of each location of a list, as sequences.
pub open spec fn views(v: Seq<LocalStates>) -> Seq<Seq<(u32, StateSet)>> {
    v.map_values(|s: LocalStates| s@)
}

/// One more visit, saturating.
pub open spec fn bump(c: usize) -> usize {
    if c < usize::MAX {
        (c + 1) as usize
    } else {
        c
    }
}

/// Walking the statements of block `bb` (its id's index `id`) from the
/// `si`-th on, carrying the states `prev`, with `states` and `visits` at
/// each location of `locs`: each statement's location joins `prev` and
/// applies the statement, and its result is carried on. The walk is cut
/// at a location walked ten times, or walked before and holding `prev`
/// already. Gives the states and visits after, the states carried, and
/// whether the walk was cut.
pub open spec fn walk_stmts(
    locs: Seq<(usize, usize)>,
    bb: FlowBlock,
    id: usize,
    si: int,
    prev: Seq<(u32, StateSet)>,
    states: Seq<Seq<(u32, StateSet)>>,
    visits: Seq<usize>,
) -> (Seq<Seq<(u32, StateSet)>>, Seq<usize>, Seq<(u32, StateSet)>, bool)
    decreases bb.statements@.len() - si,
{
    if si < 0 || si >= bb.statements@.len() {
        (states, visits, prev, false)
    } else {
        let at = first_loc_from(locs, (id, si as usize), 0);
        let seen: usize = match at {
            Some(k) => visits[k],
            None => 0,
        };
        if 10 <= seen {
            (states, visits, prev, true)
        } else {
            match at {
                None => walk_stmts(locs, bb, id, si + 1, prev, states, visits),
                Some(k) => if 0 < seen && states[k] == prev {
                    (states, visits, prev, true)
                } else {
                    let cur = statement_effect(join_spec(states[k], prev), bb.statements@[si].kind);
                    walk_stmts(locs, bb, id, si + 1, cur, states.update(k, cur), visits.update(k, bump(visits[k])))
                },
            }
        }
    }
}

fn walk_statements(
    bb: &FlowBlock,
    id: usize,
    locs: &Vec<(usize, usize)>,
    prev: &mut LocalStates,
    states: &mut Vec<LocalStates>,
    visited: &mut Vec<usize>,
    Ghost(base): Ghost<Seq<(u32, StateSet)>>,
) -> (cut: bool)
    requires
        old(states)@.len() == locs@.len(),
        old(visited)@.len() == locs@.len(),
        forall|k: int| 0 <= k < old(states)@.len() ==> same_locals((#[trigger] old(states)@[k])@, base),
    ensures
        (views(final(states)@), final(visited)@, final(prev)@, cut) == walk_stmts(
            locs@,
            *bb,
            id,
            0,
            old(prev)@,
            views(old(states)@),
            old(visited)@,
        ),
        final(states)@.len() == locs@.len(),
        final(visited)@.len() == locs@.len(),
        forall|k: int| 0 <= k < final(states)@.len() ==> same_locals((#[trigger] final(states)@[k])@, base),
{
    let ghost goal = walk_stmts(locs@, *bb, id, 0, prev@, views(states@), visited@);
    let mut si: usize = 0;
    let mut cut = false;
    while si < bb.statements.len() && !cut
        invariant
            si <= bb.statements@.len(),
            states@.len() == locs@.len(),
            visited@.len() == locs@.len(),
            forall|k: int| 0 <= k < states@.len() ==> same_locals((#[trigger] states@[k])@, base),
            !cut ==> goal == walk_stmts(locs@, *bb, id, si as int, prev@, views(states@), visited@),
            cut ==> goal == (views(states@), visited@, prev@, true),
        decreases bb.statements@.len() - si + (if cut { 0int } else { 1int }),
    {
        let at = find_location(locs, (id, si));
        let seen = match at {
            Some(k) => visited[k],
            None => 0,
        };
        proof {
            if let Some(k) = at {
                assert(views(states@)[k as int] == states@[k as int]@);
            }
        }
        if 10 <= seen {
            cut = true;
        } else {
            match at {
                Some(k) => {
                    if 0 < seen && states[k].same_as(&*prev) {
                        cut = true;
                    } else {
                        let ghost vs0 = views(states@);
                        let mut cur = states[k].copy();
                        cur.join(&*prev);
                        let ghost joined = cur@;
                        cur.visit_statement(&bb.statements[si]);
                        proof {
                            lemma_statement_keeps_locals(joined, bb.statements@[si as int].kind);
                        }
                        *prev = cur.copy();
                        let ghost cv = cur@;
                        states.set(k, cur);
                        let c = visited[k];
                        visited.set(k, if c < usize::MAX { c + 1 } else { c });
                        proof {
                            assert(views(states@) =~= vs0.update(k as int, cv));
                        }
                        si = si + 1;
                    }
                },
                None => {
                    si = si + 1;
                },
            }
        }
    }
    cut
}

/// Where a walk stands: the blocks still to walk, each with the states
/// carried into it; the states at each location; and how many times each
/// location was walked.
pub struct WalkState {
    pub queue: Seq<(BasicBlockId, Seq<(u32, StateSet)>)>,
    pub states: Seq<Seq<(u32, StateSet)>>,
    pub visits: Seq<usize>,
}

/// The blocks to walk and the states they carry, as sequences.
pub open spec fn queue_view(d: Seq<(BasicBlockId, LocalStates)>) -> Seq<(BasicBlockId, Seq<(u32, StateSet)>)> {
    d.map_values(|e: (BasicBlockId, LocalStates)| (e.0, e.1@))
}

/// Each of the blocks `ids`, carrying the states `s`.
pub open spec fn carried(ids: Seq<BasicBlockId>, s: Seq<(u32, StateSet)>) -> Seq<(BasicBlockId, Seq<(u32, StateSet)>)> {
    ids.map_values(|b: BasicBlockId| (b, s))
}

/// One step of a walk: the first block waiting is walked with the states
/// it carries (see `walk_stmts`); unless that was cut, its terminator's
/// location joins the states and applies the terminator, and each
/// successor is queued with the result. No step where nothing waits or
/// the block is not in the body.
pub open spec fn walk_round(blocks: Seq<(BasicBlockId, FlowBlock)>, locs: Seq<(usize, usize)>, w: WalkState) -> Option<WalkState> {
    if w.queue.len() == 0 {
        None
    } else {
        let (block, prev) = w.queue[0];
        let rest = w.queue.drop_first();
        match first_block_from(blocks, block, 0) {
            None => None,
            Some(bi) => {
                let bb = blocks[bi].1;
                let (states, visits, prev2, cut) = walk_stmts(locs, bb, block.0, 0, prev, w.states, w.visits);
                if cut {
                    Some(WalkState { queue: rest, states, visits })
                } else {
                    match bb.terminator {
                        None => Some(WalkState { queue: rest, states, visits }),
                        Some(t) => match first_loc_from(locs, (block.0, bb.statements@.len() as usize), 0) {
                            Some(k) => {
                                let cur = terminator_effect(join_spec(states[k], prev2), t.kind);
                                Some(
                                    WalkState {
                                        queue: rest + carried(successors_of(t.kind), cur),
                                        states: states.update(k, cur),
                                        visits: visits.update(k, bump(visits[k])),
                                    },
                                )
                            },
                            None => Some(WalkState { queue: rest + carried(successors_of(t.kind), prev2), states, visits }),
                        },
                    }
                }
            },
        }
    }
}

/// At most `fuel` steps of a walk, stopping early where no step is left.
pub open spec fn walk(blocks: Seq<(BasicBlockId, FlowBlock)>, locs: Seq<(usize, usize)>, w: WalkState, fuel: nat) -> WalkState
    decreases fuel,
{
    if fuel == 0 {
        w
    } else {
        match walk_round(blocks, locs, w) {
            None => w,
            Some(w2) => walk(blocks, locs, w2, (fuel - 1) as nat),
        }
    }
}

/// The set with no state.
pub open spec fn no_state() -> StateSet {
    StateSet { uninitialized: false, initialized: false, moved: false, dropped: false }
}

/// The locals `locals`, each with the states `st`.
pub open spec fn all_in(locals: Seq<u32>, st: StateSet) -> Seq<(u32, StateSet)> {
    locals.map_values(|l: u32| (l, st))
}

/// The start of a walk: the first block waits with every local
/// uninitialized; every location has no state and no visit yet.
pub open spec fn walk_start(blocks: Seq<(BasicBlockId, FlowBlock)>, locals: Seq<u32>) -> WalkState {
    let n = locations_of(blocks).len();
    WalkState {
        queue: seq![(blocks[0].0, all_in(locals, only(LocalStateVariant::Uninitialized)))],
        states: Seq::new(n, |k: int| all_in(locals, no_state())),
        visits: Seq::new(n, |k: int| 0usize),
    }
}

/// The states at each location once the body is walked: at most ten steps
/// per block from the start.
pub open spec fn walked_states(blocks: Seq<(BasicBlockId, FlowBlock)>, locals: Seq<u32>) -> Seq<Seq<(u32, StateSet)>> {
    if blocks.len() == 0 {
        Seq::empty()
    } else {
        walk(blocks, locations_of(blocks), walk_start(blocks, locals), (10 * blocks.len()) as nat).states
    }
}

/// The states that reach each location of a body, found by walking its
/// control flow from the first block with every local uninitialized.
///
/// Blocks are walked in the order they are reached; each location joins the
/// states carried into it and then applies its statement or terminator, and
/// the states after a terminator are carried to each successor. A location
/// is walked at most ten times, and a walk that reaches a location again
/// with nothing changed stops there; the whole walk takes at most ten steps
/// per block.
///
/// The result has one entry per location of the body, block by block, each
/// with the states of `locals` in the order given: exactly the states that
/// `walked_states` gives.
pub fn walk_cfg(blocks: &Vec<(BasicBlockId, FlowBlock)>, locals: &Vec<u32>) -> (r: (
    Vec<(usize, usize)>,
    Vec<LocalStates>,
))
    requires
        distinct_locals(locals@),
        blocks@.len() * 10 <= usize::MAX,
        forall|i: int| 0 <= i < blocks@.len() ==> (#[trigger] blocks@[i]).1.statements@.len() < usize::MAX,
    ensures
        r.0@ == locations_of(blocks@),
        views(r.1@) == walked_states(blocks@, locals@),
        r.1@.len() == r.0@.len(),
        forall|k: int|
            0 <= k < r.1@.len() ==> {
                &&& (#[trigger] r.1@[k])@.len() == locals@.len()
                &&& forall|i: int| 0 <= i < locals@.len() ==> r.1@[k]@[i].0 == locals@[i]
            },
{
    let base = LocalStates::init_from_locals(locals);
    proof {
        lemma_first_places_distinct(locals@);
        assert forall|i: int| 0 <= i < locals@.len() implies (#[trigger] base@[i]).0 == locals@[i] by {
            assert(local_keys(base@)[i] == locals@[i]);
        }
    }
    let mut locs: Vec<(usize, usize)> = Vec::new();
    let mut states: Vec<LocalStates> = Vec::new();
    let mut b: usize = 0;
    while b < blocks.len()
        invariant
            b <= blocks@.len(),
            forall|i: int| 0 <= i < blocks@.len() ==> (#[trigger] blocks@[i]).1.statements@.len() < usize::MAX,
            locs@ == locations_of(blocks@.take(b as int)),
            states@.len() == locs@.len(),
            base@.len() == locals@.len(),
            forall|i: int| 0 <= i < locals@.len() ==> (#[trigger] base@[i]).0 == locals@[i],
            forall|k: int| 0 <= k < states@.len() ==> (#[trigger] states@[k])@ == base@,
        decreases blocks@.len() - b,
    {
        let (id, bb) = (&blocks[b].0, &blocks[b].1);
        let n = bb.statements.len() + if bb.terminator.is_some() {
            1
        } else {
            0
        };
        let ghost before = locs@;
        let mut k: usize = 0;
        while k < n
            invariant
                k <= n,
                n == location_count(blocks@[b as int].1),
                *id == blocks@[b as int].0,
                locs@ == before + Seq::new(k as nat, |j: int| (id.0, j as usize)),
                states@.len() == locs@.len(),
                forall|j: int| 0 <= j < states@.len() ==> (#[trigger] states@[j])@ == base@,
            decreases n - k,
        {
            locs.push((id.0, k));
            states.push(base.copy());
            k = k + 1;
            proof {
                assert(locs@ =~= before + Seq::new(k as nat, |j: int| (id.0, j as usize)));
            }
        }
        proof {
            assert(blocks@.take(b + 1).drop_last() =~= blocks@.take(b as int));
        }
        b = b + 1;
    }
    proof {
        assert(blocks@.take(b as int) =~= blocks@);
    }
    if blocks.len() == 0 {
        proof {
            assert(views(states@) =~= Seq::<Seq<(u32, StateSet)>>::empty());
        }
        return (locs, states);
    }
    let mut visited: Vec<usize> = Vec::new();
    let mut v: usize = 0;
    while v < locs.len()
        invariant
            v <= locs@.len(),
            visited@.len() == v,
            forall|t: int| 0 <= t < v ==> visited@[t] == 0,
        decreases locs@.len() - v,
    {
        visited.push(0);
        v = v + 1;
    }
    proof {
        assert forall|i: int| 0 <= i < base@.len() implies #[trigger] base@[i] == (locals@[i], no_state()) by {
            assert(!base@[i].1.has(LocalStateVariant::Uninitialized));
            assert(!base@[i].1.has(LocalStateVariant::Initialized));
            assert(!base@[i].1.has(LocalStateVariant::Moved));
            assert(!base@[i].1.has(LocalStateVariant::Dropped));
        }
        assert(base@ =~= all_in(locals@, no_state()));
    }
    let mut start = base.copy();
    let mut j: usize = 0;
    while j < start.count()
        invariant
            j <= start@.len(),
            start@.len() == locals@.len(),
            base@ == all_in(locals@, no_state()),
            forall|t: int| 0 <= t < j ==> #[trigger] start@[t] == (locals@[t], only(LocalStateVariant::Uninitialized)),
            forall|t: int| j <= t < start@.len() ==> #[trigger] start@[t] == base@[t],
        decreases start@.len() - j,
    {
        let (l, st) = start.at(j);
        let u = st.union(only_state(LocalStateVariant::Uninitialized));
        proof {
            assert(u.has(LocalStateVariant::Uninitialized));
            assert(!u.has(LocalStateVariant::Initialized));
            assert(!u.has(LocalStateVariant::Moved));
            assert(!u.has(LocalStateVariant::Dropped));
        }
        start.set_state(j, u);
        j = j + 1;
    }
    proof {
        assert(start@ =~= all_in(locals@, only(LocalStateVariant::Uninitialized)));
    }
    let mut next_blocks: VecDeque<(BasicBlockId, LocalStates)> = VecDeque::new();
    next_blocks.push_back((blocks[0].0, start));
    let limit = 10 * blocks.len();
    let ghost w0 = WalkState { queue: queue_view(next_blocks@), states: views(states@), visits: visited@ };
    proof {
        let ws = walk_start(blocks@, locals@);
        assert(w0.queue =~= ws.queue);
        assert(w0.states =~= ws.states);
        assert(w0.visits =~= ws.visits);
    }
    let ghost goal = walk(blocks@, locs@, w0, limit as nat);
    let mut round: usize = 0;
    while round < limit
        invariant_except_break
            goal == walk(
                blocks@,
                locs@,
                WalkState { queue: queue_view(next_blocks@), states: views(states@), visits: visited@ },
                (limit - round) as nat,
            ),
        invariant
            round <= limit,
            states@.len() == locs@.len(),
            visited@.len() == locs@.len(),
            base@.len() == locals@.len(),
            forall|i: int| 0 <= i < locals@.len() ==> (#[trigger] base@[i]).0 == locals@[i],
            forall|k: int| 0 <= k < states@.len() ==> same_locals((#[trigger] states@[k])@, base@),
        ensures
            goal.states == views(states@),
        decreases limit - round,
    {
        let ghost w = WalkState { queue: queue_view(next_blocks@), states: views(states@), visits: visited@ };
        let ghost fuel = (limit - round) as nat;
        round = round + 1;
        let ghost q0 = next_blocks@;
        let (block, mut prev) = match next_blocks.pop_front() {
            Some(e) => e,
            None => {
                proof {
                    assert(walk_round(blocks@, locs@, w) is None);
                }
                break;
            },
        };
        proof {
            assert(queue_view(next_blocks@) =~= w.queue.drop_first());
            assert(w.queue[0] == (block, prev@));
        }
        let bi = match find_block(blocks, block) {
            Some(i) => i,
            None => {
                proof {
                    assert(walk_round(blocks@, locs@, w) is None);
                }
                break;
            },
        };
        let bb = &blocks[bi].1;
        let cut = walk_statements(bb, block.0, &locs, &mut prev, &mut states, &mut visited, Ghost(base@));
        if cut {
            proof {
                assert(walk_round(blocks@, locs@, w) == Some(
                    WalkState { queue: queue_view(next_blocks@), states: views(states@), visits: visited@ },
                ));
            }
            continue;
        }
        let ghost carried0 = prev@;
        let ghost states1 = views(states@);
        let ghost visits1 = visited@;
        let ghost rest = queue_view(next_blocks@);
        if let Some(term) = &bb.terminator {
            let loc = (block.0, bb.statements.len());
            let at = find_location(&locs, loc);
            if let Some(k) = at {
                proof {
                    assert(states1[k as int] == states@[k as int]@);
                }
                let mut cur = states[k].copy();
                cur.join(&prev);
                let ghost joined = cur@;
                cur.visit_terminator(term);
                proof {
                    lemma_terminator_keeps_locals(joined, term.kind);
                }
                prev = cur.copy();
                let ghost cv = cur@;
                states.set(k, cur);
                let c = visited[k];
                visited.set(k, if c < usize::MAX { c + 1 } else { c });
                proof {
                    assert(views(states@) =~= states1.update(k as int, cv));
                }
            }
            let succ = term.successors();
            let mut q: usize = 0;
            while q < succ.len()
                invariant
                    q <= succ@.len(),
                    queue_view(next_blocks@) == rest + carried(succ@.take(q as int), prev@),
                decreases succ@.len() - q,
            {
                let ghost before = next_blocks@;
                next_blocks.push_back((succ[q], prev.copy()));
                q = q + 1;
                proof {
                    assert(queue_view(next_blocks@) =~= queue_view(before).push((succ@[q - 1], prev@)));
                    assert(carried(succ@.take(q as int), prev@) =~= carried(succ@.take(q - 1), prev@).push((succ@[q - 1], prev@)));
                }
            }
            proof {
                assert(succ@.take(q as int) =~= succ@);
                assert(walk_round(blocks@, locs@, w) == Some(
                    WalkState { queue: queue_view(next_blocks@), states: views(states@), visits: visited@ },
                ));
            }
        } else {
            proof {
                assert(walk_round(blocks@, locs@, w) == Some(
                    WalkState { queue: queue_view(next_blocks@), states: views(states@), visits: visited@ },
                ));
            }
        }
    }
    (locs, states)
}


/// The states of a local count: exactly `{Initialized}` where `definitely`
/// (every path leaves it initialized), and holding `Initialized` otherwise
/// (some path does).
pub open spec fn qualifies(st: StateSet, definitely: bool) -> bool {
    if definitely {
        st == only(LocalStateVariant::Initialized)
    } else {
        st.has(LocalStateVariant::Initialized)
    }
}

/// The location `(block, index)` as a MIR location.
pub open spec fn mir_location(l: (usize, usize)) -> Location {
    Location { block: l.0 as u32, statement_index: l.1 }
}

/// Position `x` lies in the range of some location at which the `i`th local
/// qualifies.
pub open spec fn local_covers(
    locs: Seq<(usize, usize)>,
    states: Seq<LocalStates>,
    m: Map<Location, Range>,
    i: int,
    definitely: bool,
    x: int,
) -> bool {
    exists|k: int|
        0 <= k < locs.len() && qualifies((#[trigger] states[k])@[i].1, definitely) && m.dom().contains(
            mir_location(locs[k]),
        ) && m[mir_location(locs[k])].has(x)
}

/// Position `x` lies in the range of one of the first `n` locations at
/// which the `i`th local qualifies.
pub open spec fn covered_upto(
    locs: Seq<(usize, usize)>,
    states: Seq<LocalStates>,
    m: Map<Location, Range>,
    i: int,
    definitely: bool,
    n: int,
    x: int,
) -> bool {
    exists|k: int|
        0 <= k < n && qualifies((#[trigger] states[k])@[i].1, definitely) && m.dom().contains(
            mir_location(locs[k]),
        ) && m[mir_location(locs[k])].has(x)
}

fn qualifies_exec(st: StateSet, definitely: bool) -> (r: bool)
    ensures
        r == qualifies(st, definitely),
{
    if definitely {
        st.is_definitely_live()
    } else {
        st.is_maybe_initialized()
    }
}

/// For each local, the ranges of the locations at which it qualifies (see
/// `qualifies`), merged.
fn local_ranges(
    locs: &Vec<(usize, usize)>,
    states: &Vec<LocalStates>,
    location_ranges: &LocationRanges,
    locals: &Vec<u32>,
    definitely: bool,
) -> (r: Vec<(u32, Vec<Range>)>)
    requires
        states@.len() == locs@.len(),
        forall|k: int| 0 <= k < locs@.len() ==> (#[trigger] locs@[k]).0 <= u32::MAX,
        forall|k: int| 0 <= k < states@.len() ==> (#[trigger] states@[k])@.len() == locals@.len(),
    ensures
        r@.len() == locals@.len(),
        forall|i: int|
            0 <= i < locals@.len() ==> {
                &&& (#[trigger] r@[i]).0 == locals@[i]
                &&& separated(r@[i].1@)
                &&& forall|x: int| covers(r@[i].1@, x) <==> local_covers(locs@, states@, location_ranges@, i, definitely, x)
            },
{
    let mut out: Vec<(u32, Vec<Range>)> = Vec::new();
    let mut i: usize = 0;
    while i < locals.len()
        invariant
            i <= locals@.len(),
            out@.len() == i,
            states@.len() == locs@.len(),
            forall|k: int| 0 <= k < locs@.len() ==> (#[trigger] locs@[k]).0 <= u32::MAX,
            forall|k: int| 0 <= k < states@.len() ==> (#[trigger] states@[k])@.len() == locals@.len(),
            forall|j: int|
                0 <= j < i ==> {
                    &&& (#[trigger] out@[j]).0 == locals@[j]
                    &&& separated(out@[j].1@)
                    &&& forall|x: int| covers(out@[j].1@, x) <==> local_covers(locs@, states@, location_ranges@, j, definitely, x)
                },
        decreases locals@.len() - i,
    {
        let mut v: Vec<Range> = Vec::new();
        let mut k: usize = 0;
        while k < locs.len()
            invariant
                i < locals@.len(),
                k <= locs@.len(),
                states@.len() == locs@.len(),
                forall|t: int| 0 <= t < locs@.len() ==> (#[trigger] locs@[t]).0 <= u32::MAX,
                forall|t: int| 0 <= t < states@.len() ==> (#[trigger] states@[t])@.len() == locals@.len(),
                forall|x: int|
                    covers(v@, x) <==> covered_upto(locs@, states@, location_ranges@, i as int, definitely, k as int, x),
            decreases locs@.len() - k,
        {
            let ghost v0 = v@;
            let st = states[k].at(i).1;
            if qualifies_exec(st, definitely) {
                let loc = Location { block: locs[k].0 as u32, statement_index: locs[k].1 };
                assert(loc == mir_location(locs@[k as int]));
                match location_ranges.get(&loc) {
                    Some(r) => {
                        let ghost before = v@;
                        v.push(r);
                        proof {
                            assert forall|x: int| covers(v@, x) <==> (covers(before, x) || r.has(x)) by {
                                if covers(v@, x) {
                                    let j = choose|j: int| 0 <= j < v@.len() && (#[trigger] v@[j]).has(x);
                                    if j < before.len() {
                                        assert(before[j] == v@[j]);
                                    }
                                }
                                if covers(before, x) {
                                    let j = choose|j: int| 0 <= j < before.len() && (#[trigger] before[j]).has(x);
                                    assert(v@[j] == before[j]);
                                }
                                if r.has(x) {
                                    assert(v@[before.len() as int] == r);
                                }
                            }
                        }
                    },
                    None => {},
                }
            }
            proof {
                let m = location_ranges@;
                let l = mir_location(locs@[k as int]);
                let here = qualifies(states@[k as int]@[i as int].1, definitely) && m.dom().contains(l);
                assert forall|x: int|
                    covers(v@, x) <==> covered_upto(locs@, states@, m, i as int, definitely, k + 1, x) by {
                    if covered_upto(locs@, states@, m, i as int, definitely, k + 1, x) {
                        let t = choose|t: int|
                            0 <= t < k + 1 && qualifies((#[trigger] states@[t])@[i as int].1, definitely)
                                && m.dom().contains(mir_location(locs@[t])) && m[mir_location(locs@[t])].has(x);
                        if t < k {
                            assert(covered_upto(locs@, states@, m, i as int, definitely, k as int, x));
                        }
                    }
                    if covered_upto(locs@, states@, m, i as int, definitely, k as int, x) {
                        let t = choose|t: int|
                            0 <= t < k && qualifies((#[trigger] states@[t])@[i as int].1, definitely)
                                && m.dom().contains(mir_location(locs@[t])) && m[mir_location(locs@[t])].has(x);
                        assert(0 <= t < k + 1);
                    }
                    if here && m[l].has(x) {
                        assert(qualifies(states@[k as int]@[i as int].1, definitely));
                    }
                }
            }
            k = k + 1;
        }
        let merged = eliminated_ranges(v);
        out.push((locals[i], merged));
        i = i + 1;
    }
    out
}

/// For each local, the ranges where it is definitely initialized: the
/// locations where every path leaves it in the state `Initialized` alone.
pub fn get_definitely_lives(
    locs: &Vec<(usize, usize)>,
    states: &Vec<LocalStates>,
    location_ranges: &LocationRanges,
    locals: &Vec<u32>,
) -> (r: Vec<(u32, Vec<Range>)>)
    requires
        states@.len() == locs@.len(),
        forall|k: int| 0 <= k < locs@.len() ==> (#[trigger] locs@[k]).0 <= u32::MAX,
        forall|k: int| 0 <= k < states@.len() ==> (#[trigger] states@[k])@.len() == locals@.len(),
    ensures
        r@.len() == locals@.len(),
        forall|i: int|
            0 <= i < locals@.len() ==> {
                &&& (#[trigger] r@[i]).0 == locals@[i]
                &&& separated(r@[i].1@)
                &&& forall|x: int| covers(r@[i].1@, x) <==> local_covers(locs@, states@, location_ranges@, i, true, x)
            },
{
    local_ranges(locs, states, location_ranges, locals, true)
}

/// For each local, the ranges where it is initialized on at least one path,
/// maybe moved, dropped or uninitialized on others.
pub fn get_maybe_initialized(
    locs: &Vec<(usize, usize)>,
    states: &Vec<LocalStates>,
    location_ranges: &LocationRanges,
    locals: &Vec<u32>,
) -> (r: Vec<(u32, Vec<Range>)>)
    requires
        states@.len() == locs@.len(),
        forall|k: int| 0 <= k < locs@.len() ==> (#[trigger] locs@[k]).0 <= u32::MAX,
        forall|k: int| 0 <= k < states@.len() ==> (#[trigger] states@[k])@.len() == locals@.len(),
    ensures
        r@.len() == locals@.len(),
        forall|i: int|
            0 <= i < locals@.len() ==> {
                &&& (#[trigger] r@[i]).0 == locals@[i]
                &&& separated(r@[i].1@)
                &&& forall|x: int| covers(r@[i].1@, x) <==> local_covers(locs@, states@, location_ranges@, i, false, x)
            },
{
    local_ranges(locs, states, location_ranges, locals, false)
}

/// Where a local is definitely initialized it is also maybe initialized.
pub proof fn law_definitely_live_is_maybe_initialized(
    locs: Seq<(usize, usize)>,
    states: Seq<LocalStates>,
    m: Map<Location, Range>,
    i: int,
    x: int,
)
    ensures
        local_covers(locs, states, m, i, true, x) ==> local_covers(locs, states, m, i, false, x),
{
    if local_covers(locs, states, m, i, true, x) {
        let k = choose|k: int|
            0 <= k < locs.len() && qualifies((#[trigger] states[k])@[i].1, true) && m.dom().contains(
                mir_location(locs[k]),
            ) && m[mir_location(locs[k])].has(x);
        assert(qualifies(states[k]@[i].1, false));
    }
}

/// The states of local `l` in `s`, where it has an entry.
pub open spec fn state_of(s: Seq<(u32, StateSet)>, l: u32) -> Option<StateSet> {
    match entry_of(s, l) {
        Some(i) => Some(s[i].1),
        None => None,
    }
}

proof fn lemma_same_locals_entry(a: Seq<(u32, StateSet)>, b: Seq<(u32, StateSet)>, l: u32)
    requires
        same_locals(a, b),
    ensures
        entry_of(a, l) == entry_of(b, l),
{
    lemma_entry_of(a, l);
    lemma_entry_of(b, l);
    match entry_of(a, l) {
        Some(i) => {
            assert(b[i].0 == l);
            match entry_of(b, l) {
                Some(j) => {
                    if j < i {
                        assert(a[j].0 == l);
                    } else if i < j {
                        assert(b[i].0 == l);
                    }
                },
                None => {},
            }
        },
        None => {
            match entry_of(b, l) {
                Some(j) => {
                    assert(a[j].0 == l);
                },
                None => {},
            }
        },
    }
}

/// Giving local `l` the states `st` gives it exactly those and leaves every
/// other local as it was.
proof fn lemma_update_local_state(s: Seq<(u32, StateSet)>, l: u32, st: StateSet, l2: u32)
    ensures
        entry_of(update_local(s, l, st), l2) == entry_of(s, l2),
        state_of(update_local(s, l, st), l2) == if l2 == l && entry_of(s, l) is Some {
            Some(st)
        } else {
            state_of(s, l2)
        },
{
    lemma_update_local_keeps_locals(s, l, st);
    lemma_same_locals_entry(update_local(s, l, st), s, l2);
    lemma_entry_of(s, l);
    lemma_entry_of(s, l2);
}

/// After reading operands `ops` in order, a local that one of them moves is
/// in the state `Moved` alone.
proof fn lemma_operands_move(s: Seq<(u32, StateSet)>, ops: Seq<MirOperand>, k: int)
    requires
        0 <= k < ops.len(),
        ops[k] is Move,
        entry_of(s, ops[k]->Move_place.local.id) is Some,
    ensures
        state_of(operands_effect(s, ops), ops[k]->Move_place.local.id) == Some(only(LocalStateVariant::Moved)),
    decreases ops.len(),
{
    let l = ops[k]->Move_place.local.id;
    let init = ops.drop_last();
    let before = operands_effect(s, init);
    lemma_operands_keep_locals(s, init);
    lemma_same_locals_entry(before, s, l);
    if k < ops.len() - 1 {
        assert(init[k] == ops[k]);
        lemma_operands_move(s, init, k);
    }
    match ops.last() {
        MirOperand::Move { place } => {
            lemma_update_local_state(before, place.local.id, only(LocalStateVariant::Moved), l);
        },
        _ => {},
    }
}

/// A call moves its arguments: after a `Call` terminator every local passed
/// by move, other than the call's destination, is in the state `Moved`
/// alone, and the destination is `Initialized` alone.
pub proof fn law_call_moves_arguments(s: Seq<(u32, StateSet)>, t: MirTerminatorKind, k: int)
    requires
        t is Call,
        0 <= k < t->Call_args@.len(),
        t->Call_args@[k] is Move,
        t->Call_args@[k]->Move_place.local.id != t->Call_destination.local.id,
        entry_of(s, t->Call_args@[k]->Move_place.local.id) is Some,
    ensures
        state_of(terminator_effect(s, t), t->Call_args@[k]->Move_place.local.id) == Some(
            only(LocalStateVariant::Moved),
        ),
        entry_of(s, t->Call_destination.local.id) is Some ==> state_of(
            terminator_effect(s, t),
            t->Call_destination.local.id,
        ) == Some(only(LocalStateVariant::Initialized)),
{
    if let MirTerminatorKind::Call { func, args, destination, .. } = t {
        let l = args@[k]->Move_place.local.id;
        let d = destination.local.id;
        let s1 = operand_effect(s, func);
        lemma_operand_keeps_locals(s, func);
        lemma_same_locals_entry(s1, s, l);
        lemma_same_locals_entry(s1, s, d);
        lemma_operands_move(s1, args@, k);
        let s2 = operands_effect(s1, args@);
        lemma_operands_keep_locals(s1, args@);
        lemma_same_locals_entry(s2, s1, d);
        lemma_update_local_state(s2, d, only(LocalStateVariant::Initialized), l);
        lemma_update_local_state(s2, d, only(LocalStateVariant::Initialized), d);
    }
}

proof fn lemma_rval_keeps_locals(s: Seq<(u32, StateSet)>, rval: MirRval)
    ensures
        same_locals(rval_effect(s, rval), s),
{
    match rval {
        MirRval::Use { operand } => lemma_operand_keeps_locals(s, operand),
        MirRval::Repeat { operand } => lemma_operand_keeps_locals(s, operand),
        MirRval::Cast { operand } => lemma_operand_keeps_locals(s, operand),
        MirRval::UnaryOp { operand } => lemma_operand_keeps_locals(s, operand),
        MirRval::BinaryOp { left, right } => {
            lemma_operand_keeps_locals(s, left);
            lemma_operand_keeps_locals(operand_effect(s, left), right);
        },
        MirRval::Aggregate { fields } => lemma_operands_keep_locals(s, fields@),
        _ => {},
    }
}

/// An assignment leaves its target `Initialized` alone; `StorageDead` leaves
/// its local `Uninitialized` alone; every other local keeps its states under
/// `StorageDead`.
pub proof fn law_statement_states(s: Seq<(u32, StateSet)>, st: MirStatementKind, l: u32)
    requires
        entry_of(s, l) is Some,
    ensures
        st is Assign && st->Assign_place.local.id == l ==> state_of(statement_effect(s, st), l) == Some(
            only(LocalStateVariant::Initialized),
        ),
        st is StorageDead && st->StorageDead_local.id == l ==> state_of(statement_effect(s, st), l) == Some(
            only(LocalStateVariant::Uninitialized),
        ),
        st is StorageDead && st->StorageDead_local.id != l ==> state_of(statement_effect(s, st), l) == state_of(
            s,
            l,
        ),
{
    lemma_statement_keeps_locals(s, st);
    match st {
        MirStatementKind::Assign { place, rval } => {
            let r = rval_effect(s, rval);
            lemma_statement_keeps_locals(s, MirStatementKind::Assign { place, rval });
            lemma_rval_keeps_locals(s, rval);
            lemma_same_locals_entry(r, s, l);
            lemma_update_local_state(r, place.local.id, only(LocalStateVariant::Initialized), l);
        },
        MirStatementKind::StorageDead { local } => {
            lemma_update_local_state(s, local.id, only(LocalStateVariant::Uninitialized), l);
        },
        _ => {},
    }
}

/// Dropping a local takes `Initialized` from it and adds `Dropped`, keeping
/// its other states; every other local keeps its states.
pub proof fn law_drop_states(s: Seq<(u32, StateSet)>, t: MirTerminatorKind, l: u32)
    requires
        t is Drop,
        entry_of(s, l) is Some,
    ensures
        t->Drop_place.local.id == l ==> state_of(terminator_effect(s, t), l) == Some(
            StateSet { initialized: false, dropped: true, ..state_of(s, l)->0 },
        ),
        t->Drop_place.local.id != l ==> state_of(terminator_effect(s, t), l) == state_of(s, l),
{
    let d = t->Drop_place.local.id;
    lemma_entry_of(s, d);
    match entry_of(s, d) {
        Some(i) => {
            lemma_update_local_state(s, d, StateSet { initialized: false, dropped: true, ..s[i].1 }, l);
        },
        None => {},
    }
}

} // verus!
