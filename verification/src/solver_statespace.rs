//! The state-space deadlock check. Steps are added to a propositional
//! instance one at a time; after each, a solver is asked whether the
//! trains can still move (optionally) and whether they can all have left.
//! The search is a state machine: it names the query to put to a solver,
//! and takes the solver's answer as its next input.
use vstd::prelude::*;
use crate::plan::{DeadlockResult, Plan, StepView};
use crate::seqs::distinct_keys;
use crate::problem::{problem_wf, Problem, TrainView};
use crate::sat::{
    all_true, bool_below, bools_below, canonical, defs_ok, eval, extends, lemma_bools_below_mono, lemma_canonical, lemma_defs_from_mono,
    lemma_defs_prefix, lemma_extends_len, lemma_extends_refl, lemma_extends_trans, lemma_meets_prefix, meets, model_view,
    one_hot, sat_scoped, slot_value, Bool, CommandView, Model, SatInstance,
};
use crate::state::{
    acyclic, alloc_ok, bools_agree, covers, fin_fresh, fin_var, finset_ok, goal_condition, initial_routes_distinct, initial_state,
    initial_state_spec, lemma_occ_below_mono, lemma_occ_fresh_extends, lemma_open_goals, lemma_step_holds_agree,
    decoded, lemma_decoded_step_rules, leads_to, sort_entries, lemma_step_occ, level_empty, lit_fresh, mk_state, model_to_plan, nexts_ok, no_self_conflict, occ_below, occ_fresh,
    occ_ok, occ_wf, open_goals, plan_of, starts_finished, step_holds, step_occ, table_agrees, ub_steps, ub_sum, State,
    StateConstraintSettings, StateView,
};

verus! {

/// A question for a SAT solver about the instance built so far.
pub enum Query {
    /// Is the instance satisfiable?
    Solve,
    /// Is the instance satisfiable with all these formulas true?
    SolveWithAssumptions(Vec<Bool>),
}

/// What the search asks of its caller next.
pub enum Action {
    /// Put this query to the solver and hand back its answer.
    Ask(Query),
    /// The search has ended with this verdict.
    Done(DeadlockResult),
}

/// A solver's answer to a query.
pub enum Answer {
    /// A model: for each command of the instance, the values of its variables.
    Sat(Vec<Vec<bool>>),
    /// No model exists.
    Unsat,
}

/// Where the search stands.
#[derive(Clone, Copy, PartialEq, Eq, Structural)]
pub enum Phase {
    /// Waiting for the answer to "can the trains still move?".
    Unconditional,
    /// Waiting for the answer to "can every train have left?".
    Goal,
    /// The search has ended.
    Finished,
}

/// A state-space search in progress.
pub struct Search {
    /// Whether each round first asks whether the trains can still move.
    pub check_unconditional: bool,
    /// The constraints each new step gets.
    pub settings: StateConstraintSettings,
    /// The instance built so far.
    pub instance: SatInstance,
    /// The steps of the instance, the first one the initial position.
    pub states: Vec<State>,
    /// The number of steps after which no plan can move on.
    pub ub: usize,
    /// Where the search stands.
    pub phase: Phase,
}

/// The problems the search handles: well-formed, with next routes among
/// the routes of each train, no route conflicting with itself, allocation
/// lengths defined, distinct initial routes, no train that can keep moving
/// forever, and a step bound that fits in `usize`.
pub open spec fn searchable(p: Seq<TrainView>) -> bool {
    &&& problem_wf(p)
    &&& acyclic(p)
    &&& nexts_ok(p)
    &&& no_self_conflict(p)
    &&& alloc_ok(p)
    &&& initial_routes_distinct(p)
    &&& forall|t: int| 0 <= t < p.len() ==> level_empty(p, t, usize::MAX as nat)
    &&& ub_sum(p, p.len() as int) <= usize::MAX
}

/// The models of a list of steps.
pub open spec fn states_view(s: Seq<State>) -> Seq<StateView> {
    s.map_values(|st: State| st@)
}

/// The formulas of a step read the instance: those of its occupation table
/// are constants or variables of `FinSet` commands, those of its "train
/// finished" list constants or variables of `NewVar` commands.
pub open spec fn step_vars(st: StateView, inst: Seq<CommandView>) -> bool {
    &&& occ_fresh(st.routes, inst, 0)
    &&& occ_below(st.routes, inst.len() as int)
    &&& bools_below(st.trains_finished, inst.len() as int)
    &&& forall|t: int|
        0 <= t < st.trains_finished.len() ==> (#[trigger] st.trains_finished[t]) is Const || fin_var(
            st.trains_finished[t],
            inst,
            0,
        )
}

/// In model `m`, each step follows the one before it.
pub open spec fn chain(m: Model, p: Seq<TrainView>, sts: Seq<StateView>, settings: StateConstraintSettings) -> bool {
    forall|i: int| 1 <= i < sts.len() ==> #[trigger] step_holds(m, p, sts[i - 1], sts[i], settings, i)
}

impl Search {
    /// The invariant of the search: the first step is the initial position,
    /// every later one is a step of the encoding, every model of the
    /// instance makes each step follow the one before, and, the other way
    /// round, every assignment under which each step follows the one before
    /// and the defined variables take their defined values is a model.
    pub open spec fn wf(&self, p: Seq<TrainView>) -> bool {
        let sts = states_view(self.states@);
        &&& searchable(p)
        &&& sts.len() >= 1
        &&& sts.len() - 1 <= self.ub
        &&& self.ub == ub_sum(p, p.len() as int)
        &&& initial_state_spec(p, sts[0])
        &&& forall|i: int| 1 <= i < sts.len() ==> step_occ(p, (#[trigger] sts[i]).routes) && sts[i].trains_finished.len() == p.len()
        &&& forall|m: Model| meets(m, self.instance@) ==> chain(m, p, sts, self.settings)
        &&& sat_scoped(self.instance@)
        &&& forall|i: int| 0 <= i < sts.len() ==> step_vars(#[trigger] sts[i], self.instance@)
        &&& forall|m: Model|
            self.instance@.len() <= m.len() && #[trigger] defs_ok(m, self.instance@, 0) && chain(m, p, sts, self.settings)
                ==> meets(m, self.instance@)
        &&& self.phase == Phase::Goal ==> forall|t: int|
            0 <= t < sts.last().trains_finished.len() ==> #[trigger] sts.last().trains_finished[t] != Bool::Const(false)
    }

    /// The assumptions of the goal query: the formulas "train finished" of
    /// the last step that are not constants.
    pub open spec fn goals(&self) -> Seq<Bool> {
        open_goals(states_view(self.states@).last().trains_finished)
    }
}

/// What an action that is not the end of a goal query says of the search.
pub open spec fn action_ok(search: &Search, action: &Action) -> bool {
    match action {
        Action::Ask(Query::Solve) => search.check_unconditional && search.phase == Phase::Unconditional,
        Action::Ask(Query::SolveWithAssumptions(g)) => search.phase == Phase::Goal && g@ == search.goals(),
        Action::Done(DeadlockResult::Deadlocked(_)) => search.phase == Phase::Finished && search.states@.len() - 1
            == search.ub,
        Action::Done(DeadlockResult::Live(_)) => false,
    }
}

/// The search is extended from `old`: its steps begin with the old ones and
/// its instance keeps the old commands.
pub open spec fn grows(new: &Search, old: &Search) -> bool {
    &&& new.check_unconditional == old.check_unconditional
    &&& new.settings == old.settings
    &&& new.ub == old.ub
    &&& old.states@.len() <= new.states@.len()
    &&& forall|i: int| 0 <= i < old.states@.len() ==> #[trigger] new.states@[i]@ == old.states@[i]@
    &&& extends(new.instance@, old.instance@)
}

proof fn lemma_step_vars_extends(st: StateView, a: Seq<CommandView>, b: Seq<CommandView>)
    requires
        step_vars(st, a),
        extends(b, a),
    ensures
        step_vars(st, b),
{
    lemma_extends_len(b, a);
    lemma_occ_fresh_extends(st.routes, a, b, 0);
    lemma_occ_below_mono(st.routes, a.len() as int, b.len() as int);
    lemma_bools_below_mono(st.trains_finished, a.len() as int, b.len() as int);
    reveal(crate::sat::extends);
    assert forall|t: int| 0 <= t < st.trains_finished.len() implies (#[trigger] st.trains_finished[t]) is Const || fin_var(
        st.trains_finished[t],
        b,
        0,
    ) by {
        if let Bool::Lit(l) = st.trains_finished[t] {
            assert(fin_var(st.trains_finished[t], a, 0));
            assert(b[l.cmd as int] == b.subrange(0, a.len() as int)[l.cmd as int]);
        }
    }
}

proof fn lemma_new_step_vars(st: StateView, inst: Seq<CommandView>, from: int)
    requires
        occ_fresh(st.routes, inst, from),
        occ_below(st.routes, inst.len() as int),
        bools_below(st.trains_finished, inst.len() as int),
        fin_fresh(st.trains_finished, inst, from),
        0 <= from,
    ensures
        step_vars(st, inst),
{
    assert forall|i: int, j: int| 0 <= i < st.routes.len() && 0 <= j < st.routes[i].1.lits.len() implies lit_fresh(
        #[trigger] st.routes[i].1.lits[j],
        inst,
        0,
    ) by {
        assert(lit_fresh(st.routes[i].1.lits[j], inst, from));
    }
    assert forall|t: int| 0 <= t < st.trains_finished.len() implies (#[trigger] st.trains_finished[t]) is Const || fin_var(
        st.trains_finished[t],
        inst,
        0,
    ) by {
        assert(fin_var(st.trains_finished[t], inst, from));
    }
}

proof fn lemma_state_tables(p: Seq<TrainView>, search: &Search, m: Model)
    requires
        search.wf(p),
    ensures
        forall|i: int| 0 <= i < search.states@.len() ==> occ_wf(#[trigger] search.states@[i]@.routes) && covers(
            p,
            search.states@[i]@.routes,
        ) && distinct_keys(search.states@[i]@.routes),
        meets(m, search.instance@) ==> forall|i: int|
            0 <= i < search.states@.len() ==> occ_ok(m, #[trigger] search.states@[i]@.routes),
{
    let sts = states_view(search.states@);
    assert forall|i: int| 0 <= i < search.states@.len() implies occ_wf(#[trigger] search.states@[i]@.routes) && covers(
        p,
        search.states@[i]@.routes,
    ) && distinct_keys(search.states@[i]@.routes) by {
        assert(sts[i] == search.states@[i]@);
        if i > 0 {
            lemma_step_occ(p, sts[i].routes);
        } else {
            assert forall|j: int| 0 <= j < sts[0].routes.len() implies (#[trigger] sts[0].routes[j]).1.lits.len()
                == sts[0].routes[j].1.domain.len() by {}
        }
    }
    if meets(m, search.instance@) {
        assert forall|i: int| 0 <= i < search.states@.len() implies occ_ok(m, #[trigger] search.states@[i]@.routes) by {
            assert(sts[i] == search.states@[i]@);
            if i > 0 {
                assert(step_holds(m, p, sts[i - 1], sts[i], search.settings, i));
            } else {
                assert forall|j: int| 0 <= j < sts[0].routes.len() implies finset_ok(m, #[trigger] sts[0].routes[j].1) by {
                    assert(sts[0].routes[j].1.lits[0] == Bool::Const(true));
                }
            }
        }
    }
}

/// In `m`, every `FinSet` variable of the instance takes exactly one value:
/// every route of every step has one holder.
pub open spec fn choices_ok(m: Model, inst: Seq<CommandView>) -> bool {
    &&& inst.len() <= m.len()
    &&& forall|k: int| 0 <= k < inst.len() && (#[trigger] inst[k] is FinSet) ==> one_hot(m, k, inst[k]->domain.len())
}

/// `m2` gives each variable of a `FinSet` or `NewVar` command of the
/// instance the value that `m1` gives it.
pub open spec fn same_choices(m1: Model, m2: Model, inst: Seq<CommandView>) -> bool {
    &&& forall|k: int, i: int|
        0 <= k < inst.len() && (#[trigger] inst[k] is FinSet) && 0 <= i < inst[k]->domain.len() ==> #[trigger] slot_value(m2, k, i)
            == slot_value(m1, k, i)
    &&& forall|k: int| 0 <= k < inst.len() && (#[trigger] inst[k] is NewVar) ==> slot_value(m2, k, 0) == slot_value(m1, k, 0)
}

proof fn lemma_agree_on_vars(m1: Model, m2: Model, inst: Seq<CommandView>, st: StateView)
    requires
        step_vars(st, inst),
        same_choices(m1, m2, inst),
    ensures
        table_agrees(m1, m2, st.routes),
        bools_agree(m1, m2, st.trains_finished),
{
    assert forall|i: int, j: int| 0 <= i < st.routes.len() && 0 <= j < st.routes[i].1.lits.len() implies eval(
        m1,
        #[trigger] st.routes[i].1.lits[j],
    ) == eval(m2, st.routes[i].1.lits[j]) by {
        let b = st.routes[i].1.lits[j];
        assert(lit_fresh(b, inst, 0));
        if let Bool::Lit(l) = b {
            assert(inst[l.cmd as int] is FinSet);
            assert(slot_value(m2, l.cmd as int, l.slot as int) == slot_value(m1, l.cmd as int, l.slot as int));
        }
    }
    assert forall|t: int| 0 <= t < st.trains_finished.len() implies eval(m1, #[trigger] st.trains_finished[t]) == eval(
        m2,
        st.trains_finished[t],
    ) by {
        let b = st.trains_finished[t];
        if let Bool::Lit(l) = b {
            assert(fin_var(b, inst, 0));
            assert(inst[l.cmd as int] is NewVar);
        }
    }
}

/// Every run of the step rules is a model of the instance: an assignment
/// that gives each route of each step one holder, under which each step
/// follows the one before, extends to a model of the instance with the same
/// holders and the same "finished" values. So where the solver finds no
/// model of the instance, no run with this many steps exists.
pub proof fn lemma_runs_are_models(search: &Search, p: Seq<TrainView>, m1: Model) -> (m2: Model)
    requires
        search.wf(p),
        choices_ok(m1, search.instance@),
        chain(m1, p, states_view(search.states@), search.settings),
    ensures
        meets(m2, search.instance@),
        same_choices(m1, m2, search.instance@),
        chain(m2, p, states_view(search.states@), search.settings),
{
    let inst = search.instance@;
    let sts = states_view(search.states@);
    lemma_canonical(m1, inst, 0);
    let m2 = canonical(m1, inst, 0);
    assert(same_choices(m1, m2, inst));
    lemma_state_tables(p, search, m2);
    assert forall|i: int| 0 <= i < sts.len() implies table_agrees(m1, m2, (#[trigger] sts[i]).routes) && bools_agree(
        m1,
        m2,
        sts[i].trains_finished,
    ) && occ_wf(sts[i].routes) && sts[i].trains_finished.len() == p.len() by {
        assert(step_vars(sts[i], inst));
        lemma_agree_on_vars(m1, m2, inst, sts[i]);
        assert(sts[i] == search.states@[i]@);
        if i == 0 {
            assert(initial_state_spec(p, sts[0]));
        }
    }
    assert forall|i: int| 1 <= i < sts.len() implies #[trigger] step_holds(m2, p, sts[i - 1], sts[i], search.settings, i) by {
        assert(step_holds(m1, p, sts[i - 1], sts[i], search.settings, i));
        assert(table_agrees(m1, m2, sts[i - 1].routes));
        lemma_step_holds_agree(m1, m2, p, sts[i - 1], sts[i], search.settings, i);
    }
    assert(defs_ok(m2, inst, 0));
    m2
}

/// A run of the step rules whose last step has every train finished answers
/// the goal query: it extends to a model of the instance that makes every
/// goal true. So where the solver finds no such model, no run with this
/// many steps ends with every train out of the area.
pub proof fn lemma_finishing_runs_meet_goals(search: &Search, p: Seq<TrainView>, m1: Model) -> (m2: Model)
    requires
        search.wf(p),
        choices_ok(m1, search.instance@),
        chain(m1, p, states_view(search.states@), search.settings),
        all_true(m1, states_view(search.states@).last().trains_finished),
    ensures
        meets(m2, search.instance@),
        same_choices(m1, m2, search.instance@),
        chain(m2, p, states_view(search.states@), search.settings),
        all_true(m2, search.goals()),
{
    let sts = states_view(search.states@);
    let m2 = lemma_runs_are_models(search, p, m1);
    let fin = sts.last().trains_finished;
    assert(step_vars(sts[sts.len() - 1], search.instance@));
    lemma_agree_on_vars(m1, m2, search.instance@, sts[sts.len() - 1]);
    assert forall|t: int| 0 <= t < fin.len() implies #[trigger] fin[t] != Bool::Const(false) by {
        assert(eval(m1, fin[t]));
    }
    assert forall|t: int| 0 <= t < fin.len() implies eval(m2, #[trigger] fin[t]) by {
        assert(eval(m1, fin[t]));
    }
    lemma_open_goals(m2, fin);
    m2
}

/// The plan read off any model of the instance follows the step rules: from
/// each step to the next, a train newly holds a route only while it holds a
/// route leading there, and a train holding a route keeps each route in
/// unconditional conflict with it free or its own. The plan of a `Live`
/// verdict is read off such a model (see `Search::step`).
pub proof fn lemma_plan_follows_rules(search: &Search, p: Seq<TrainView>, m: Model, n: int)
    requires
        search.wf(p),
        p.len() <= usize::MAX,
        meets(m, search.instance@),
        1 <= n < search.states@.len(),
    ensures
        forall|rt: Seq<char>, t: usize|
            #[trigger] plan_of(m, p, states_view(search.states@))[n].contains((rt, Some(t))) && !plan_of(
                m,
                p,
                states_view(search.states@),
            )[n - 1].contains((rt, Some(t))) ==> exists|rp: Seq<char>|
                #[trigger] leads_to(p, t as int, rp, rt) && plan_of(m, p, states_view(search.states@))[n].contains((rp, Some(t))),
        forall|r1: Seq<char>, r2: Seq<char>, t: usize, o: Option<usize>|
            #[trigger] plan_of(m, p, states_view(search.states@))[n].contains((r1, Some(t))) && #[trigger] plan_of(
                m,
                p,
                states_view(search.states@),
            )[n].contains((r2, o)) && p[t as int].route(r1)->0.unconditional_conflicts.contains(r2) ==> o is None || o == Some(
                t,
            ),
{
    let sts = states_view(search.states@);
    lemma_state_tables(p, search, m);
    assert(sts[n] == search.states@[n]@);
    assert(sts[n - 1] == search.states@[n - 1]@);
    assert(step_holds(m, p, sts[n - 1], sts[n], search.settings, n));
    lemma_decoded_step_rules(m, p, sts[n - 1], sts[n], search.settings, n);
    assert(plan_of(m, p, sts)[n] == sort_entries(decoded(m, p, sts[n].routes)));
    assert(plan_of(m, p, sts)[n - 1] == sort_entries(decoded(m, p, sts[n - 1].routes)));
}

impl Search {
    /// Runs the search from `stage` of a round (0: the movement query, 1:
    /// the goal query, 2: adding a step) to the next query or the verdict.
    fn advance(&mut self, problem: &Problem, from: u8) -> (action: Action)
        requires
            old(self).wf(problem@),
            from <= 2,
        ensures
            final(self).wf(problem@),
            grows(final(self), old(self)),
            action_ok(final(self), &action),
            from >= 1 && (action matches Action::Ask(Query::Solve)) ==> final(self).states@.len() > old(self).states@.len(),
            from == 2 && action is Ask ==> final(self).states@.len() > old(self).states@.len(),
            from == 0 && old(self).check_unconditional ==> (action matches Action::Ask(Query::Solve))
                && final(self).states@.len() == old(self).states@.len(),
    {
        let ghost p = problem@;
        let ghost old_self = *self;
        let mut stage = from;
        self.phase = Phase::Finished;
        proof {
            lemma_extends_refl(self.instance@);
            assert forall|i: int| 0 <= i < old_self.states@.len() implies #[trigger] self.states@[i]@ == old_self.states@[i]@ by {}
        }
        loop
            invariant
                self.wf(p),
                p == problem@,
                stage <= 2,
                grows(self, &old_self),
                old_self == *old(self),
                stage < from ==> self.states@.len() > old_self.states@.len(),
                from <= 2,
                from == 0 ==> stage == 0,
                from == 0 && self.check_unconditional ==> self.states@.len() == old_self.states@.len(),
                self.phase == Phase::Finished,
            decreases self.ub + 1 - self.states@.len(),
        {
            if stage == 0 {
                if self.check_unconditional {
                    self.phase = Phase::Unconditional;
                    return Action::Ask(Query::Solve);
                }
                stage = 1;
            }
            if stage == 1 {
                let last = self.states.len() - 1;
                match goal_condition(&self.states[last]) {
                    Some(g) => {
                        self.phase = Phase::Goal;
                        assert(states_view(self.states@).last() == self.states@[last as int]@);
                        return Action::Ask(Query::SolveWithAssumptions(g));
                    },
                    None => {},
                }
                stage = 2;
            }
            if self.states.len() - 1 < self.ub {
                let n = self.states.len();
                proof {
                    lemma_state_tables(p, self, Seq::empty());
                }
                let ghost before = *self;
                proof {
                    let sb = states_view(before.states@);
                    assert(sb[n - 1] == self.states@[n - 1]@);
                    assert(step_vars(sb[n - 1], self.instance@));
                    assert(sb[n - 1].trains_finished.len() == p.len()) by {
                        if n - 1 == 0 {
                            assert(initial_state_spec(p, sb[0]));
                        }
                    }
                }
                let st = mk_state(&mut self.instance, &self.states[n - 1], problem, n, self.settings);
                self.states.push(st);
                proof {
                    let sts = states_view(self.states@);
                    let sb = states_view(before.states@);
                    let inst = self.instance@;
                    let bi = before.instance@;
                    assert(sts == sb.push(st@));
                    lemma_extends_len(inst, bi);
                    assert forall|i: int| 0 <= i < sts.len() implies step_vars(#[trigger] sts[i], inst) by {
                        if i < n {
                            assert(sts[i] == sb[i]);
                            assert(step_vars(sb[i], bi));
                            lemma_step_vars_extends(sb[i], bi, inst);
                        } else {
                            assert(sts[i] == st@);
                            lemma_new_step_vars(st@, inst, bi.len() as int);
                        }
                    }
                    assert forall|m: Model|
                        inst.len() <= m.len() && #[trigger] defs_ok(m, inst, 0) && chain(m, p, sts, self.settings) implies meets(
                        m,
                        inst,
                    ) by {
                        lemma_defs_prefix(m, inst, bi, 0);
                        assert forall|i: int| 1 <= i < sb.len() implies #[trigger] step_holds(m, p, sb[i - 1], sb[i], self.settings, i) by {
                            assert(sts[i] == sb[i] && sts[i - 1] == sb[i - 1]);
                            assert(step_holds(m, p, sts[i - 1], sts[i], self.settings, i));
                        }
                        assert(chain(m, p, sb, self.settings));
                        assert(meets(m, bi));
                        lemma_defs_from_mono(m, inst, 0, bi.len() as int);
                        assert(sts[n - 1] == sb[n - 1]);
                        assert(sb[n - 1] == before.states@[n - 1]@);
                        assert(sts[n as int] == st@);
                        assert(step_holds(m, p, sts[n - 1], sts[n as int], self.settings, n as int));
                    }
                    lemma_extends_trans(self.instance@, before.instance@, old_self.instance@);
                    assert forall|m: Model| meets(m, self.instance@) implies chain(m, p, sts, self.settings) by {
                        lemma_meets_prefix(m, self.instance@, before.instance@);
                        assert(sb[n - 1] == before.states@[n - 1]@);
                        assert forall|i: int| 1 <= i < sts.len() implies #[trigger] step_holds(m, p, sts[i - 1], sts[i], self.settings, i) by {
                            if i < n {
                                assert(sts[i] == sb[i] && sts[i - 1] == sb[i - 1]);
                                assert(step_holds(m, p, sb[i - 1], sb[i], self.settings, i));
                            }
                        }
                    }
                    assert forall|i: int| 0 <= i < old_self.states@.len() implies #[trigger] self.states@[i]@ == old_self.states@[i]@ by {
                        assert(self.states@[i] == before.states@[i]);
                    }
                    assert(sts[0] == sb[0]);
                    assert forall|i: int| 1 <= i < sts.len() implies step_occ(p, (#[trigger] sts[i]).routes) && sts[i].trains_finished.len() == p.len() by {
                        if i < n {
                            assert(sts[i] == sb[i]);
                        }
                    }
                }
                stage = 0;
            } else {
                self.phase = Phase::Finished;
                return Action::Done(DeadlockResult::Deadlocked(()));
            }
        }
    }
}

impl Search {
    /// The search's answer-handling step: given the solver's answer to the
    /// last query, decides the verdict or the next query. A model must meet
    /// the instance, and for the goal query make the assumptions true.
    pub fn step(&mut self, problem: &Problem, answer: Answer) -> (action: Action)
        requires
            old(self).wf(problem@),
            old(self).phase != Phase::Finished,
            answer matches Answer::Sat(m) ==> meets(model_view(m@), old(self).instance@),
            old(self).phase == Phase::Goal ==> (answer matches Answer::Sat(m) ==> all_true(model_view(m@), old(self).goals())),
        ensures
            final(self).wf(problem@),
            grows(final(self), old(self)),
            old(self).phase == Phase::Unconditional && answer is Unsat ==> (action matches Action::Done(
                DeadlockResult::Deadlocked(_),
            )) && final(self).phase == Phase::Finished && final(self).states@.len() == old(self).states@.len(),
            old(self).phase == Phase::Unconditional && answer is Sat ==> action_ok(final(self), &action) && !(action matches Action::Ask(
                Query::Solve,
            ) && final(self).states@.len() == old(self).states@.len()),
            old(self).phase == Phase::Goal ==> (answer matches Answer::Sat(m) ==> (action matches Action::Done(
                DeadlockResult::Live(plan),
            ) && plan@ == plan_of(model_view(m@), problem@, states_view(old(self).states@)) && all_true(
                model_view(m@),
                states_view(old(self).states@).last().trains_finished,
            ) && chain(model_view(m@), problem@, states_view(old(self).states@), old(self).settings)
                && final(self).phase == Phase::Finished && final(self).states@.len() == old(self).states@.len())),
            old(self).phase == Phase::Goal && answer is Unsat ==> action_ok(final(self), &action) && (action is Done
                || final(self).states@.len() > old(self).states@.len()),
    {
        let ghost p = problem@;
        match answer {
            Answer::Sat(model) => {
                if self.phase == Phase::Goal {
                    proof {
                        let sts = states_view(self.states@);
                        lemma_state_tables(p, self, model_view(model@));
                        lemma_open_goals(model_view(model@), sts.last().trains_finished);
                    }
                    let plan = model_to_plan(&self.states, problem, &model);
                    self.phase = Phase::Finished;
                    proof {
                        lemma_extends_refl(self.instance@);
                    }
                    Action::Done(DeadlockResult::Live(plan))
                } else {
                    self.advance(problem, 1)
                }
            },
            Answer::Unsat => {
                if self.phase == Phase::Goal {
                    self.advance(problem, 2)
                } else {
                    self.phase = Phase::Finished;
                    proof {
                        lemma_extends_refl(self.instance@);
                    }
                    Action::Done(DeadlockResult::Deadlocked(()))
                }
            },
        }
    }
}

/// Starts a state-space search: builds the initial step and the bound on
/// the number of steps, and gives the first query (or, where no step can
/// reach the goal, the verdict).
pub fn solve(problem: &Problem, check_unconditional: bool, settings: StateConstraintSettings) -> (res: (Search, Action))
    requires
        searchable(problem@),
    ensures
        res.0.wf(problem@),
        res.0.check_unconditional == check_unconditional,
        res.0.settings == settings,
        res.0.ub == ub_sum(problem@, problem@.len() as int),
        action_ok(&res.0, &res.1),
        check_unconditional ==> (res.1 matches Action::Ask(Query::Solve)) && res.0.states@.len() == 1,
{
    let ghost p = problem@;
    let mut instance = SatInstance::new();
    let init = initial_state(&mut instance, problem);
    let ub = ub_steps(problem);
    let mut states: Vec<State> = Vec::new();
    states.push(init);
    let mut search = Search { check_unconditional, settings, instance, states, ub, phase: Phase::Finished };
    proof {
        let sts = states_view(search.states@);
        assert(sts.len() == 1);
        assert(sts[0] == init@);
        assert forall|m: Model| meets(m, search.instance@) implies chain(m, p, sts, settings) by {}
        assert(search.instance@.len() == 0);
        assert forall|m: Model|
            search.instance@.len() <= m.len() && #[trigger] defs_ok(m, search.instance@, 0) && chain(m, p, sts, settings) implies meets(
            m,
            search.instance@,
        ) by {
            reveal(meets);
        }
        assert(step_vars(sts[0], search.instance@)) by {
            assert forall|i: int, j: int| 0 <= i < sts[0].routes.len() && 0 <= j < sts[0].routes[i].1.lits.len() implies lit_fresh(
                #[trigger] sts[0].routes[i].1.lits[j],
                search.instance@,
                0,
            ) by {
                assert(sts[0].routes[i].1.lits == seq![Bool::Const(true)]);
            }
            assert forall|i: int| 0 <= i < sts[0].routes.len() implies bools_below((#[trigger] sts[0].routes[i]).1.lits, 0) by {
                assert(sts[0].routes[i].1.lits == seq![Bool::Const(true)]);
            }
            assert forall|t: int| 0 <= t < sts[0].trains_finished.len() implies bool_below(#[trigger] sts[0].trains_finished[t], 0) by {
                assert(sts[0].trains_finished[t] == Bool::Const(starts_finished(p, t)));
            }
            assert forall|t: int| 0 <= t < sts[0].trains_finished.len() implies (#[trigger] sts[0].trains_finished[t]) is Const by {
                assert(sts[0].trains_finished[t] == Bool::Const(starts_finished(p, t)));
            }
        }
    }
    let action = search.advance(problem, 0);
    (search, action)
}

/// The search of the first algorithm: steps with consistency constraints
/// only, until the bound on the number of steps.
pub fn solve_1_using_num_states_bound(problem: &Problem) -> (res: (Search, Action))
    requires
        searchable(problem@),
    ensures
        res.0.wf(problem@),
        res.0.ub == ub_sum(problem@, problem@.len() as int),
        !res.0.check_unconditional,
        !res.0.settings.global_progress_constraint,
        !res.0.settings.local_early_progress_constraint,
        action_ok(&res.0, &res.1),
{
    solve(
        problem,
        false,
        StateConstraintSettings { global_progress_constraint: false, local_early_progress_constraint: false },
    )
}

/// The search of the second algorithm: each step must move a train, and
/// each round first asks whether the trains can still move.
pub fn solve_2_using_global_progress(problem: &Problem) -> (res: (Search, Action))
    requires
        searchable(problem@),
    ensures
        res.0.wf(problem@),
        res.0.ub == ub_sum(problem@, problem@.len() as int),
        res.0.check_unconditional,
        res.0.settings.global_progress_constraint,
        !res.0.settings.local_early_progress_constraint,
        action_ok(&res.0, &res.1),
        (res.1 matches Action::Ask(Query::Solve)) && res.0.states@.len() == 1,
{
    solve(
        problem,
        true,
        StateConstraintSettings { global_progress_constraint: true, local_early_progress_constraint: false },
    )
}

/// The search of the third algorithm: as the second, with trains leaving
/// routes as soon as they can and entering a route only when forced to wait.
pub fn solve_3_using_local_and_global_progress(problem: &Problem) -> (res: (Search, Action))
    requires
        searchable(problem@),
    ensures
        res.0.wf(problem@),
        res.0.ub == ub_sum(problem@, problem@.len() as int),
        res.0.check_unconditional,
        res.0.settings.global_progress_constraint,
        res.0.settings.local_early_progress_constraint,
        action_ok(&res.0, &res.1),
        (res.1 matches Action::Ask(Query::Solve)) && res.0.states@.len() == 1,
{
    solve(
        problem,
        true,
        StateConstraintSettings { global_progress_constraint: true, local_early_progress_constraint: true },
    )
}

} // verus!
