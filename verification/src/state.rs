//! The state-space encoding: for each step, which train holds each route,
//! as finite-domain variables of a propositional instance, and the
//! constraints that tie each step to the one before.
use vstd::prelude::*;
use crate::plan::{Plan, RouteId, TrainId};
use crate::problem::{find_route, index_of_key, lemma_index_of_key, Problem, Train, TrainRoute, TrainView, TrainRouteView, problem_wf};
use crate::sat::{
    eval, extends, lemma_extends_push, lemma_extends_refl, lemma_extends_trans, lemma_meets_last,
    lemma_meets_prefix, lemma_meets_or, lemma_meets_and, lemma_meets_clause, lemma_meets_at_most_one,
    lemma_meets_new_var, lemma_meets_finset, meets, not, any_true, all_true, at_most_one_true, Bool, CommandView, Lit, Model,
    SatInstance, eval_model, model_view, bool_below, bools_below, cmd_below, sat_scoped, is_constraint, defs_ok,
    no_constraints_from, lemma_bools_below_mono, lemma_scoped_push, lemma_defs_prefix, lemma_meets_push_def,
    lemma_meets_push_con, lemma_meets_defs, lemma_no_constraints_push, lemma_no_constraints_trans, lemma_scoped_extends, lemma_extends_len, lemma_meets_push_clause, lemma_meets_push_amo, lemma_defs_from_mono, one_hot, canonical, lemma_canonical, rows_agree, lemma_meets_agree, slot_value, defs_only_from, lemma_defs_only_push, lemma_defs_only_trans, lemma_definitions_extend,
};
use crate::plan::{step_view, StepView};
use crate::text::{chars_lt, str_lt};
use crate::seqs::{distinct_keys, equals, first_match, key_index, lemma_first_match, lemma_first_match_at, named, position};

verus! {

/// Which constraints beyond consistency a step gets.
#[derive(Clone, Copy)]
pub struct StateConstraintSettings {
    /// At least one train enters a route in each step.
    pub global_progress_constraint: bool,
    /// Trains leave routes as soon as they can, and enter a route only in
    /// the step after a conflicting route was entered by another train.
    pub local_early_progress_constraint: bool,
}

/// A finite-domain variable: one formula per value, true when the variable
/// takes that value.
pub struct FinSet {
    pub domain: Vec<Option<TrainId>>,
    pub lits: Vec<Bool>,
}

/// The model of a [`FinSet`].
pub struct FinSetView {
    pub domain: Seq<Option<usize>>,
    pub lits: Seq<Bool>,
}

impl View for FinSet {
    type V = FinSetView;

    open spec fn view(&self) -> FinSetView {
        FinSetView { domain: self.domain@, lits: self.lits@ }
    }
}

/// A step of the encoding: the holder of each route, and for each train
/// whether it has left the area.
pub struct State {
    pub routes: Vec<(RouteId, FinSet)>,
    pub trains_finished: Vec<Bool>,
}

/// The model of an occupation table.
pub type OccView = Seq<(Seq<char>, FinSetView)>;

/// The model of a [`State`].
pub struct StateView {
    pub routes: OccView,
    pub trains_finished: Seq<Bool>,
}

/// The model of an occupation table.
pub open spec fn occ_view(s: Seq<(String, FinSet)>) -> OccView {
    s.map_values(|e: (String, FinSet)| (e.0@, e.1@))
}

impl View for State {
    type V = StateView;

    open spec fn view(&self) -> StateView {
        StateView { routes: occ_view(self.routes@), trains_finished: self.trains_finished@ }
    }
}

/// The formula "the variable takes value `v`": that of the first entry of
/// `v` in the domain, false for a value outside it.
pub open spec fn has_value_spec(fs: FinSetView, v: Option<usize>) -> Bool {
    match position(fs.domain, v) {
        Some(i) => fs.lits[i],
        None => Bool::Const(false),
    }
}

/// Whether in model `m` route `r` of an occupation table holds `v`.
#[verifier::opaque]
pub open spec fn occupies(m: Model, occ: OccView, r: Seq<char>, v: Option<usize>) -> bool {
    match key_index(occ, r) {
        Some(i) => eval(m, has_value_spec(occ[i].1, v)),
        None => false,
    }
}

/// Each variable has one formula per value.
pub open spec fn occ_wf(occ: OccView) -> bool {
    forall|i: int| 0 <= i < occ.len() ==> (#[trigger] occ[i]).1.lits.len() == occ[i].1.domain.len()
}

/// The formulas of an occupation table read only commands below `n`.
pub open spec fn occ_below(occ: OccView, n: int) -> bool {
    forall|i: int| 0 <= i < occ.len() ==> bools_below((#[trigger] occ[i]).1.lits, n)
}

pub proof fn lemma_occ_below_mono(occ: OccView, n: int, k: int)
    requires
        occ_below(occ, n),
        n <= k,
    ensures
        occ_below(occ, k),
{
    assert forall|i: int| 0 <= i < occ.len() implies bools_below((#[trigger] occ[i]).1.lits, k) by {
        lemma_bools_below_mono(occ[i].1.lits, n, k);
    }
}

/// The formula "the variable takes value `v`".
pub fn has_value(fs: &FinSet, v: Option<TrainId>) -> (res: Bool)
    requires
        fs.lits@.len() == fs.domain@.len(),
    ensures
        res == has_value_spec(fs@, v),
{
    proof {
        lemma_first_match(fs.domain@, equals(v));
    }
    let mut i: usize = 0;
    while i < fs.domain.len()
        invariant
            i <= fs.domain.len(),
            fs.lits@.len() == fs.domain@.len(),
            forall|j: int| 0 <= j < i ==> fs.domain@[j] != v,
        decreases fs.domain.len() - i,
    {
        let same = match (fs.domain[i], v) {
            (Some(a), Some(b)) => a == b,
            (None, None) => true,
            _ => false,
        };
        if same {
            proof {
                lemma_first_match_at(fs.domain@, equals(v), i as int);
            }
            return fs.lits[i];
        }
        i += 1;
    }
    Bool::Const(false)
}

/// Looks up a route of an occupation table: the index of its first entry.
pub fn find_occ(occ: &Vec<(String, FinSet)>, name: &str) -> (res: Option<usize>)
    ensures
        res matches Some(i) ==> key_index(occ_view(occ@), name@) == Some(i as int),
        res is None ==> key_index(occ_view(occ@), name@) is None,
{
    let ghost ov = occ_view(occ@);
    proof {
        lemma_first_match(ov, named::<FinSetView>(name@));
    }
    let mut i: usize = 0;
    while i < occ.len()
        invariant
            i <= occ.len(),
            ov == occ_view(occ@),
            forall|j: int| 0 <= j < i ==> ov[j].0 != name@,
        decreases occ.len() - i,
    {
        if crate::text::str_eq(occ[i].0.as_str(), name) {
            proof {
                lemma_first_match_at(ov, named::<FinSetView>(name@), i as int);
            }
            return Some(i);
        }
        i += 1;
    }
    None
}

/// The formula "route `r` holds `v`" of an occupation table that lists `r`.
pub fn occ_has(occ: &Vec<(String, FinSet)>, r: &str, v: Option<TrainId>) -> (res: Bool)
    requires
        occ_wf(occ_view(occ@)),
        key_index(occ_view(occ@), r@) is Some,
    ensures
        forall|m: Model| eval(m, res) == occupies(m, occ_view(occ@), r@, v),
        forall|n: int| occ_below(occ_view(occ@), n) ==> bool_below(res, n),
{
    proof {
        lemma_first_match(occ_view(occ@), named::<FinSetView>(r@));
    }
    let i = find_occ(occ, r).unwrap();
    assert(occ_view(occ@)[i as int].1 == occ@[i as int].1@);
    proof {
        reveal(occupies);
        lemma_first_match(occ@[i as int].1.domain@, equals(v));
        assert forall|n: int| occ_below(occ_view(occ@), n) implies bool_below(has_value_spec(occ@[i as int].1@, v), n) by {
            assert(bools_below(occ_view(occ@)[i as int].1.lits, n));
            if let Some(j) = position(occ@[i as int].1.domain@, v) {
                assert(bool_below(occ@[i as int].1@.lits[j], n));
            }
        }
    }
    has_value(&occ[i].1, v)
}

/// A numbering of routes that decreases along `next_routes`, train by train.
pub open spec fn ranked(p: Seq<TrainView>, rank: spec_fn(int, Seq<char>) -> nat) -> bool {
    forall|t: int, r: Seq<char>|
        0 <= t < p.len() && (#[trigger] p[t].route(r)) is Some && p[t].route(r)->0.next_routes is Some
            ==> forall|j: int|
            0 <= j < p[t].route(r)->0.next_routes->0.len() ==> #[trigger] rank(
                t,
                p[t].route(r)->0.next_routes->0[j],
            ) < rank(t, r)
}

/// No train can come back to a route it has left: the routes of each train,
/// linked by `next_routes`, form no cycle.
pub open spec fn acyclic(p: Seq<TrainView>) -> bool {
    exists|rank: spec_fn(int, Seq<char>) -> nat| ranked(p, rank)
}

/// A numbering that witnesses `acyclic`.
pub open spec fn the_rank(p: Seq<TrainView>) -> spec_fn(int, Seq<char>) -> nat {
    choose|rank: spec_fn(int, Seq<char>) -> nat| ranked(p, rank)
}

/// The length of route `r` of train `t`.
pub open spec fn route_length_of(p: Seq<TrainView>, t: int, r: Seq<char>) -> int {
    p[t].route(r)->0.route_length as int
}

/// The next routes of route `r` of train `t`.
pub open spec fn next_list(p: Seq<TrainView>, t: int, r: Seq<char>) -> Seq<Seq<char>> {
    p[t].route(r)->0.next_routes->0
}

/// Whether route `r` of train `t` exists and has next routes.
pub open spec fn has_nexts(p: Seq<TrainView>, t: int, r: Seq<char>) -> bool {
    p[t].route(r) is Some && p[t].route(r)->0.next_routes is Some
}

/// The measure under which `progressed_from` and `defined_from` recur.
pub open spec fn step_measure(p: Seq<TrainView>, t: int, r: Seq<char>, k: int) -> nat {
    if k < 0 {
        next_list(p, t, r).len() + 1
    } else {
        k as nat
    }
}

/// With `k < 0`: whether in model `m`, with the occupation table `occ`,
/// train `t` on route `r` holds routes ahead of `r` that together are at
/// least `len` long (or `r` leads out of the area). With `k >= 0`: whether
/// that holds through one of the first `k` next routes of `r`.
#[verifier::opaque]
pub open spec fn progressed_from(m: Model, p: Seq<TrainView>, occ: OccView, t: int, r: Seq<char>, len: int, k: int) -> bool
    decreases the_rank(p)(t, r), step_measure(p, t, r, k),
    when acyclic(p) && 0 <= t < p.len() && (k >= 0 ==> has_nexts(p, t, r) && k <= next_list(p, t, r).len())
{
    if k < 0 {
        if has_nexts(p, t, r) {
            progressed_from(m, p, occ, t, r, len, next_list(p, t, r).len() as int)
        } else {
            true
        }
    } else if k == 0 {
        false
    } else {
        let n = next_list(p, t, r)[k - 1];
        progressed_from(m, p, occ, t, r, len, k - 1) || (occupies(m, occ, n, Some(t as usize)) && (
        route_length_of(p, t, n) >= len || progressed_from(m, p, occ, t, n, len - route_length_of(p, t, n), -1)))
    }
}

/// Whether in model `m`, with the occupation table `occ`, train `t` on route
/// `r` holds routes ahead of `r` that together are at least `len` long (or
/// `r` leads out of the area).
pub open spec fn progressed(m: Model, p: Seq<TrainView>, occ: OccView, t: int, r: Seq<char>, len: int) -> bool {
    progressed_from(m, p, occ, t, r, len, -1)
}

/// One way of `progressed`: through the next route `n`.
pub open spec fn progressed_via(m: Model, p: Seq<TrainView>, occ: OccView, t: int, n: Seq<char>, len: int) -> bool {
    occupies(m, occ, n, Some(t as usize)) && (route_length_of(p, t, n) >= len || progressed(
        m, p, occ, t, n, len - route_length_of(p, t, n)))
}

/// With `k < 0`: the conditions under which `has_progressed_by_length`
/// gives an answer: each route it visits is a route of the train, each next
/// route it looks at is listed in the occupation table, and no visited route
/// has an empty list of next routes. With `k >= 0`: the same for the first
/// `k` next routes of `r`.
#[verifier::opaque]
pub open spec fn defined_from(p: Seq<TrainView>, occ: OccView, t: int, r: Seq<char>, len: int, k: int) -> bool
    decreases the_rank(p)(t, r), step_measure(p, t, r, k),
    when acyclic(p) && 0 <= t < p.len() && (k >= 0 ==> has_nexts(p, t, r) && k <= next_list(p, t, r).len())
{
    if k < 0 {
        if p[t].route(r) is None {
            false
        } else if has_nexts(p, t, r) {
            next_list(p, t, r).len() > 0 && defined_from(p, occ, t, r, len, next_list(p, t, r).len() as int)
        } else {
            true
        }
    } else if k == 0 {
        true
    } else {
        let n = next_list(p, t, r)[k - 1];
        &&& defined_from(p, occ, t, r, len, k - 1)
        &&& p[t].route(n) is Some
        &&& key_index(occ, n) is Some
        &&& (route_length_of(p, t, n) >= len || defined_from(p, occ, t, n, len - route_length_of(p, t, n), -1))
    }
}

/// The conditions under which `has_progressed_by_length` gives an answer.
pub open spec fn progress_defined(p: Seq<TrainView>, occ: OccView, t: int, r: Seq<char>, len: int) -> bool {
    defined_from(p, occ, t, r, len, -1)
}

/// The route data of route `r` of a train, at the index `find_route` gives.
proof fn lemma_route_at(train: &Train, r: Seq<char>, i: int)
    requires
        index_of_key(crate::problem::entries_view(train.routes@), r) == Some(i),
    ensures
        0 <= i < train.routes@.len(),
        train@.route(r) == Some(train.routes@[i].1@),
        train.routes@[i].0@ == r,
{
    lemma_index_of_key(crate::problem::entries_view(train.routes@), r);
}

proof fn lemma_defined_at(p: Seq<TrainView>, ov: OccView, t: int, r: Seq<char>, len: int, k: int, j: int)
    requires
        acyclic(p),
        0 <= t < p.len(),
        has_nexts(p, t, r),
        0 <= k <= next_list(p, t, r).len(),
        defined_from(p, ov, t, r, len, k),
        0 <= j < k,
    ensures
        p[t].route(next_list(p, t, r)[j]) is Some,
        key_index(ov, next_list(p, t, r)[j]) is Some,
        route_length_of(p, t, next_list(p, t, r)[j]) < len ==> progress_defined(
            p,
            ov,
            t,
            next_list(p, t, r)[j],
            len - route_length_of(p, t, next_list(p, t, r)[j]),
        ),
    decreases k,
{
    reveal_with_fuel(defined_from, 1);
    if j < k - 1 {
        lemma_defined_at(p, ov, t, r, len, k - 1, j);
    }
}

proof fn lemma_progress_defined_step(p: Seq<TrainView>, ov: OccView, t: int, r: Seq<char>, len: int, j: int)
    requires
        acyclic(p),
        0 <= t < p.len(),
        progress_defined(p, ov, t, r, len),
        has_nexts(p, t, r),
        0 <= j < next_list(p, t, r).len(),
    ensures
        p[t].route(next_list(p, t, r)[j]) is Some,
        key_index(ov, next_list(p, t, r)[j]) is Some,
        route_length_of(p, t, next_list(p, t, r)[j]) < len ==> progress_defined(
            p,
            ov,
            t,
            next_list(p, t, r)[j],
            len - route_length_of(p, t, next_list(p, t, r)[j]),
        ),
        the_rank(p)(t, next_list(p, t, r)[j]) < the_rank(p)(t, r),
{
    lemma_progress_defined_route(p, ov, t, r, len);
    lemma_defined_at(p, ov, t, r, len, next_list(p, t, r).len() as int, j);
    assert(ranked(p, the_rank(p)));
}

proof fn lemma_progress_defined_route(p: Seq<TrainView>, ov: OccView, t: int, r: Seq<char>, len: int)
    requires
        acyclic(p),
        0 <= t < p.len(),
        progress_defined(p, ov, t, r, len),
    ensures
        p[t].route(r) is Some,
        has_nexts(p, t, r) ==> next_list(p, t, r).len() > 0,
        has_nexts(p, t, r) ==> defined_from(p, ov, t, r, len, next_list(p, t, r).len() as int),
{
    reveal_with_fuel(defined_from, 1);
}

/// The unfoldings of `progressed_from`.
pub proof fn lemma_progressed_from(m: Model, p: Seq<TrainView>, occ: OccView, t: int, r: Seq<char>, len: int)
    requires
        acyclic(p),
        0 <= t < p.len(),
    ensures
        has_nexts(p, t, r) ==> progressed(m, p, occ, t, r, len) == progressed_from(
            m, p, occ, t, r, len, next_list(p, t, r).len() as int),
        !has_nexts(p, t, r) ==> progressed(m, p, occ, t, r, len),
        has_nexts(p, t, r) ==> !progressed_from(m, p, occ, t, r, len, 0),
        forall|k: int| has_nexts(p, t, r) && 0 <= k < next_list(p, t, r).len() ==>
            #[trigger] progressed_from(m, p, occ, t, r, len, k + 1) == (progressed_from(m, p, occ, t, r, len, k)
            || progressed_via(m, p, occ, t, next_list(p, t, r)[k], len)),
{
    reveal_with_fuel(progressed_from, 1);
}

proof fn lemma_any_true_push(m: Model, bs: Seq<Bool>, b: Bool)
    ensures
        any_true(m, bs.push(b)) == (any_true(m, bs) || eval(m, b)),
{
    if any_true(m, bs) {
        let i = choose|i: int| 0 <= i < bs.len() && eval(m, #[trigger] bs[i]);
        assert(bs.push(b)[i] == bs[i]);
    }
    if eval(m, b) {
        assert(bs.push(b)[bs.len() as int] == b);
    }
    if any_true(m, bs.push(b)) {
        let i = choose|i: int| 0 <= i < bs.push(b).len() && eval(m, #[trigger] bs.push(b)[i]);
        if i < bs.len() {
            assert(bs.push(b)[i] == bs[i]);
        }
    }
}

/// The formula "train `train` has moved on through the next route `next` by
/// at least `length`": it holds `next`, and `next` is long enough or the
/// train has moved on from it by the rest.
fn progress_alternative(
    s: &mut SatInstance,
    problem: &Problem,
    train: TrainId,
    next: &str,
    occ: &Vec<(String, FinSet)>,
    length: u64,
) -> (alt: Bool)
    requires
        train < problem.trains.len(),
        acyclic(problem@),
        occ_wf(occ_view(occ@)),
        problem@[train as int].route(next@) is Some,
        key_index(occ_view(occ@), next@) is Some,
        route_length_of(problem@, train as int, next@) < length ==> progress_defined(
            problem@,
            occ_view(occ@),
            train as int,
            next@,
            length - route_length_of(problem@, train as int, next@),
        ),
    ensures
        extends(final(s)@, old(s)@),
        forall|m: Model|
            meets(m, final(s)@) ==> eval(m, alt) == progressed_via(
                m,
                problem@,
                occ_view(occ@),
                train as int,
                next@,
                length as int,
            ),
        no_constraints_from(final(s)@, old(s)@.len() as int),
        defs_only_from(final(s)@, old(s)@.len() as int),
        sat_scoped(old(s)@) && occ_below(occ_view(occ@), old(s)@.len() as int) ==> sat_scoped(final(s)@) && bool_below(
            alt,
            final(s)@.len() as int,
        ),
    decreases the_rank(problem@)(train as int, next@), 2nat,
{
    let ghost p = problem@;
    let ghost ov = occ_view(occ@);
    let t = &problem.trains[train];
    assert(p[train as int] == t@);
    proof {
        lemma_index_of_key(crate::problem::entries_view(t.routes@), next@);
    }
    let ni = find_route(&t.routes, next).unwrap();
    proof {
        lemma_route_at(t, next@, ni as int);
    }
    let next_len = t.routes[ni].1.route_length;
    assert(route_length_of(p, train as int, next@) == next_len);
    let occupied = occ_has(occ, next, Some(train));
    let ghost before = s@;
    if next_len >= length {
        proof {
            lemma_extends_refl(s@);
        }
        occupied
    } else {
        let ghost n0 = s@.len() as int;
        let freeable = has_progressed_by_length(s, problem, train, next, occ, length - next_len);
        let ghost mid = s@;
        let ghost fv = freeable@;
        let k1 = s.len();
        let any_next = s.or_literal(freeable);
        let ghost mid2 = s@;
        let k2 = s.len();
        let ghost ins = seq![occupied, any_next];
        let both = s.and_literal(vec![occupied, any_next]);
        proof {
            lemma_extends_push(mid, CommandView::Or { inputs: fv });
            lemma_extends_push(mid2, CommandView::And { inputs: ins });
            lemma_extends_trans(s@, mid2, mid);
            lemma_extends_trans(s@, mid, before);
            assert forall|m: Model| meets(m, s@) implies eval(m, both) == progressed_via(
                m, p, ov, train as int, next@, length as int) by {
                lemma_meets_and(m, mid2, ins, k2);
                lemma_meets_or(m, mid, fv, k1);
                assert(ins[0] == occupied && ins[1] == any_next);
                assert(all_true(m, ins) == (eval(m, ins[0]) && eval(m, ins[1])));
            }
            lemma_no_constraints_push(mid, n0, CommandView::Or { inputs: fv });
            lemma_no_constraints_push(mid2, n0, CommandView::And { inputs: ins });
            lemma_defs_only_push(mid, n0, CommandView::Or { inputs: fv });
            lemma_defs_only_push(mid2, n0, CommandView::And { inputs: ins });
            if sat_scoped(before) && occ_below(ov, n0) {
                lemma_scoped_push(mid, CommandView::Or { inputs: fv });
                lemma_extends_len(mid, before);
                assert(bool_below(occupied, n0));
                assert(bool_below(occupied, mid2.len() as int));
                assert(bools_below(ins, mid2.len() as int)) by {
                    assert(ins[0] == occupied && ins[1] == any_next);
                    assert forall|i: int| 0 <= i < ins.len() implies bool_below(#[trigger] ins[i], mid2.len() as int) by {}
                }
                lemma_scoped_push(mid2, CommandView::And { inputs: ins });
            }
        }
        both
    }
}

/// The formulas "train `train` on `route` has moved on by at least `length`":
/// one per next route, true when the train holds that route and the route
/// is long enough or the train has moved on from it by the rest; a single
/// `true` where `route` leads out of the area. It adds only definitions
/// (`Or` and `And` commands), so every model of the instance before extends
/// to a model of the instance after.
pub fn has_progressed_by_length(
    s: &mut SatInstance,
    problem: &Problem,
    train: TrainId,
    route: &str,
    occ: &Vec<(String, FinSet)>,
    length: u64,
) -> (alternatives: Vec<Bool>)
    requires
        train < problem.trains.len(),
        acyclic(problem@),
        occ_wf(occ_view(occ@)),
        progress_defined(problem@, occ_view(occ@), train as int, route@, length as int),
    ensures
        extends(final(s)@, old(s)@),
        forall|m: Model|
            meets(m, final(s)@) ==> (any_true(m, alternatives@) == progressed(
                m,
                problem@,
                occ_view(occ@),
                train as int,
                route@,
                length as int,
            )),
        !has_nexts(problem@, train as int, route@) ==> alternatives@ == seq![Bool::Const(true)],
        has_nexts(problem@, train as int, route@) ==> alternatives@.len() == next_list(problem@, train as int, route@).len(),
        has_nexts(problem@, train as int, route@) ==> forall|m: Model, i: int|
            meets(m, final(s)@) && 0 <= i < alternatives@.len() ==> #[trigger] eval(m, alternatives@[i])
                == progressed_via(
                m,
                problem@,
                occ_view(occ@),
                train as int,
                next_list(problem@, train as int, route@)[i],
                length as int,
            ),
        no_constraints_from(final(s)@, old(s)@.len() as int),
        defs_only_from(final(s)@, old(s)@.len() as int),
        sat_scoped(old(s)@) && occ_below(occ_view(occ@), old(s)@.len() as int) ==> sat_scoped(final(s)@) && bools_below(
            alternatives@,
            final(s)@.len() as int,
        ),
        sat_scoped(old(s)@) && occ_below(occ_view(occ@), old(s)@.len() as int) ==> forall|m: Model|
            meets(m, old(s)@) ==> exists|m2: Model| meets(m2, final(s)@) && rows_agree(m, m2, old(s)@.len() as int),
    decreases the_rank(problem@)(train as int, route@), 1nat,
{
    let ghost p = problem@;
    let ghost ov = occ_view(occ@);
    let t = &problem.trains[train];
    assert(p[train as int] == t@);
    proof {
        lemma_progress_defined_route(p, ov, train as int, route@, length as int);
        lemma_index_of_key(crate::problem::entries_view(t.routes@), route@);
    }
    let ri = find_route(&t.routes, route).unwrap();
    proof {
        lemma_route_at(t, route@, ri as int);
        lemma_extends_refl(s@);
    }
    match &t.routes[ri].1.next_routes {
        Some(nexts) => {
            let ghost nv = nexts.deep_view();
            assert(has_nexts(p, train as int, route@));
            assert(next_list(p, train as int, route@) == nv);
            let mut alternatives: Vec<Bool> = Vec::new();
            proof {
                assert forall|m: Model| meets(m, s@) implies any_true(m, alternatives@) == progressed_from(
                    m, p, ov, train as int, route@, length as int, 0) by {
                    lemma_progressed_from(m, p, ov, train as int, route@, length as int);
                }
            }
            let mut j: usize = 0;
            while j < nexts.len()
                invariant
                    j <= nexts.len(),
                    nv == nexts.deep_view(),
                    p == problem@,
                    ov == occ_view(occ@),
                    train < problem.trains.len(),
                    acyclic(p),
                    occ_wf(ov),
                    p[train as int] == t@,
                    has_nexts(p, train as int, route@),
                    next_list(p, train as int, route@) == nv,
                    progress_defined(p, ov, train as int, route@, length as int),
                    extends(s@, old(s)@),
                    forall|m: Model|
                        meets(m, s@) ==> any_true(m, alternatives@) == progressed_from(
                            m,
                            p,
                            ov,
                            train as int,
                            route@,
                            length as int,
                            j as int,
                        ),
                    alternatives@.len() == j,
                    forall|m: Model, i: int|
                        meets(m, s@) && 0 <= i < j ==> #[trigger] eval(m, alternatives@[i]) == progressed_via(
                            m,
                            p,
                            ov,
                            train as int,
                            nv[i],
                            length as int,
                        ),
                    old(s)@.len() <= s@.len(),
                    no_constraints_from(s@, old(s)@.len() as int),
                    defs_only_from(s@, old(s)@.len() as int),
                    sat_scoped(old(s)@) && occ_below(ov, old(s)@.len() as int) ==> sat_scoped(s@) && bools_below(
                        alternatives@,
                        s@.len() as int,
                    ),
                decreases nexts.len() - j,
            {
                let next = &nexts[j];
                proof {
                    assert(nv[j as int] == next@);
                    lemma_progress_defined_step(p, ov, train as int, route@, length as int, j as int);
                }
                let ghost before = s@;
                let ghost alts_before = alternatives@;
                proof {
                    if sat_scoped(old(s)@) && occ_below(ov, old(s)@.len() as int) {
                        lemma_occ_below_mono(ov, old(s)@.len() as int, before.len() as int);
                    }
                }
                let alt = progress_alternative(s, problem, train, next.as_str(), occ, length);
                alternatives.push(alt);
                proof {
                    lemma_extends_trans(s@, before, old(s)@);
                    lemma_extends_len(s@, before);
                    lemma_no_constraints_trans(s@, before, old(s)@.len() as int);
                    lemma_defs_only_trans(s@, before, old(s)@.len() as int);
                    if sat_scoped(old(s)@) && occ_below(ov, old(s)@.len() as int) {
                        assert forall|i: int| 0 <= i < alternatives@.len() implies bool_below(#[trigger] alternatives@[i], s@.len() as int) by {
                            if i < j {
                                assert(alternatives@[i] == alts_before[i]);
                                assert(bool_below(alts_before[i], before.len() as int));
                            }
                        }
                    }
                    assert forall|m: Model| meets(m, s@) implies any_true(m, alternatives@) == progressed_from(
                        m, p, ov, train as int, route@, length as int, j + 1) by {
                        lemma_meets_prefix(m, s@, before);
                        lemma_any_true_push(m, alts_before, alt);
                        lemma_progressed_from(m, p, ov, train as int, route@, length as int);
                    }
                    assert forall|m: Model, i: int| meets(m, s@) && 0 <= i < j + 1 implies #[trigger] eval(
                        m,
                        alternatives@[i],
                    ) == progressed_via(m, p, ov, train as int, nv[i], length as int) by {
                        lemma_meets_prefix(m, s@, before);
                        if i < j {
                            assert(alternatives@[i] == alts_before[i]);
                        } else {
                            assert(alternatives@[i] == alt);
                        }
                    }
                }
                j += 1;
            }
            proof {
                assert forall|m: Model| meets(m, s@) implies (any_true(m, alternatives@) == progressed(
                    m, p, ov, train as int, route@, length as int)) by {
                    lemma_progressed_from(m, p, ov, train as int, route@, length as int);
                }
                if sat_scoped(old(s)@) && occ_below(ov, old(s)@.len() as int) {
                    assert forall|m: Model| meets(m, old(s)@) implies exists|m2: Model|
                        meets(m2, s@) && rows_agree(m, m2, old(s)@.len() as int) by {
                        let m2 = lemma_definitions_extend(m, s@, old(s)@);
                    }
                }
            }
            alternatives
        },
        None => {
            let alternatives = vec![Bool::Const(true)];
            proof {
                assert forall|m: Model| meets(m, s@) implies any_true(m, alternatives@) == progressed(
                    m, p, ov, train as int, route@, length as int) by {
                    assert(eval(m, alternatives@[0]));
                    lemma_progressed_from(m, p, ov, train as int, route@, length as int);
                }
                assert forall|m: Model| meets(m, old(s)@) implies exists|m2: Model|
                    meets(m2, s@) && rows_agree(m, m2, old(s)@.len() as int) by {
                    assert(rows_agree(m, m, old(s)@.len() as int));
                }
            }
            alternatives
        },
    }
}




/// Whether `r` is a route of some train.
pub open spec fn is_route_name(p: Seq<TrainView>, r: Seq<char>) -> bool {
    exists|t: int| 0 <= t < p.len() && (#[trigger] p[t].route(r)) is Some
}

/// The test "train `t` may take route `r`".
pub open spec fn takes(p: Seq<TrainView>, r: Seq<char>) -> spec_fn(int) -> bool {
    |t: int| 0 <= t < p.len() && p[t].route(r) is Some
}

/// The trains that may take route `r`, in order.
pub open spec fn trains_with(p: Seq<TrainView>, r: Seq<char>) -> Seq<int> {
    Seq::new(p.len(), |t: int| t).filter(takes(p, r))
}

/// The values the holder of route `r` can take: none, or one of the trains
/// that may take it.
pub open spec fn domain_of(p: Seq<TrainView>, r: Seq<char>) -> Seq<Option<usize>> {
    seq![None] + trains_with(p, r).map_values(|t: int| Some(t as usize))
}

/// In model `m`, the variable takes exactly one value.
pub open spec fn finset_ok(m: Model, fs: FinSetView) -> bool {
    &&& exists|i: int| 0 <= i < fs.lits.len() && eval(m, #[trigger] fs.lits[i])
    &&& forall|i: int, j: int|
        0 <= i < j < fs.lits.len() ==> !(eval(m, #[trigger] fs.lits[i]) && eval(m, #[trigger] fs.lits[j]))
}

/// In model `m`, every route of the table has exactly one holder.
pub open spec fn occ_ok(m: Model, occ: OccView) -> bool {
    forall|i: int| 0 <= i < occ.len() ==> finset_ok(m, #[trigger] occ[i].1)
}

/// Whether `v` holds a name equal to `r`.
pub fn contains_name(v: &Vec<String>, r: &str) -> (res: bool)
    ensures
        res == exists|i: int| 0 <= i < v@.len() && v@[i]@ == r@,
{
    let mut i: usize = 0;
    while i < v.len()
        invariant
            i <= v.len(),
            forall|j: int| 0 <= j < i ==> v@[j]@ != r@,
        decreases v.len() - i,
    {
        if crate::text::str_eq(v[i].as_str(), r) {
            return true;
        }
        i += 1;
    }
    false
}

/// The route names of all trains, each once, in order of first appearance.
pub fn route_names(problem: &Problem) -> (names: Vec<String>)
    ensures
        forall|i: int, j: int| 0 <= i < j < names@.len() ==> names@[i]@ != names@[j]@,
        forall|i: int| 0 <= i < names@.len() ==> is_route_name(problem@, #[trigger] names@[i]@),
        forall|r: Seq<char>| is_route_name(problem@, r) ==> exists|i: int| 0 <= i < names@.len() && names@[i]@ == r,
{
    let ghost p = problem@;
    let mut names: Vec<String> = Vec::new();
    let mut t: usize = 0;
    while t < problem.trains.len()
        invariant
            t <= problem.trains.len(),
            p == problem@,
            forall|i: int, j: int| 0 <= i < j < names@.len() ==> names@[i]@ != names@[j]@,
            forall|i: int| 0 <= i < names@.len() ==> is_route_name(p, #[trigger] names@[i]@),
            forall|u: int, r: Seq<char>|
                0 <= u < t && (#[trigger] p[u].route(r)) is Some ==> exists|i: int|
                    0 <= i < names@.len() && names@[i]@ == r,
        decreases problem.trains.len() - t,
    {
        let train = &problem.trains[t];
        assert(p[t as int] == train@);
        let ghost ev = crate::problem::entries_view(train.routes@);
        let mut k: usize = 0;
        while k < train.routes.len()
            invariant
                t < problem.trains.len(),
                k <= train.routes.len(),
                p == problem@,
                p[t as int] == train@,
                ev == crate::problem::entries_view(train.routes@),
                forall|i: int, j: int| 0 <= i < j < names@.len() ==> names@[i]@ != names@[j]@,
                forall|i: int| 0 <= i < names@.len() ==> is_route_name(p, #[trigger] names@[i]@),
                forall|u: int, r: Seq<char>|
                    0 <= u < t && (#[trigger] p[u].route(r)) is Some ==> exists|i: int|
                        0 <= i < names@.len() && names@[i]@ == r,
                forall|kk: int|
                    0 <= kk < k ==> exists|i: int| 0 <= i < names@.len() && names@[i]@ == #[trigger] ev[kk].0,
            decreases train.routes.len() - k,
        {
            let r = &train.routes[k].0;
            assert(ev[k as int].0 == r@);
            proof {
                lemma_index_of_key(ev, r@);
                let i0 = index_of_key(ev, r@)->0;
                assert(p[t as int].route(r@) is Some);
            }
            if !contains_name(&names, r.as_str()) {
                let ghost before = names@;
                names.push(r.clone());
                proof {
                    assert(names@[before.len() as int]@ == r@);
                    assert forall|kk: int| 0 <= kk < k + 1 implies exists|i: int|
                        0 <= i < names@.len() && names@[i]@ == #[trigger] ev[kk].0 by {
                        if kk < k {
                            let i = choose|i: int| 0 <= i < before.len() && before[i]@ == ev[kk].0;
                            assert(names@[i] == before[i]);
                        } else {
                            assert(names@[before.len() as int]@ == ev[kk].0);
                        }
                    }
                    assert forall|u: int, rr: Seq<char>|
                        0 <= u < t && (#[trigger] p[u].route(rr)) is Some implies exists|i: int|
                            0 <= i < names@.len() && names@[i]@ == rr by {
                        let i = choose|i: int| 0 <= i < before.len() && before[i]@ == rr;
                        assert(names@[i] == before[i]);
                    }
                }
            }
            k += 1;
        }
        proof {
            assert forall|u: int, r: Seq<char>|
                0 <= u < t + 1 && (#[trigger] p[u].route(r)) is Some implies exists|i: int|
                    0 <= i < names@.len() && names@[i]@ == r by {
                if u == t {
                    lemma_index_of_key(ev, r);
                    let kk = index_of_key(ev, r)->0;
                    assert(ev[kk].0 == r);
                }
            }
        }
        t += 1;
    }
    names
}

/// The values the holder of route `r` can take.
pub fn route_domain(problem: &Problem, r: &str) -> (domain: Vec<Option<TrainId>>)
    ensures
        domain@ == domain_of(problem@, r@),
{
    let ghost p = problem@;
    let ghost all = Seq::new(p.len(), |t: int| t);
    let mut users: Vec<Option<TrainId>> = Vec::new();
    let mut t: usize = 0;
    while t < problem.trains.len()
        invariant
            t <= problem.trains.len(),
            p == problem@,
            all == Seq::new(p.len(), |t: int| t),
            users@ == all.take(t as int).filter(takes(p, r@)).map_values(|u: int| Some(u as usize)),
        decreases problem.trains.len() - t,
    {
        proof {
            assert(all.take(t + 1) =~= all.take(t as int).push(t as int));
            all.take(t as int).lemma_filter_push(t as int, takes(p, r@));
        }
        let train = &problem.trains[t];
        assert(p[t as int] == train@);
        proof {
            lemma_index_of_key(crate::problem::entries_view(train.routes@), r@);
        }
        let ghost before = users@;
        if find_route(&train.routes, r).is_some() {
            users.push(Some(t));
            assert(users@ =~= all.take(t + 1).filter(takes(p, r@)).map_values(|u: int| Some(u as usize)));
        } else {
            assert(users@ =~= all.take(t + 1).filter(takes(p, r@)).map_values(|u: int| Some(u as usize)));
        }
        t += 1;
    }
    assert(all.take(t as int) =~= all);
    let mut domain: Vec<Option<TrainId>> = vec![None];
    domain.append(&mut users);
    assert(domain@ =~= domain_of(p, r@));
    domain
}

/// The formula is a constant or a variable of a `FinSet` command of `inst`
/// from command `from` on.
pub open spec fn lit_fresh(b: Bool, inst: Seq<CommandView>, from: int) -> bool {
    match b {
        Bool::Const(_) => true,
        Bool::Lit(l) => from <= l.cmd < inst.len() && inst[l.cmd as int] is FinSet && l.slot < inst[l.cmd as int]->domain.len()
            && l.positive,
    }
}

/// Every formula of the table is a constant or a variable of a `FinSet`
/// command of `inst` from command `from` on.
pub open spec fn occ_fresh(occ: OccView, inst: Seq<CommandView>, from: int) -> bool {
    forall|i: int, j: int| 0 <= i < occ.len() && 0 <= j < occ[i].1.lits.len() ==> lit_fresh(#[trigger] occ[i].1.lits[j], inst, from)
}

pub proof fn lemma_lit_fresh_extends(b: Bool, a: Seq<CommandView>, a2: Seq<CommandView>, from: int)
    requires
        lit_fresh(b, a, from),
        extends(a2, a),
    ensures
        lit_fresh(b, a2, from),
{
    reveal(crate::sat::extends);
    if let Bool::Lit(l) = b {
        assert(a2[l.cmd as int] == a2.subrange(0, a.len() as int)[l.cmd as int]);
    }
}

pub proof fn lemma_occ_fresh_extends(occ: OccView, a: Seq<CommandView>, a2: Seq<CommandView>, from: int)
    requires
        occ_fresh(occ, a, from),
        extends(a2, a),
    ensures
        occ_fresh(occ, a2, from),
{
    assert forall|i: int, j: int| 0 <= i < occ.len() && 0 <= j < occ[i].1.lits.len() implies lit_fresh(#[trigger] occ[i].1.lits[j], a2, from) by {
        lemma_lit_fresh_extends(occ[i].1.lits[j], a, a2, from);
    }
}

/// The formula is the variable of a `NewVar` command of `inst` from command
/// `from` on.
pub open spec fn fin_var(b: Bool, inst: Seq<CommandView>, from: int) -> bool {
    match b {
        Bool::Const(_) => false,
        Bool::Lit(l) => from <= l.cmd < inst.len() && inst[l.cmd as int] is NewVar && l.slot == 0 && l.positive,
    }
}

/// The formulas of `fin` are the variables of distinct `NewVar` commands of
/// `inst`, from command `from` on.
pub open spec fn fin_fresh(fin: Seq<Bool>, inst: Seq<CommandView>, from: int) -> bool {
    &&& forall|i: int| 0 <= i < fin.len() ==> fin_var(#[trigger] fin[i], inst, from)
    &&& forall|i: int, j: int| 0 <= i < j < fin.len() ==> (#[trigger] fin[i])->Lit_0.cmd != (#[trigger] fin[j])->Lit_0.cmd
}

pub proof fn lemma_fin_fresh_push(fin: Seq<Bool>, f: Bool, inst: Seq<CommandView>, from: int)
    requires
        fin_fresh(fin, inst, from),
        bools_below(fin, inst.len() as int),
        f == Bool::Lit(Lit { cmd: inst.len() as usize, slot: 0, positive: true }),
        from <= inst.len() <= usize::MAX,
    ensures
        fin_fresh(fin.push(f), inst.push(CommandView::NewVar), from),
{
    let fin2 = fin.push(f);
    let inst2 = inst.push(CommandView::NewVar);
    assert forall|i: int| 0 <= i < fin2.len() implies fin_var(#[trigger] fin2[i], inst2, from) by {
        if i < fin.len() {
            assert(fin2[i] == fin[i]);
            let l = fin[i]->Lit_0;
            assert(inst2[l.cmd as int] == inst[l.cmd as int]);
        }
    }
    assert forall|i: int, j: int| 0 <= i < j < fin2.len() implies (#[trigger] fin2[i])->Lit_0.cmd != (#[trigger] fin2[j])->Lit_0.cmd by {
        assert(fin2[i] == fin[i]);
        assert(bool_below(fin[i], inst.len() as int));
        if j < fin.len() {
            assert(fin2[j] == fin[j]);
        }
    }
}

pub proof fn lemma_fin_fresh_extends(fin: Seq<Bool>, a: Seq<CommandView>, a2: Seq<CommandView>, from: int)
    requires
        fin_fresh(fin, a, from),
        extends(a2, a),
    ensures
        fin_fresh(fin, a2, from),
{
    reveal(crate::sat::extends);
    assert forall|i: int| 0 <= i < fin.len() implies fin_var(#[trigger] fin[i], a2, from) by {
        let l = fin[i]->Lit_0;
        assert(a2[l.cmd as int] == a2.subrange(0, a.len() as int)[l.cmd as int]);
    }
}

pub proof fn lemma_fin_fresh_from_mono(fin: Seq<Bool>, inst: Seq<CommandView>, from: int, lower: int)
    requires
        fin_fresh(fin, inst, from),
        lower <= from,
    ensures
        fin_fresh(fin, inst, lower),
{
}

/// The formulas of a finite-domain variable over `domain`: constants for a
/// domain of one value, else the variables of a new `FinSet` command.
pub fn new_finset(s: &mut SatInstance, domain: Vec<Option<TrainId>>) -> (fs: FinSet)
    requires
        domain@.len() >= 1,
    ensures
        fs.domain@ == domain@,
        fs.lits@.len() == domain@.len(),
        extends(final(s)@, old(s)@),
        domain@.len() == 1 ==> final(s)@ == old(s)@ && fs.lits@ == seq![Bool::Const(true)],
        forall|m: Model| meets(m, final(s)@) ==> finset_ok(m, fs@),
        no_constraints_from(final(s)@, old(s)@.len() as int),
        forall|j: int| 0 <= j < fs.lits@.len() ==> lit_fresh(#[trigger] fs.lits@[j], final(s)@, old(s)@.len() as int),
        bools_below(fs.lits@, final(s)@.len() as int),
        sat_scoped(old(s)@) ==> sat_scoped(final(s)@),
{
    if domain.len() == 1 {
        let fs = FinSet { domain, lits: vec![Bool::Const(true)] };
        proof {
            lemma_extends_refl(s@);
            assert forall|m: Model| meets(m, s@) implies finset_ok(m, fs@) by {
                assert(eval(m, fs@.lits[0]));
            }
        }
        fs
    } else {
        let k = s.len();
        let ghost before = s@;
        let mut lits: Vec<Bool> = Vec::new();
        let mut i: usize = 0;
        while i < domain.len()
            invariant
                i <= domain.len(),
                lits@.len() == i,
                forall|j: int| 0 <= j < i ==> #[trigger] lits@[j] == Bool::Lit(Lit { cmd: k, slot: j as usize, positive: true }),
            decreases domain.len() - i,
        {
            lits.push(Bool::Lit(Lit { cmd: k, slot: i, positive: true }));
            i += 1;
        }
        let ghost dv = domain@;
        s.push_finset(domain.clone());
        let fs = FinSet { domain, lits };
        proof {
            lemma_extends_push(before, CommandView::FinSet { domain: dv });
            lemma_no_constraints_push(before, before.len() as int, CommandView::FinSet { domain: dv });
            if sat_scoped(before) {
                lemma_scoped_push(before, CommandView::FinSet { domain: dv });
            }
            assert(s@[k as int] == CommandView::FinSet { domain: dv });
            assert forall|j: int| 0 <= j < fs.lits@.len() implies lit_fresh(#[trigger] fs.lits@[j], s@, before.len() as int) by {
                assert(fs.lits@[j] == Bool::Lit(Lit { cmd: k, slot: j as usize, positive: true }));
            }
            assert forall|j: int| 0 <= j < fs.lits@.len() implies bool_below(#[trigger] fs.lits@[j], s@.len() as int) by {
                assert(fs.lits@[j] == Bool::Lit(Lit { cmd: k, slot: j as usize, positive: true }));
            }
            assert forall|m: Model| meets(m, s@) implies finset_ok(m, fs@) by {
                lemma_meets_finset(m, before, dv, k);
                let w = choose|w: int| 0 <= w < dv.len() && #[trigger] m[k as int][w];
                assert(fs@.lits[w] == Bool::Lit(Lit { cmd: k, slot: w as usize, positive: true }));
                assert(eval(m, fs@.lits[w]));
                assert forall|a: int, b: int| 0 <= a < b < fs@.lits.len() implies !(eval(m, #[trigger] fs@.lits[a]) && eval(m, #[trigger] fs@.lits[b])) by {
                    assert(fs@.lits[a] == Bool::Lit(Lit { cmd: k, slot: a as usize, positive: true }));
                    assert(fs@.lits[b] == Bool::Lit(Lit { cmd: k, slot: b as usize, positive: true }));
                }
            }
        }
        fs
    }
}


/// No route is an initial route twice, of one train or of two.
pub open spec fn initial_routes_distinct(p: Seq<TrainView>) -> bool {
    forall|t1: int, i1: int, t2: int, i2: int|
        0 <= t1 < p.len() && 0 <= t2 < p.len() && 0 <= i1 < p[t1].initial_routes.len() && 0 <= i2
            < p[t2].initial_routes.len() && (t1, i1) != (t2, i2) ==> #[trigger] p[t1].initial_routes[i1]
            != #[trigger] p[t2].initial_routes[i2]
}

/// Whether `r` is an initial route of train `t`.
pub open spec fn starts_on(p: Seq<TrainView>, t: int, r: Seq<char>) -> bool {
    0 <= t < p.len() && p[t].initial_routes.contains(r)
}

/// The train that stands on `r` at the start, if any.
pub open spec fn initial_holder(p: Seq<TrainView>, r: Seq<char>) -> Option<usize> {
    if exists|t: int| starts_on(p, t, r) {
        Some((choose|t: int| starts_on(p, t, r)) as usize)
    } else {
        None
    }
}

/// Whether route `r` of train `t` leads out of the area.
pub open spec fn leads_out(p: Seq<TrainView>, t: int, r: Seq<char>) -> bool {
    p[t].route(r) is Some && p[t].route(r)->0.next_routes is None
}

/// Whether train `t` starts on a route that leads out of the area.
pub open spec fn starts_finished(p: Seq<TrainView>, t: int) -> bool {
    exists|i: int|
        0 <= i < p[t].initial_routes.len() && #[trigger] leads_out(p, t, p[t].initial_routes[i])
}

/// The first step: each initial route held by its train, every other route
/// of the problem free, as constants; a train counts as finished when it
/// starts on a route that leads out of the area.
pub open spec fn initial_state_spec(p: Seq<TrainView>, st: StateView) -> bool {
    &&& distinct_keys(st.routes)
    &&& forall|i: int|
        0 <= i < st.routes.len() ==> {
            let r = (#[trigger] st.routes[i]).0;
            &&& (is_route_name(p, r) || exists|t: int| starts_on(p, t, r))
            &&& st.routes[i].1.domain == seq![initial_holder(p, r)]
            &&& st.routes[i].1.lits == seq![Bool::Const(true)]
        }
    &&& forall|r: Seq<char>|
        (is_route_name(p, r) || exists|t: int| starts_on(p, t, r)) ==> #[trigger] key_index(st.routes, r) is Some
    &&& st.trains_finished.len() == p.len()
    &&& forall|t: int| 0 <= t < p.len() ==> #[trigger] st.trains_finished[t] == Bool::Const(starts_finished(p, t))
}

proof fn lemma_initial_holder(p: Seq<TrainView>, t: int, r: Seq<char>)
    requires
        initial_routes_distinct(p),
        starts_on(p, t, r),
    ensures
        initial_holder(p, r) == Some(t as usize),
{
    let u = choose|u: int| starts_on(p, u, r);
    assert(starts_on(p, u, r));
    if u != t {
        let i1 = choose|i: int| 0 <= i < p[t].initial_routes.len() && p[t].initial_routes[i] == r;
        let i2 = choose|i: int| 0 <= i < p[u].initial_routes.len() && p[u].initial_routes[i] == r;
        assert(p[t].initial_routes[i1] != p[u].initial_routes[i2]);
    }
}

/// The first step of the encoding.
pub fn initial_state(s: &mut SatInstance, problem: &Problem) -> (st: State)
    requires
        initial_routes_distinct(problem@),
    ensures
        final(s)@ == old(s)@,
        initial_state_spec(problem@, st@),
{
    let ghost p = problem@;
    let mut occ: Vec<(String, FinSet)> = Vec::new();
    let mut t: usize = 0;
    while t < problem.trains.len()
        invariant
            t <= problem.trains.len(),
            p == problem@,
            s@ == old(s)@,
            initial_routes_distinct(p),
            distinct_keys(occ_view(occ@)),
            forall|i: int|
                0 <= i < occ@.len() ==> {
                    let r = (#[trigger] occ_view(occ@)[i]).0;
                    &&& exists|u: int| u < t && starts_on(p, u, r)
                    &&& occ_view(occ@)[i].1.domain == seq![initial_holder(p, r)]
                    &&& occ_view(occ@)[i].1.lits == seq![Bool::Const(true)]
                },
            forall|u: int, r: Seq<char>|
                0 <= u < t && #[trigger] starts_on(p, u, r) ==> key_index(occ_view(occ@), r) is Some,
        decreases problem.trains.len() - t,
    {
        let train = &problem.trains[t];
        assert(p[t as int] == train@);
        let mut k: usize = 0;
        while k < train.initial_routes.len()
            invariant
                t < problem.trains.len(),
                k <= train.initial_routes.len(),
                p == problem@,
                p[t as int] == train@,
                s@ == old(s)@,
                initial_routes_distinct(p),
                distinct_keys(occ_view(occ@)),
                forall|i: int|
                    0 <= i < occ@.len() ==> {
                        let r = (#[trigger] occ_view(occ@)[i]).0;
                        &&& ((exists|u: int| u < t && starts_on(p, u, r)) || exists|kk: int|
                            0 <= kk < k && p[t as int].initial_routes[kk] == r)
                        &&& occ_view(occ@)[i].1.domain == seq![initial_holder(p, r)]
                        &&& occ_view(occ@)[i].1.lits == seq![Bool::Const(true)]
                    },
                forall|u: int, r: Seq<char>|
                    0 <= u < t && #[trigger] starts_on(p, u, r) ==> key_index(occ_view(occ@), r) is Some,
                forall|kk: int|
                    0 <= kk < k ==> key_index(occ_view(occ@), #[trigger] p[t as int].initial_routes[kk]) is Some,
            decreases train.initial_routes.len() - k,
        {
            let r = &train.initial_routes[k];
            let ghost rv = r@;
            assert(p[t as int].initial_routes[k as int] == rv);
            assert(starts_on(p, t as int, rv));
            proof {
                lemma_initial_holder(p, t as int, rv);
                lemma_first_match(occ_view(occ@), named::<FinSetView>(rv));
                assert forall|i: int| 0 <= i < occ@.len() implies occ_view(occ@)[i].0 != rv by {
                    let ri = occ_view(occ@)[i].0;
                    if exists|u: int| u < t && starts_on(p, u, ri) {
                        let u = choose|u: int| u < t && starts_on(p, u, ri);
                        if ri == rv {
                            let i2 = choose|i: int| 0 <= i < p[u].initial_routes.len() && p[u].initial_routes[i] == rv;
                            assert(p[u].initial_routes[i2] != p[t as int].initial_routes[k as int]);
                        }
                    } else {
                        let kk = choose|kk: int| 0 <= kk < k && p[t as int].initial_routes[kk] == ri;
                        assert(p[t as int].initial_routes[kk] != p[t as int].initial_routes[k as int]);
                    }
                }
            }
            let mut d: Vec<Option<TrainId>> = Vec::new();
            d.push(Some(t));
            assert(d@ =~= seq![Some(t)]);
            let fs = new_finset(s, d);
            let ghost before = occ_view(occ@);
            occ.push((r.clone(), fs));
            proof {
                assert(occ_view(occ@) =~= before.push((rv, FinSetView { domain: seq![Some(t)], lits: seq![Bool::Const(true)] })));
                assert forall|rr: Seq<char>| #[trigger] key_index(before, rr) is Some implies key_index(occ_view(occ@), rr) is Some by {
                    lemma_first_match(before, named::<FinSetView>(rr));
                    let w = key_index(before, rr)->0;
                    assert(occ_view(occ@)[w] == before[w]);
                    lemma_first_match(occ_view(occ@), named::<FinSetView>(rr));
                    assert(named::<FinSetView>(rr)(occ_view(occ@)[w]));
                }
                lemma_first_match(occ_view(occ@), named::<FinSetView>(rv));
                assert(named::<FinSetView>(rv)(occ_view(occ@)[before.len() as int]));
                assert forall|i: int|
                    0 <= i < occ@.len() implies {
                        let r = (#[trigger] occ_view(occ@)[i]).0;
                        &&& ((exists|u: int| u < t && starts_on(p, u, r)) || exists|kk: int|
                            0 <= kk < k + 1 && p[t as int].initial_routes[kk] == r)
                        &&& occ_view(occ@)[i].1.domain == seq![initial_holder(p, r)]
                        &&& occ_view(occ@)[i].1.lits == seq![Bool::Const(true)]
                    } by {
                    if i < before.len() {
                        assert(occ_view(occ@)[i] == before[i]);
                    }
                }
            }
            k += 1;
        }
        proof {
            assert forall|i: int|
                0 <= i < occ@.len() implies exists|u: int| u < t + 1 && starts_on(p, u, #[trigger] occ_view(occ@)[i].0) by {
                let r = occ_view(occ@)[i].0;
                if !(exists|u: int| u < t && starts_on(p, u, r)) {
                    let kk = choose|kk: int| 0 <= kk < train.initial_routes@.len() && p[t as int].initial_routes[kk] == r;
                    assert(p[t as int].initial_routes.contains(r));
                    assert(starts_on(p, t as int, r));
                } else {
                    let u = choose|u: int| u < t && starts_on(p, u, r);
                    assert(starts_on(p, u, r));
                }
            }
            assert forall|u: int, r: Seq<char>|
                0 <= u < t + 1 && #[trigger] starts_on(p, u, r) implies key_index(occ_view(occ@), r) is Some by {
                if u == t {
                    let kk = choose|kk: int| 0 <= kk < p[t as int].initial_routes.len() && p[t as int].initial_routes[kk] == r;
                    assert(key_index(occ_view(occ@), p[t as int].initial_routes[kk]) is Some);
                }
            }
        }
        t += 1;
    }
    let names = route_names(problem);
    let mut j: usize = 0;
    while j < names.len()
        invariant
            j <= names.len(),
            p == problem@,
            s@ == old(s)@,
            initial_routes_distinct(p),
            forall|i: int| 0 <= i < names@.len() ==> is_route_name(p, #[trigger] names@[i]@),
            forall|r: Seq<char>| is_route_name(p, r) ==> exists|i: int| 0 <= i < names@.len() && names@[i]@ == r,
            distinct_keys(occ_view(occ@)),
            forall|i: int|
                0 <= i < occ@.len() ==> {
                    let r = (#[trigger] occ_view(occ@)[i]).0;
                    &&& (is_route_name(p, r) || exists|u: int| starts_on(p, u, r))
                    &&& occ_view(occ@)[i].1.domain == seq![initial_holder(p, r)]
                    &&& occ_view(occ@)[i].1.lits == seq![Bool::Const(true)]
                },
            forall|u: int, r: Seq<char>| #[trigger] starts_on(p, u, r) ==> key_index(occ_view(occ@), r) is Some,
            forall|jj: int| 0 <= jj < j ==> key_index(occ_view(occ@), #[trigger] names@[jj]@) is Some,
        decreases names.len() - j,
    {
        let r = &names[j];
        let ghost rv = r@;
        let ghost before = occ_view(occ@);
        proof {
            lemma_first_match(before, named::<FinSetView>(rv));
        }
        if find_occ(&occ, r.as_str()).is_none() {
            proof {
                if exists|u: int| starts_on(p, u, rv) {
                    let u = choose|u: int| starts_on(p, u, rv);
                    assert(key_index(before, rv) is Some);
                }
                assert(initial_holder(p, rv) == None::<usize>);
            }
            let mut d: Vec<Option<TrainId>> = Vec::new();
            d.push(None);
            assert(d@ =~= seq![None]);
            let fs = new_finset(s, d);
            occ.push((r.clone(), fs));
            proof {
                assert(occ_view(occ@) =~= before.push((rv, FinSetView { domain: seq![None], lits: seq![Bool::Const(true)] })));
                assert forall|rr: Seq<char>| #[trigger] key_index(before, rr) is Some implies key_index(occ_view(occ@), rr) is Some by {
                    lemma_first_match(before, named::<FinSetView>(rr));
                    let w = key_index(before, rr)->0;
                    assert(occ_view(occ@)[w] == before[w]);
                    lemma_first_match(occ_view(occ@), named::<FinSetView>(rr));
                    assert(named::<FinSetView>(rr)(occ_view(occ@)[w]));
                }
                lemma_first_match(occ_view(occ@), named::<FinSetView>(rv));
                assert(named::<FinSetView>(rv)(occ_view(occ@)[before.len() as int]));
                assert forall|i: int|
                    0 <= i < occ@.len() implies {
                        let r = (#[trigger] occ_view(occ@)[i]).0;
                        &&& (is_route_name(p, r) || exists|u: int| starts_on(p, u, r))
                        &&& occ_view(occ@)[i].1.domain == seq![initial_holder(p, r)]
                        &&& occ_view(occ@)[i].1.lits == seq![Bool::Const(true)]
                    } by {
                    if i < before.len() {
                        assert(occ_view(occ@)[i] == before[i]);
                    }
                }
            }
        }
        j += 1;
    }
    let mut finished: Vec<Bool> = Vec::new();
    let mut t: usize = 0;
    while t < problem.trains.len()
        invariant
            t <= problem.trains.len(),
            p == problem@,
            finished@.len() == t,
            forall|u: int| 0 <= u < t ==> #[trigger] finished@[u] == Bool::Const(starts_finished(p, u)),
        decreases problem.trains.len() - t,
    {
        let train = &problem.trains[t];
        assert(p[t as int] == train@);
        let mut any = false;
        let mut k: usize = 0;
        while k < train.initial_routes.len()
            invariant
                t < problem.trains.len(),
                p == problem@,
                p[t as int] == train@,
                k <= train.initial_routes.len(),
                any == exists|i: int|
                    0 <= i < k && #[trigger] leads_out(p, t as int, p[t as int].initial_routes[i]),
            decreases train.initial_routes.len() - k,
        {
            let r = &train.initial_routes[k];
            assert(p[t as int].initial_routes[k as int] == r@);
            proof {
                lemma_index_of_key(crate::problem::entries_view(train.routes@), r@);
            }
            let ghost any_before = any;
            match find_route(&train.routes, r.as_str()) {
                Some(i) => {
                    proof {
                        lemma_route_at(train, r@, i as int);
                    }
                    if train.routes[i].1.next_routes.is_none() {
                        assert(leads_out(p, t as int, p[t as int].initial_routes[k as int]));
                        any = true;
                    } else {
                        assert(!leads_out(p, t as int, p[t as int].initial_routes[k as int]));
                    }
                },
                None => {
                    assert(!leads_out(p, t as int, p[t as int].initial_routes[k as int]));
                },
            }
            assert(any == (any_before || leads_out(p, t as int, p[t as int].initial_routes[k as int])));
            k += 1;
        }
        finished.push(Bool::Const(any));
        t += 1;
    }
    let st = State { routes: occ, trains_finished: finished };
    proof {
        assert forall|r: Seq<char>|
            (is_route_name(p, r) || exists|t: int| starts_on(p, t, r)) implies #[trigger] key_index(st@.routes, r) is Some by {
            if is_route_name(p, r) {
                let i = choose|i: int| 0 <= i < names@.len() && names@[i]@ == r;
                assert(key_index(occ_view(occ@), names@[i]@) is Some);
            } else {
                let u = choose|u: int| starts_on(p, u, r);
                assert(starts_on(p, u, r));
            }
        }
    }
    st
}


/// Every next route of a train is one of its routes, and no route has an
/// empty list of next routes.
pub open spec fn nexts_ok(p: Seq<TrainView>) -> bool {
    forall|t: int, r: Seq<char>|
        0 <= t < p.len() && #[trigger] has_nexts(p, t, r) ==> next_list(p, t, r).len() > 0 && forall|j: int|
            0 <= j < next_list(p, t, r).len() ==> (#[trigger] p[t].route(next_list(p, t, r)[j])) is Some
}

/// An occupation table lists every route of the problem.
pub open spec fn covers(p: Seq<TrainView>, occ: OccView) -> bool {
    forall|r: Seq<char>| is_route_name(p, r) ==> #[trigger] key_index(occ, r) is Some
}

/// The occupation table of a step: the route names of the problem, each
/// once, each over the values `domain_of` gives.
#[verifier::opaque]
pub open spec fn step_occ(p: Seq<TrainView>, occ: OccView) -> bool {
    &&& distinct_keys(occ)
    &&& occ_wf(occ)
    &&& covers(p, occ)
    &&& forall|i: int|
        0 <= i < occ.len() ==> is_route_name(p, (#[trigger] occ[i]).0) && occ[i].1.domain == domain_of(p, occ[i].0)
}

/// The parts of `step_occ`.
pub proof fn lemma_step_occ(p: Seq<TrainView>, occ: OccView)
    requires
        step_occ(p, occ),
    ensures
        distinct_keys(occ),
        occ_wf(occ),
        covers(p, occ),
        forall|i: int|
            0 <= i < occ.len() ==> is_route_name(p, (#[trigger] occ[i]).0) && occ[i].1.domain == domain_of(p, occ[i].0),
{
    reveal(step_occ);
}

proof fn lemma_defined_from_k(p: Seq<TrainView>, occ: OccView, t: int, r: Seq<char>, len: int, k: int)
    requires
        acyclic(p),
        0 <= t < p.len(),
        nexts_ok(p),
        covers(p, occ),
        has_nexts(p, t, r),
        0 <= k <= next_list(p, t, r).len(),
    ensures
        defined_from(p, occ, t, r, len, k),
    decreases the_rank(p)(t, r), k,
{
    reveal_with_fuel(defined_from, 1);
    if k > 0 {
        lemma_defined_from_k(p, occ, t, r, len, k - 1);
        let n = next_list(p, t, r)[k - 1];
        assert(p[t].route(n) is Some);
        assert(is_route_name(p, n));
        assert(key_index(occ, n) is Some);
        assert(ranked(p, the_rank(p)));
        assert(the_rank(p)(t, n) < the_rank(p)(t, r));
        if route_length_of(p, t, n) < len {
            lemma_progress_defined_all(p, occ, t, n, len - route_length_of(p, t, n));
        }
    }
}

/// With next routes that are routes of the train, and an occupation table
/// that lists every route, `has_progressed_by_length` answers for every
/// route of every train.
pub proof fn lemma_progress_defined_all(p: Seq<TrainView>, occ: OccView, t: int, r: Seq<char>, len: int)
    requires
        acyclic(p),
        0 <= t < p.len(),
        nexts_ok(p),
        covers(p, occ),
        p[t].route(r) is Some,
    ensures
        progress_defined(p, occ, t, r, len),
    decreases the_rank(p)(t, r), next_list(p, t, r).len() + 1,
{
    reveal_with_fuel(defined_from, 1);
    if has_nexts(p, t, r) {
        lemma_defined_from_k(p, occ, t, r, len, next_list(p, t, r).len() as int);
    }
}

/// The trains of the domain of route `r` are those that may take it.
pub proof fn lemma_domain_of(p: Seq<TrainView>, r: Seq<char>)
    requires
        p.len() <= usize::MAX,
    ensures
        domain_of(p, r).len() >= 1,
        domain_of(p, r)[0] == None::<usize>,
        forall|d: int|
            1 <= d < domain_of(p, r).len() ==> (#[trigger] domain_of(p, r)[d]) is Some && 0 <= domain_of(
                p,
                r,
            )[d]->0 < p.len() && p[domain_of(p, r)[d]->0 as int].route(r) is Some,
        forall|t: int|
            0 <= t < p.len() && (#[trigger] p[t].route(r)) is Some ==> exists|d: int|
                1 <= d < domain_of(p, r).len() && domain_of(p, r)[d] == Some(t as usize),
{
    let all = Seq::new(p.len(), |t: int| t);
    let tw = trains_with(p, r);
    assert forall|d: int| 1 <= d < domain_of(p, r).len() implies (#[trigger] domain_of(p, r)[d]) is Some && 0
        <= domain_of(p, r)[d]->0 < p.len() && p[domain_of(p, r)[d]->0 as int].route(r) is Some by {
        all.lemma_filter_pred(takes(p, r), d - 1);
        assert(takes(p, r)(tw[d - 1]));
        assert(domain_of(p, r)[d] == Some(tw[d - 1] as usize));
    }
    assert forall|t: int| 0 <= t < p.len() && (#[trigger] p[t].route(r)) is Some implies exists|d: int|
        1 <= d < domain_of(p, r).len() && domain_of(p, r)[d] == Some(t as usize) by {
        assert(all[t] == t);
        all.lemma_filter_contains(takes(p, r), t);
        let i = choose|i: int| 0 <= i < tw.len() && tw[i] == t;
        assert(domain_of(p, r)[i + 1] == Some(t as usize));
    }
}

/// The occupation table of a new step: a finite-domain variable per route.
pub fn new_occupation(s: &mut SatInstance, problem: &Problem) -> (occ: Vec<(String, FinSet)>)
    ensures
        extends(final(s)@, old(s)@),
        step_occ(problem@, occ_view(occ@)),
        forall|m: Model| meets(m, final(s)@) ==> occ_ok(m, occ_view(occ@)),
        no_constraints_from(final(s)@, old(s)@.len() as int),
        occ_fresh(occ_view(occ@), final(s)@, old(s)@.len() as int),
        occ_below(occ_view(occ@), final(s)@.len() as int),
        sat_scoped(old(s)@) ==> sat_scoped(final(s)@),
{
    let ghost p = problem@;
    let names = route_names(problem);
    let mut occ: Vec<(String, FinSet)> = Vec::new();
    proof {
        lemma_extends_refl(s@);
    }
    let mut j: usize = 0;
    while j < names.len()
        invariant
            j <= names.len(),
            p == problem@,
            forall|a: int, b: int| 0 <= a < b < names@.len() ==> names@[a]@ != names@[b]@,
            forall|i: int| 0 <= i < names@.len() ==> is_route_name(p, #[trigger] names@[i]@),
            occ@.len() == j,
            forall|i: int| 0 <= i < j ==> (#[trigger] occ_view(occ@)[i]).0 == names@[i]@,
            occ_wf(occ_view(occ@)),
            forall|i: int| 0 <= i < j ==> (#[trigger] occ_view(occ@)[i]).1.domain == domain_of(p, names@[i]@),
            extends(s@, old(s)@),
            forall|m: Model| meets(m, s@) ==> occ_ok(m, occ_view(occ@)),
            no_constraints_from(s@, old(s)@.len() as int),
            occ_fresh(occ_view(occ@), s@, old(s)@.len() as int),
            occ_below(occ_view(occ@), s@.len() as int),
            sat_scoped(old(s)@) ==> sat_scoped(s@),
        decreases names.len() - j,
    {
        let r = &names[j];
        let domain = route_domain(problem, r.as_str());
        assert(domain@.len() >= 1);
        let ghost before_s = s@;
        let ghost before = occ_view(occ@);
        let fs = new_finset(s, domain);
        let ghost fv = fs@;
        occ.push((r.clone(), fs));
        proof {
            assert(occ_view(occ@) =~= before.push((r@, fv)));
            lemma_extends_trans(s@, before_s, old(s)@);
            lemma_extends_len(before_s, old(s)@);
            lemma_extends_len(s@, before_s);
            lemma_no_constraints_trans(s@, before_s, old(s)@.len() as int);
            lemma_occ_fresh_extends(before, before_s, s@, old(s)@.len() as int);
            lemma_occ_below_mono(before, before_s.len() as int, s@.len() as int);
            let ov2 = occ_view(occ@);
            assert forall|i: int, jj: int| 0 <= i < ov2.len() && 0 <= jj < ov2[i].1.lits.len() implies lit_fresh(
                #[trigger] ov2[i].1.lits[jj], s@, old(s)@.len() as int) by {
                if i < before.len() {
                    assert(ov2[i] == before[i]);
                } else {
                    assert(ov2[i].1 == fv);
                    assert(lit_fresh(fv.lits[jj], s@, before_s.len() as int));
                }
            }
            assert forall|i: int| 0 <= i < ov2.len() implies bools_below((#[trigger] ov2[i]).1.lits, s@.len() as int) by {
                if i < before.len() {
                    assert(ov2[i] == before[i]);
                }
            }
            assert forall|m: Model| meets(m, s@) implies occ_ok(m, occ_view(occ@)) by {
                lemma_meets_prefix(m, s@, before_s);
                assert forall|i: int| 0 <= i < occ_view(occ@).len() implies finset_ok(m, #[trigger] occ_view(occ@)[i].1) by {
                    if i < before.len() {
                        assert(occ_view(occ@)[i] == before[i]);
                    }
                }
            }
        }
        j += 1;
    }
    proof {
        reveal(step_occ);
        let ov = occ_view(occ@);
        assert forall|r: Seq<char>| is_route_name(p, r) implies #[trigger] key_index(ov, r) is Some by {
            let i = choose|i: int| 0 <= i < names@.len() && names@[i]@ == r;
            lemma_first_match(ov, named::<FinSetView>(r));
            assert(named::<FinSetView>(r)(ov[i]));
        }
    }
    occ
}


/// Whether in model `m` train `t` holds route `r` of table `occ`.
pub open spec fn at(m: Model, occ: OccView, r: Seq<char>, t: int) -> bool {
    occupies(m, occ, r, Some(t as usize))
}

/// Whether in model `m` route `r` of table `occ` is free.
pub open spec fn free(m: Model, occ: OccView, r: Seq<char>) -> bool {
    occupies(m, occ, r, None)
}

/// No route lists itself among its unconditional conflicts.
pub open spec fn no_self_conflict(p: Seq<TrainView>) -> bool {
    forall|t: int, k: int|
        0 <= t < p.len() && 0 <= k < p[t].routes.len() ==> !(#[trigger] p[t].routes[k]).1.unconditional_conflicts.contains(
            p[t].routes[k].0,
        )
}

/// Unconditional conflicts of entry `k` of train `t`: while the train holds
/// the route, each conflicting route of the table is free or held by the
/// same train.
pub open spec fn unconditional_entry(m: Model, p: Seq<TrainView>, occ: OccView, t: int, k: int) -> bool {
    forall|j: int|
        0 <= j < p[t].routes[k].1.unconditional_conflicts.len() && key_index(
            occ,
            p[t].routes[k].1.unconditional_conflicts[j],
        ) is Some && at(m, occ, p[t].routes[k].0, t) ==> at(
            m,
            occ,
            #[trigger] p[t].routes[k].1.unconditional_conflicts[j],
            t,
        ) || free(m, occ, p[t].routes[k].1.unconditional_conflicts[j])
}

/// The unconditional conflicts of every route of every train.
pub open spec fn unconditional_holds(m: Model, p: Seq<TrainView>, occ: OccView) -> bool {
    forall|t: int, k: int| 0 <= t < p.len() && 0 <= k < p[t].routes.len() ==> #[trigger] unconditional_entry(m, p, occ, t, k)
}

/// Entry `k` of a train's table names a route of the problem.
proof fn lemma_entry_is_route(train: &Train, p: Seq<TrainView>, t: int, k: int)
    requires
        0 <= t < p.len(),
        p[t] == train@,
        0 <= k < train.routes@.len(),
    ensures
        p[t].route(p[t].routes[k].0) is Some,
        is_route_name(p, p[t].routes[k].0),
        p[t].routes[k].0 == train.routes@[k].0@,
        p[t].routes[k].1 == train.routes@[k].1@,
{
    lemma_index_of_key(crate::problem::entries_view(train.routes@), p[t].routes[k].0);
}

fn add_unconditional_entry(s: &mut SatInstance, problem: &Problem, occ: &Vec<(String, FinSet)>, t: usize, k: usize)
    requires
        t < problem.trains.len(),
        k < problem.trains@[t as int].routes@.len(),
        step_occ(problem@, occ_view(occ@)),
        no_self_conflict(problem@),
        sat_scoped(old(s)@),
        occ_below(occ_view(occ@), old(s)@.len() as int),
    ensures
        extends(final(s)@, old(s)@),
        forall|m: Model| meets(m, final(s)@) ==> unconditional_entry(m, problem@, occ_view(occ@), t as int, k as int),
        sat_scoped(final(s)@),
        forall|m: Model|
            meets(m, old(s)@) && defs_ok(m, final(s)@, old(s)@.len() as int) && unconditional_entry(
                m,
                problem@,
                occ_view(occ@),
                t as int,
                k as int,
            ) ==> meets(m, final(s)@),
{
    let ghost p = problem@;
    let ghost ov = occ_view(occ@);
    let train = &problem.trains[t];
    assert(p[t as int] == train@);
    proof {
        lemma_entry_is_route(train, p, t as int, k as int);
        lemma_extends_refl(s@);
    }
    let r1 = &train.routes[k].0;
    let rd = &train.routes[k].1;
    let ghost uv = rd.unconditional_conflicts.deep_view();
    assert(uv == p[t as int].routes[k as int].1.unconditional_conflicts);
    proof {
        lemma_step_occ(p, ov);
    }
    let mut j: usize = 0;
    while j < rd.unconditional_conflicts.len()
        invariant
            t < problem.trains.len(),
            j <= rd.unconditional_conflicts.len(),
            p == problem@,
            ov == occ_view(occ@),
            occ_wf(ov),
            covers(p, ov),
            p[t as int] == train@,
            k < train.routes@.len(),
            r1@ == p[t as int].routes[k as int].0,
            rd == train.routes@[k as int].1,
            uv == rd.unconditional_conflicts.deep_view(),
            uv == p[t as int].routes[k as int].1.unconditional_conflicts,
            is_route_name(p, r1@),
            extends(s@, old(s)@),
            forall|m: Model|
                meets(m, s@) ==> forall|jj: int|
                    0 <= jj < j && key_index(ov, uv[jj]) is Some && at(m, ov, r1@, t as int) ==> at(
                        m,
                        ov,
                        #[trigger] uv[jj],
                        t as int,
                    ) || free(m, ov, uv[jj]),
            sat_scoped(s@),
            occ_below(ov, old(s)@.len() as int),
            old(s)@.len() <= s@.len(),
            forall|m: Model|
                meets(m, old(s)@) && defs_ok(m, s@, old(s)@.len() as int) && unconditional_entry(m, p, ov, t as int, k as int)
                    ==> meets(m, s@),
        decreases rd.unconditional_conflicts.len() - j,
    {
        let r2 = &rd.unconditional_conflicts[j];
        assert(uv[j as int] == r2@);
        let ghost before = s@;
        if find_occ(occ, r2.as_str()).is_some() {
            let a = occ_has(occ, r1.as_str(), Some(t));
            let b = occ_has(occ, r2.as_str(), Some(t));
            let c = occ_has(occ, r2.as_str(), None);
            let na = not(a);
            let ghost lits = seq![na, b, c];
            s.add_clause(vec![na, b, c]);
            proof {
                lemma_extends_push(before, CommandView::Clause { lits });
                assert(bool_below(a, old(s)@.len() as int) && bool_below(b, old(s)@.len() as int) && bool_below(c, old(s)@.len() as int));
                assert forall|i: int| 0 <= i < lits.len() implies bool_below(#[trigger] lits[i], before.len() as int) by {}
                lemma_scoped_push(before, CommandView::Clause { lits });
                assert forall|m: Model|
                    meets(m, old(s)@) && defs_ok(m, s@, old(s)@.len() as int) && unconditional_entry(m, p, ov, t as int, k as int)
                        implies meets(m, s@) by {
                    lemma_defs_prefix(m, s@, before, old(s)@.len() as int);
                    assert(meets(m, before));
                    assert(uv[j as int] == r2@);
                    if at(m, ov, r1@, t as int) {
                        assert(at(m, ov, uv[j as int], t as int) || free(m, ov, uv[j as int]));
                        if eval(m, b) {
                            lemma_meets_push_clause(m, before, lits, 1, old(s)@.len() as int);
                        } else {
                            lemma_meets_push_clause(m, before, lits, 2, old(s)@.len() as int);
                        }
                    } else {
                        lemma_meets_push_clause(m, before, lits, 0, old(s)@.len() as int);
                    }
                }
                assert forall|m: Model| meets(m, s@) implies (at(m, ov, r1@, t as int) ==> at(m, ov, r2@, t as int)
                    || free(m, ov, r2@)) by {
                    lemma_meets_clause(m, before, lits);
                    let i = choose|i: int| 0 <= i < lits.len() && eval(m, #[trigger] lits[i]);
                    assert(i == 0 || i == 1 || i == 2);
                }
            }
        } else {
            proof {
                lemma_extends_refl(s@);
            }
        }
        proof {
            lemma_extends_trans(s@, before, old(s)@);
            lemma_extends_len(s@, before);
            assert forall|m: Model| meets(m, s@) implies forall|jj: int|
                0 <= jj < j + 1 && key_index(ov, uv[jj]) is Some && at(m, ov, r1@, t as int) ==> at(
                    m,
                    ov,
                    #[trigger] uv[jj],
                    t as int,
                ) || free(m, ov, uv[jj]) by {
                lemma_meets_prefix(m, s@, before);
            }
        }
        j += 1;
    }
}

/// Adds the unconditional conflicts of every route of every train.
pub fn add_unconditional_exclusions(s: &mut SatInstance, problem: &Problem, occ: &Vec<(String, FinSet)>)
    requires
        step_occ(problem@, occ_view(occ@)),
        no_self_conflict(problem@),
        sat_scoped(old(s)@),
        occ_below(occ_view(occ@), old(s)@.len() as int),
    ensures
        extends(final(s)@, old(s)@),
        forall|m: Model| meets(m, final(s)@) ==> unconditional_holds(m, problem@, occ_view(occ@)),
        sat_scoped(final(s)@),
        forall|m: Model|
            meets(m, old(s)@) && defs_ok(m, final(s)@, old(s)@.len() as int) && unconditional_holds(m, problem@, occ_view(occ@))
                ==> meets(m, final(s)@),
{
    let ghost p = problem@;
    let ghost ov = occ_view(occ@);
    proof {
        lemma_extends_refl(s@);
    }
    let mut t: usize = 0;
    while t < problem.trains.len()
        invariant
            t <= problem.trains.len(),
            p == problem@,
            ov == occ_view(occ@),
            step_occ(p, ov),
            no_self_conflict(p),
            extends(s@, old(s)@),
            forall|m: Model|
                meets(m, s@) ==> forall|u: int, k: int|
                    0 <= u < t && 0 <= k < p[u].routes.len() ==> #[trigger] unconditional_entry(m, p, ov, u, k),
            sat_scoped(s@),
            occ_below(ov, old(s)@.len() as int),
            old(s)@.len() <= s@.len(),
            forall|m: Model|
                meets(m, old(s)@) && defs_ok(m, s@, old(s)@.len() as int) && unconditional_holds(m, p, ov) ==> meets(m, s@),
        decreases problem.trains.len() - t,
    {
        let nk = problem.trains[t].routes.len();
        assert(p[t as int].routes.len() == nk);
        let mut k: usize = 0;
        while k < nk
            invariant
                t < problem.trains.len(),
                k <= nk,
                nk == problem.trains@[t as int].routes@.len(),
                p[t as int].routes.len() == nk,
                p == problem@,
                ov == occ_view(occ@),
                step_occ(p, ov),
                no_self_conflict(p),
                extends(s@, old(s)@),
                forall|m: Model|
                    meets(m, s@) ==> forall|u: int, kk: int|
                        (0 <= u < t && 0 <= kk < p[u].routes.len()) || (u == t && 0 <= kk < k)
                            ==> #[trigger] unconditional_entry(m, p, ov, u, kk),
                sat_scoped(s@),
                occ_below(ov, old(s)@.len() as int),
                old(s)@.len() <= s@.len(),
                forall|m: Model|
                    meets(m, old(s)@) && defs_ok(m, s@, old(s)@.len() as int) && unconditional_holds(m, p, ov) ==> meets(m, s@),
            decreases nk - k,
        {
            let ghost before = s@;
            proof {
                lemma_occ_below_mono(ov, old(s)@.len() as int, before.len() as int);
            }
            add_unconditional_entry(s, problem, occ, t, k);
            proof {
                lemma_extends_trans(s@, before, old(s)@);
                lemma_extends_len(s@, before);
                assert forall|m: Model|
                    meets(m, old(s)@) && defs_ok(m, s@, old(s)@.len() as int) && unconditional_holds(m, p, ov) implies meets(m, s@) by {
                    lemma_defs_prefix(m, s@, before, old(s)@.len() as int);
                    lemma_defs_from_mono(m, s@, old(s)@.len() as int, before.len() as int);
                    assert(unconditional_entry(m, p, ov, t as int, k as int));
                }
                assert forall|m: Model| meets(m, s@) implies forall|u: int, kk: int|
                    (0 <= u < t && 0 <= kk < p[u].routes.len()) || (u == t && 0 <= kk < k + 1)
                        ==> #[trigger] unconditional_entry(m, p, ov, u, kk) by {
                    lemma_meets_prefix(m, s@, before);
                }
            }
            k += 1;
        }
        t += 1;
    }
}


/// The length by which a train must have moved on from entry `k` before
/// routes that conflict with the entry's switch may be given to another
/// train: its length beyond the route without the switch.
pub open spec fn alloc_len(p: Seq<TrainView>, t: int, k: int) -> int {
    p[t].routes[k].1.train_length - (p[t].routes[k].1.route_length - p[t].routes[k].1.switch_length)
}

/// The allocation-conflict length of each entry with a conflicting route
/// that another train may take is defined: the switch is part of the
/// route, and the train is at least as long as the route without it.
pub open spec fn alloc_ok(p: Seq<TrainView>) -> bool {
    forall|t1: int, k: int, j: int, t2: int|
        0 <= t1 < p.len() && 0 <= k < p[t1].routes.len() && 0 <= j < p[t1].routes[k].1.allocation_conflicts.len()
            && 0 <= t2 < p.len() && t2 != t1 && (#[trigger] p[t2].route(
            #[trigger] p[t1].routes[k].1.allocation_conflicts[j],
        )) is Some ==> {
            let rd = p[t1].routes[k].1;
            &&& rd.switch_length <= rd.route_length
            &&& rd.route_length - rd.switch_length <= rd.train_length
        }
}

/// An allocation conflict between entry `k` of train `t1` and train `t2` on
/// the `j`-th conflicting route: while `t1` holds the route and has not
/// moved on from it by `alloc_len`, `t2` cannot newly take the conflicting route.
pub open spec fn allocation_pair(
    m: Model,
    p: Seq<TrainView>,
    prev: OccView,
    occ: OccView,
    t1: int,
    k: int,
    j: int,
    t2: int,
) -> bool {
    let r1 = p[t1].routes[k].0;
    let r2 = p[t1].routes[k].1.allocation_conflicts[j];
    at(m, occ, r1, t1) && !progressed(m, p, occ, t1, r1, alloc_len(p, t1, k)) && at(m, occ, r2, t2) ==> at(
        m,
        prev,
        r2,
        t2,
    )
}

/// The allocation conflicts of entry `k` of train `t1`.
pub open spec fn allocation_entry(m: Model, p: Seq<TrainView>, prev: OccView, occ: OccView, t1: int, k: int) -> bool {
    forall|j: int, t2: int|
        0 <= j < p[t1].routes[k].1.allocation_conflicts.len() && 0 <= t2 < p.len() && t2 != t1 && p[t2].route(
            p[t1].routes[k].1.allocation_conflicts[j],
        ) is Some ==> #[trigger] allocation_pair(m, p, prev, occ, t1, k, j, t2)
}

/// The allocation conflicts of every route of every train.
pub open spec fn allocation_holds(m: Model, p: Seq<TrainView>, prev: OccView, occ: OccView) -> bool {
    forall|t: int, k: int|
        0 <= t < p.len() && 0 <= k < p[t].routes.len() ==> #[trigger] allocation_entry(m, p, prev, occ, t, k)
}

proof fn lemma_clause_cases(m: Model, a: Bool, mid: Seq<Bool>, b: Bool, c: Bool)
    requires
        any_true(m, seq![a] + mid + seq![b, c]),
    ensures
        eval(m, a) || any_true(m, mid) || eval(m, b) || eval(m, c),
{
    let l = seq![a] + mid + seq![b, c];
    let i = choose|i: int| 0 <= i < l.len() && eval(m, #[trigger] l[i]);
    if i == 0 {
    } else if i <= mid.len() {
        assert(l[i] == mid[i - 1]);
    } else if i == mid.len() + 1 {
    } else {
    }
}

fn add_allocation_pair(
    s: &mut SatInstance,
    problem: &Problem,
    prev: &Vec<(String, FinSet)>,
    occ: &Vec<(String, FinSet)>,
    t1: usize,
    k: usize,
    j: usize,
    t2: usize,
)
    requires
        t1 < problem.trains.len(),
        t2 < problem.trains.len(),
        t1 != t2,
        k < problem.trains@[t1 as int].routes@.len(),
        j < problem@[t1 as int].routes[k as int].1.allocation_conflicts.len(),
        problem@[t2 as int].route(problem@[t1 as int].routes[k as int].1.allocation_conflicts[j as int]) is Some,
        step_occ(problem@, occ_view(occ@)),
        occ_wf(occ_view(prev@)),
        covers(problem@, occ_view(prev@)),
        acyclic(problem@),
        nexts_ok(problem@),
        alloc_ok(problem@),
        sat_scoped(old(s)@),
        occ_below(occ_view(occ@), old(s)@.len() as int),
        occ_below(occ_view(prev@), old(s)@.len() as int),
    ensures
        extends(final(s)@, old(s)@),
        sat_scoped(final(s)@),
        forall|m: Model|
            meets(m, old(s)@) && defs_ok(m, final(s)@, old(s)@.len() as int) && allocation_pair(
                m,
                problem@,
                occ_view(prev@),
                occ_view(occ@),
                t1 as int,
                k as int,
                j as int,
                t2 as int,
            ) ==> meets(m, final(s)@),
        forall|m: Model|
            meets(m, final(s)@) ==> allocation_pair(
                m,
                problem@,
                occ_view(prev@),
                occ_view(occ@),
                t1 as int,
                k as int,
                j as int,
                t2 as int,
            ),
{
    let ghost p = problem@;
    let ghost ov = occ_view(occ@);
    let ghost pv = occ_view(prev@);
    proof {
        lemma_step_occ(p, ov);
    }
    let train = &problem.trains[t1];
    assert(p[t1 as int] == train@);
    proof {
        lemma_entry_is_route(train, p, t1 as int, k as int);
    }
    let r1 = &train.routes[k].0;
    let rd = &train.routes[k].1;
    let r2 = &rd.allocation_conflicts[j];
    assert(rd.allocation_conflicts.deep_view()[j as int] == r2@);
    let ghost r2v = r2@;
    assert(is_route_name(p, r2v));
    assert(key_index(ov, r2v) is Some);
    assert(key_index(pv, r2v) is Some);
    assert(p[t2 as int].route(p[t1 as int].routes[k as int].1.allocation_conflicts[j as int]) is Some);
    let length = rd.train_length - (rd.route_length - rd.switch_length);
    assert(length == alloc_len(p, t1 as int, k as int));
    proof {
        lemma_progress_defined_all(p, ov, t1 as int, r1@, length as int);
    }
    let ghost s0 = s@;
    let cont = has_progressed_by_length(s, problem, t1, r1.as_str(), occ, length);
    let oa = occ_has(occ, r1.as_str(), Some(t1));
    let a = not(oa);
    let b = occ_has(prev, r2.as_str(), Some(t2));
    let oc = occ_has(occ, r2.as_str(), Some(t2));
    let c = not(oc);
    let ghost cv = cont@;
    let mut lits: Vec<Bool> = Vec::new();
    lits.push(a);
    let mut cont = cont;
    lits.append(&mut cont);
    lits.push(b);
    lits.push(c);
    let ghost lv = lits@;
    assert(lv =~= seq![a] + cv + seq![b, c]);
    let ghost s1 = s@;
    s.add_clause(lits);
    proof {
        lemma_extends_push(s1, CommandView::Clause { lits: lv });
        lemma_extends_trans(s@, s1, s0);
        assert forall|m: Model| meets(m, s@) implies allocation_pair(m, p, pv, ov, t1 as int, k as int, j as int, t2 as int) by {
            lemma_meets_clause(m, s1, lv);
            lemma_clause_cases(m, a, cv, b, c);
        }
        let n0 = s0.len() as int;
        lemma_extends_len(s1, s0);
        assert(bools_below(cv, s1.len() as int));
        assert(bool_below(oa, n0) && bool_below(b, n0) && bool_below(oc, n0));
        assert(bool_below(a, n0) && bool_below(c, n0));
        assert forall|i: int| 0 <= i < lv.len() implies bool_below(#[trigger] lv[i], s1.len() as int) by {
            if 1 <= i < lv.len() - 2 {
                assert(lv[i] == cv[i - 1]);
            } else if i == 0 {
                assert(lv[i] == a);
            } else if i == lv.len() - 2 {
                assert(lv[i] == b);
            } else {
                assert(lv[i] == c);
            }
        }
        lemma_scoped_push(s1, CommandView::Clause { lits: lv });
        assert forall|m: Model|
            meets(m, s0) && defs_ok(m, s@, n0) && allocation_pair(m, p, pv, ov, t1 as int, k as int, j as int, t2 as int)
                implies meets(m, s@) by {
            lemma_defs_prefix(m, s@, s1, n0);
            lemma_meets_defs(m, s1, s0);
            assert(any_true(m, cv) == progressed(m, p, ov, t1 as int, r1@, length as int));
            if !at(m, ov, r1@, t1 as int) {
                assert(lv[0] == a);
                lemma_meets_push_clause(m, s1, lv, 0, n0);
            } else if progressed(m, p, ov, t1 as int, r1@, length as int) {
                let i = choose|i: int| 0 <= i < cv.len() && eval(m, #[trigger] cv[i]);
                assert(lv[i + 1] == cv[i]);
                lemma_meets_push_clause(m, s1, lv, i + 1, n0);
            } else if !at(m, ov, r2v, t2 as int) {
                assert(lv[lv.len() - 1] == c);
                lemma_meets_push_clause(m, s1, lv, lv.len() - 1, n0);
            } else {
                assert(lv[lv.len() - 2] == b);
                lemma_meets_push_clause(m, s1, lv, lv.len() - 2, n0);
            }
        }
    }
}


fn add_allocation_entry(
    s: &mut SatInstance,
    problem: &Problem,
    prev: &Vec<(String, FinSet)>,
    occ: &Vec<(String, FinSet)>,
    t1: usize,
    k: usize,
)
    requires
        t1 < problem.trains.len(),
        k < problem.trains@[t1 as int].routes@.len(),
        step_occ(problem@, occ_view(occ@)),
        occ_wf(occ_view(prev@)),
        covers(problem@, occ_view(prev@)),
        acyclic(problem@),
        nexts_ok(problem@),
        alloc_ok(problem@),
        sat_scoped(old(s)@),
        occ_below(occ_view(occ@), old(s)@.len() as int),
        occ_below(occ_view(prev@), old(s)@.len() as int),
    ensures
        extends(final(s)@, old(s)@),
        sat_scoped(final(s)@),
        forall|m: Model|
            meets(m, old(s)@) && defs_ok(m, final(s)@, old(s)@.len() as int) && allocation_entry(
                m,
                problem@,
                occ_view(prev@),
                occ_view(occ@),
                t1 as int,
                k as int,
            ) ==> meets(m, final(s)@),
        forall|m: Model|
            meets(m, final(s)@) ==> allocation_entry(m, problem@, occ_view(prev@), occ_view(occ@), t1 as int, k as int),
{
    let ghost p = problem@;
    let ghost ov = occ_view(occ@);
    let ghost pv = occ_view(prev@);
    let nt = problem.trains.len();
    assert(p.len() == nt);
    proof {
        lemma_step_occ(p, ov);
        lemma_extends_refl(s@);
    }
    let train = &problem.trains[t1];
    assert(p[t1 as int] == train@);
    proof {
        lemma_entry_is_route(train, p, t1 as int, k as int);
    }
    let rd = &train.routes[k].1;
    let ghost av = rd.allocation_conflicts.deep_view();
    assert(av == p[t1 as int].routes[k as int].1.allocation_conflicts);
    let mut j: usize = 0;
    while j < rd.allocation_conflicts.len()
        invariant
            j <= rd.allocation_conflicts.len(),
            t1 < nt,
            nt == problem.trains.len(),
            p == problem@,
            p.len() == nt,
            ov == occ_view(occ@),
            pv == occ_view(prev@),
            k < train.routes@.len(),
            p[t1 as int] == train@,
            rd == train.routes@[k as int].1,
            av == rd.allocation_conflicts.deep_view(),
            av == p[t1 as int].routes[k as int].1.allocation_conflicts,
            step_occ(p, ov),
            distinct_keys(ov),
            occ_wf(ov),
            forall|i: int|
                0 <= i < ov.len() ==> is_route_name(p, (#[trigger] ov[i]).0) && ov[i].1.domain == domain_of(p, ov[i].0),
            occ_wf(pv),
            covers(p, pv),
            acyclic(p),
            nexts_ok(p),
            alloc_ok(p),
            extends(s@, old(s)@),
            forall|m: Model|
                meets(m, s@) ==> forall|jj: int, t2: int|
                    0 <= jj < j && 0 <= t2 < p.len() && t2 != t1 && p[t2].route(av[jj]) is Some
                        ==> #[trigger] allocation_pair(m, p, pv, ov, t1 as int, k as int, jj, t2),
            sat_scoped(s@),
            old(s)@.len() <= s@.len(),
            occ_below(ov, old(s)@.len() as int),
            occ_below(pv, old(s)@.len() as int),
            forall|m: Model|
                meets(m, old(s)@) && defs_ok(m, s@, old(s)@.len() as int) && allocation_entry(m, p, pv, ov, t1 as int, k as int)
                    ==> meets(m, s@),
        decreases rd.allocation_conflicts.len() - j,
    {
        let r2 = &rd.allocation_conflicts[j];
        assert(av[j as int] == r2@);
        let ghost sj = s@;
        proof {
            lemma_first_match(ov, named::<FinSetView>(r2@));
        }
        match find_occ(occ, r2.as_str()) {
            Some(i2) => {
                let domain = &occ[i2].1.domain;
                assert(ov[i2 as int].0 == r2@);
                assert(domain@ == domain_of(p, r2@));
                proof {
                    lemma_domain_of(p, r2@);
                    lemma_extends_refl(s@);
                }
                let mut d: usize = 0;
                while d < domain.len()
                    invariant
                        d <= domain.len(),
                        domain@ == domain_of(p, r2@),
                        r2@ == av[j as int],
                        j < av.len(),
                        t1 < nt,
                        nt == problem.trains.len(),
                        p == problem@,
                        p.len() == nt,
                        ov == occ_view(occ@),
                        pv == occ_view(prev@),
                        k < problem.trains@[t1 as int].routes@.len(),
                        av == p[t1 as int].routes[k as int].1.allocation_conflicts,
                        step_occ(p, ov),
                        occ_wf(pv),
                        covers(p, pv),
                        acyclic(p),
                        nexts_ok(p),
                        alloc_ok(p),
                        forall|dd: int|
                            1 <= dd < domain_of(p, r2@).len() ==> (#[trigger] domain_of(p, r2@)[dd]) is Some && 0
                                <= domain_of(p, r2@)[dd]->0 < p.len() && p[domain_of(p, r2@)[dd]->0 as int].route(r2@) is Some,
                        domain_of(p, r2@)[0] == None::<usize>,
                        extends(s@, sj),
                        forall|m: Model|
                            meets(m, s@) ==> forall|dd: int|
                                0 <= dd < d && #[trigger] domain@[dd] is Some && domain@[dd]->0 != t1
                                    ==> allocation_pair(m, p, pv, ov, t1 as int, k as int, j as int, domain@[dd]->0 as int),
                        sat_scoped(s@),
                        old(s)@.len() <= s@.len(),
                        occ_below(ov, old(s)@.len() as int),
                        occ_below(pv, old(s)@.len() as int),
                        forall|m: Model|
                            meets(m, old(s)@) && defs_ok(m, s@, old(s)@.len() as int) && allocation_entry(m, p, pv, ov, t1 as int, k as int)
                                ==> meets(m, s@),
                    decreases domain.len() - d,
                {
                    let ghost sd = s@;
                    match domain[d] {
                        Some(t2) => {
                            if t2 != t1 {
                                proof {
                                    lemma_occ_below_mono(ov, old(s)@.len() as int, sd.len() as int);
                                    lemma_occ_below_mono(pv, old(s)@.len() as int, sd.len() as int);
                                }
                                add_allocation_pair(s, problem, prev, occ, t1, k, j, t2);
                                proof {
                                    lemma_extends_len(s@, sd);
                                    assert forall|m: Model|
                                        meets(m, old(s)@) && defs_ok(m, s@, old(s)@.len() as int) && allocation_entry(m, p, pv, ov, t1 as int, k as int)
                                            implies meets(m, s@) by {
                                        lemma_defs_prefix(m, s@, sd, old(s)@.len() as int);
                                        lemma_defs_from_mono(m, s@, old(s)@.len() as int, sd.len() as int);
                                        assert(domain@[d as int] == Some(t2));
                                        assert(p[t2 as int].route(av[j as int]) is Some);
                                        assert(allocation_pair(m, p, pv, ov, t1 as int, k as int, j as int, t2 as int));
                                    }
                                }
                            } else {
                                proof {
                                    lemma_extends_refl(s@);
                                }
                            }
                        },
                        None => {
                            proof {
                                lemma_extends_refl(s@);
                            }
                        },
                    }
                    proof {
                        lemma_extends_trans(s@, sd, sj);
                        assert forall|m: Model| meets(m, s@) implies forall|dd: int|
                            0 <= dd < d + 1 && #[trigger] domain@[dd] is Some && domain@[dd]->0 != t1
                                ==> allocation_pair(m, p, pv, ov, t1 as int, k as int, j as int, domain@[dd]->0 as int) by {
                            lemma_meets_prefix(m, s@, sd);
                        }
                    }
                    d += 1;
                }
                proof {
                    assert forall|m: Model| meets(m, s@) implies forall|t2: int|
                        0 <= t2 < p.len() && t2 != t1 && p[t2].route(av[j as int]) is Some
                            ==> #[trigger] allocation_pair(m, p, pv, ov, t1 as int, k as int, j as int, t2) by {
                        assert forall|t2: int| 0 <= t2 < p.len() && t2 != t1 && p[t2].route(av[j as int]) is Some
                            implies #[trigger] allocation_pair(m, p, pv, ov, t1 as int, k as int, j as int, t2) by {
                            assert(p[t2].route(r2@) is Some);
                            let dd = choose|dd: int| 1 <= dd < domain_of(p, r2@).len() && domain_of(p, r2@)[dd] == Some(t2 as usize);
                            assert(domain@[dd] is Some);
                        }
                    }
                }
            },
            None => {
                proof {
                    lemma_extends_refl(s@);
                    assert(key_index(ov, av[j as int]) is None);
                    lemma_step_occ(p, ov);
                    assert forall|t2: int| 0 <= t2 < p.len() implies !(#[trigger] p[t2].route(av[j as int]) is Some) by {
                        if p[t2].route(av[j as int]) is Some {
                            assert(is_route_name(p, av[j as int]));
                            assert(key_index(ov, av[j as int]) is Some);
                        }
                    }
                }
            },
        }
        proof {
            lemma_extends_trans(s@, sj, old(s)@);
            assert forall|m: Model| meets(m, s@) implies forall|jj: int, t2: int|
                0 <= jj < j + 1 && 0 <= t2 < p.len() && t2 != t1 && p[t2].route(av[jj]) is Some
                    ==> #[trigger] allocation_pair(m, p, pv, ov, t1 as int, k as int, jj, t2) by {
                lemma_meets_prefix(m, s@, sj);
            }
        }
        j += 1;
    }
}

/// Adds the allocation conflicts of every route of every train, against the
/// occupation `prev` of the step before.
pub fn add_allocation_exclusions(
    s: &mut SatInstance,
    problem: &Problem,
    prev: &Vec<(String, FinSet)>,
    occ: &Vec<(String, FinSet)>,
)
    requires
        step_occ(problem@, occ_view(occ@)),
        occ_wf(occ_view(prev@)),
        covers(problem@, occ_view(prev@)),
        acyclic(problem@),
        nexts_ok(problem@),
        alloc_ok(problem@),
        sat_scoped(old(s)@),
        occ_below(occ_view(occ@), old(s)@.len() as int),
        occ_below(occ_view(prev@), old(s)@.len() as int),
    ensures
        extends(final(s)@, old(s)@),
        forall|m: Model| meets(m, final(s)@) ==> allocation_holds(m, problem@, occ_view(prev@), occ_view(occ@)),
        sat_scoped(final(s)@),
        forall|m: Model|
            meets(m, old(s)@) && defs_ok(m, final(s)@, old(s)@.len() as int) && allocation_holds(
                m,
                problem@,
                occ_view(prev@),
                occ_view(occ@),
            ) ==> meets(m, final(s)@),
{
    let ghost p = problem@;
    let ghost ov = occ_view(occ@);
    let ghost pv = occ_view(prev@);
    proof {
        lemma_extends_refl(s@);
    }
    let mut t: usize = 0;
    while t < problem.trains.len()
        invariant
            t <= problem.trains.len(),
            p == problem@,
            ov == occ_view(occ@),
            pv == occ_view(prev@),
            step_occ(p, ov),
            occ_wf(pv),
            covers(p, pv),
            acyclic(p),
            nexts_ok(p),
            alloc_ok(p),
            extends(s@, old(s)@),
            forall|m: Model|
                meets(m, s@) ==> forall|u: int, k: int|
                    0 <= u < t && 0 <= k < p[u].routes.len() ==> #[trigger] allocation_entry(m, p, pv, ov, u, k),
            sat_scoped(s@),
            old(s)@.len() <= s@.len(),
            occ_below(ov, old(s)@.len() as int),
            occ_below(pv, old(s)@.len() as int),
            forall|m: Model|
                meets(m, old(s)@) && defs_ok(m, s@, old(s)@.len() as int) && allocation_holds(m, p, pv, ov) ==> meets(m, s@),
        decreases problem.trains.len() - t,
    {
        let nk = problem.trains[t].routes.len();
        assert(p[t as int].routes.len() == nk);
        let mut k: usize = 0;
        while k < nk
            invariant
                t < problem.trains.len(),
                k <= nk,
                nk == problem.trains@[t as int].routes@.len(),
                p[t as int].routes.len() == nk,
                p == problem@,
                ov == occ_view(occ@),
                pv == occ_view(prev@),
                step_occ(p, ov),
                occ_wf(pv),
                covers(p, pv),
                acyclic(p),
                nexts_ok(p),
                alloc_ok(p),
                extends(s@, old(s)@),
                forall|m: Model|
                    meets(m, s@) ==> forall|u: int, kk: int|
                        (0 <= u < t && 0 <= kk < p[u].routes.len()) || (u == t && 0 <= kk < k)
                            ==> #[trigger] allocation_entry(m, p, pv, ov, u, kk),
                sat_scoped(s@),
                old(s)@.len() <= s@.len(),
                occ_below(ov, old(s)@.len() as int),
                occ_below(pv, old(s)@.len() as int),
                forall|m: Model|
                    meets(m, old(s)@) && defs_ok(m, s@, old(s)@.len() as int) && allocation_holds(m, p, pv, ov) ==> meets(m, s@),
            decreases nk - k,
        {
            let ghost before = s@;
            proof {
                lemma_occ_below_mono(ov, old(s)@.len() as int, before.len() as int);
                lemma_occ_below_mono(pv, old(s)@.len() as int, before.len() as int);
            }
            add_allocation_entry(s, problem, prev, occ, t, k);
            proof {
                lemma_extends_len(s@, before);
                assert forall|m: Model|
                    meets(m, old(s)@) && defs_ok(m, s@, old(s)@.len() as int) && allocation_holds(m, p, pv, ov) implies meets(m, s@) by {
                    lemma_defs_prefix(m, s@, before, old(s)@.len() as int);
                    lemma_defs_from_mono(m, s@, old(s)@.len() as int, before.len() as int);
                    assert(allocation_entry(m, p, pv, ov, t as int, k as int));
                }
                lemma_extends_trans(s@, before, old(s)@);
                assert forall|m: Model| meets(m, s@) implies forall|u: int, kk: int|
                    (0 <= u < t && 0 <= kk < p[u].routes.len()) || (u == t && 0 <= kk < k + 1)
                        ==> #[trigger] allocation_entry(m, p, pv, ov, u, kk) by {
                    lemma_meets_prefix(m, s@, before);
                }
            }
            k += 1;
        }
        t += 1;
    }
}


/// The data of route `r` of train `t`.
pub open spec fn route_data(p: Seq<TrainView>, t: int, r: Seq<char>) -> TrainRouteView {
    p[t].route(r)->0
}

/// Whether route `r2` is one of the next routes of route `r1` of train `t`.
pub open spec fn leads_to(p: Seq<TrainView>, t: int, r1: Seq<char>, r2: Seq<char>) -> bool {
    has_nexts(p, t, r1) && next_list(p, t, r1).contains(r2)
}

/// In model `m` train `t` holds at most one of the next routes of `r`.
pub open spec fn at_most_one_next(m: Model, p: Seq<TrainView>, occ: OccView, t: int, r: Seq<char>) -> bool {
    has_nexts(p, t, r) ==> forall|a: int, b: int|
        0 <= a < b < next_list(p, t, r).len() ==> !(at(m, occ, #[trigger] next_list(p, t, r)[a], t) && at(
            m,
            occ,
            #[trigger] next_list(p, t, r)[b],
            t,
        ))
}

/// In model `m`, if train `t` newly holds `r`, it holds a route that leads to `r`.
pub open spec fn has_source(m: Model, p: Seq<TrainView>, prev: OccView, occ: OccView, t: int, r: Seq<char>) -> bool {
    at(m, occ, r, t) && !at(m, prev, r, t) ==> exists|r1: Seq<char>|
        #[trigger] leads_to(p, t, r1, r) && at(m, occ, r1, t)
}

/// In model `m`, a train that held `r` keeps it exactly when it has not moved
/// on from it by its length.
pub open spec fn frees_when_passed(m: Model, p: Seq<TrainView>, prev: OccView, occ: OccView, t: int, r: Seq<char>) -> bool {
    at(m, prev, r, t) ==> (at(m, occ, r, t) == !progressed(m, p, prev, t, r, route_data(p, t, r).train_length as int))
}

/// The routes whose allocation by another train can force train `t` to wait
/// before entering `r`: `r` itself and its conflicting routes.
pub open spec fn conflicting_routes(p: Seq<TrainView>, t: int, r: Seq<char>) -> Seq<Seq<char>> {
    seq![r] + route_data(p, t, r).unconditional_conflicts + route_data(p, t, r).allocation_conflicts
}

/// In model `m`, train `t` enters `r` from a route it held before only when
/// one of the routes conflicting with `r` was held by another train in the
/// step before.
pub open spec fn enters_when_forced(m: Model, p: Seq<TrainView>, prev: OccView, occ: OccView, t: int, r: Seq<char>) -> bool {
    (exists|r1: Seq<char>| #[trigger] leads_to(p, t, r1, r) && at(m, prev, r1, t)) && at(m, occ, r, t) && !at(
        m,
        prev,
        r,
        t,
    ) ==> exists|i: int|
        0 <= i < conflicting_routes(p, t, r).len() && #[trigger] held_by_other(m, prev, conflicting_routes(p, t, r)[i], t)
}

/// Whether in model `m` route `c` of table `occ` is held by a train other than `t`.
pub open spec fn held_by_other(m: Model, occ: OccView, c: Seq<char>, t: int) -> bool {
    key_index(occ, c) is Some && !at(m, occ, c, t) && !free(m, occ, c)
}

/// The forced-entry rule lets train `t` enter `r` whenever, in the step
/// before, a train other than `t` held `r`, one of `r`'s unconditional
/// conflicts or one of its allocation conflicts.
pub proof fn lemma_forced_entry_released(
    m: Model,
    p: Seq<TrainView>,
    prev: OccView,
    occ: OccView,
    t: int,
    r: Seq<char>,
    c: Seq<char>,
)
    requires
        c == r || route_data(p, t, r).unconditional_conflicts.contains(c) || route_data(p, t, r).allocation_conflicts.contains(c),
        key_index(prev, c) is Some,
        !at(m, prev, c, t),
        !free(m, prev, c),
    ensures
        enters_when_forced(m, p, prev, occ, t, r),
{
    let d = route_data(p, t, r);
    let cr = conflicting_routes(p, t, r);
    let k: int = if c == r {
        0
    } else if d.unconditional_conflicts.contains(c) {
        1 + choose|k: int| 0 <= k < d.unconditional_conflicts.len() && d.unconditional_conflicts[k] == c
    } else {
        1 + d.unconditional_conflicts.len() + choose|k: int| 0 <= k < d.allocation_conflicts.len() && d.allocation_conflicts[k] == c
    };
    assert(0 <= k < cr.len() && cr[k] == c);
    assert(held_by_other(m, prev, cr[k], t));
}

/// Under the forced-entry rule, a train that newly holds `r` after holding
/// a route leading to it found, in the step before, `r` or one of its
/// unconditional or allocation conflicts held by another train.
pub proof fn lemma_forced_entry_needs_release(
    m: Model,
    p: Seq<TrainView>,
    prev: OccView,
    occ: OccView,
    t: int,
    r: Seq<char>,
    r1: Seq<char>,
)
    requires
        enters_when_forced(m, p, prev, occ, t, r),
        leads_to(p, t, r1, r),
        at(m, prev, r1, t),
        at(m, occ, r, t),
        !at(m, prev, r, t),
    ensures
        exists|c: Seq<char>|
            #![trigger free(m, prev, c)]
            (c == r || route_data(p, t, r).unconditional_conflicts.contains(c) || route_data(p, t, r).allocation_conflicts.contains(c))
                && key_index(prev, c) is Some && !at(m, prev, c, t) && !free(m, prev, c),
{
    let d = route_data(p, t, r);
    let cr = conflicting_routes(p, t, r);
    let i = choose|i: int| 0 <= i < cr.len() && #[trigger] held_by_other(m, prev, cr[i], t);
    let c = cr[i];
    if i == 0 {
    } else if i < 1 + d.unconditional_conflicts.len() {
        assert(d.unconditional_conflicts[i - 1] == c);
    } else {
        assert(d.allocation_conflicts[i - 1 - d.unconditional_conflicts.len()] == c);
    }
    assert(!free(m, prev, c));
}

/// A step that keeps every rule but the forced-entry one keeps that one
/// too where each train that newly enters a route from a route it held
/// found, in the step before, that route or one of its unconditional or
/// allocation conflicts held by another train.
pub proof fn lemma_step_forced_release(
    m: Model,
    p: Seq<TrainView>,
    prev: StateView,
    st: StateView,
    settings: StateConstraintSettings,
    n: int,
)
    requires
        step_holds(
            m,
            p,
            prev,
            st,
            StateConstraintSettings {
                global_progress_constraint: settings.global_progress_constraint,
                local_early_progress_constraint: false,
            },
            n,
        ),
        forall|t: int, r: Seq<char>|
            0 <= t < p.len() && (#[trigger] p[t].route(r)) is Some && at(m, st.routes, r, t) && !at(m, prev.routes, r, t)
                && (exists|r1: Seq<char>| #[trigger] leads_to(p, t, r1, r) && at(m, prev.routes, r1, t)) ==> exists|c: Seq<char>|
                (c == r || route_data(p, t, r).unconditional_conflicts.contains(c) || route_data(
                    p,
                    t,
                    r,
                ).allocation_conflicts.contains(c)) && key_index(prev.routes, c) is Some && !at(m, prev.routes, c, t) && !free(
                    m,
                    prev.routes,
                    c,
                ),
    ensures
        step_holds(m, p, prev, st, settings, n),
{
    let forced = settings.local_early_progress_constraint && n >= 2;
    assert forall|t: int, r: Seq<char>| 0 <= t < p.len() && (#[trigger] p[t].route(r)) is Some implies pair_holds(
        m,
        p,
        prev.routes,
        st.routes,
        t,
        r,
        forced,
    ) by {
        assert(pair_holds(m, p, prev.routes, st.routes, t, r, false));
        if forced && at(m, st.routes, r, t) && !at(m, prev.routes, r, t) && (exists|r1: Seq<char>|
            #[trigger] leads_to(p, t, r1, r) && at(m, prev.routes, r1, t)) {
            let c = choose|c: Seq<char>|
                (c == r || route_data(p, t, r).unconditional_conflicts.contains(c) || route_data(
                    p,
                    t,
                    r,
                ).allocation_conflicts.contains(c)) && key_index(prev.routes, c) is Some && !at(m, prev.routes, c, t) && !free(
                    m,
                    prev.routes,
                    c,
                );
            lemma_forced_entry_released(m, p, prev.routes, st.routes, t, r, c);
        }
    }
}

/// The formulas "train `t` holds `r'`" for the routes `r'` of `t` (in table
/// order) that lead to `r`, in table `tab`.
fn source_formulas(problem: &Problem, tab: &Vec<(String, FinSet)>, t: usize, r: &str) -> (res: Vec<Bool>)
    requires
        t < problem.trains.len(),
        occ_wf(occ_view(tab@)),
        covers(problem@, occ_view(tab@)),
        problem_wf(problem@),
    ensures
        forall|m: Model|
            any_true(m, res@) == exists|r1: Seq<char>|
                #[trigger] leads_to(problem@, t as int, r1, r@) && at(m, occ_view(tab@), r1, t as int),
        forall|n: int| occ_below(occ_view(tab@), n) ==> bools_below(res@, n),
{
    let ghost p = problem@;
    let ghost tv = occ_view(tab@);
    let train = &problem.trains[t];
    assert(p[t as int] == train@);
    assert(p[t as int].wf());
    let mut res: Vec<Bool> = Vec::new();
    let mut k: usize = 0;
    while k < train.routes.len()
        invariant
            t < problem.trains.len(),
            k <= train.routes.len(),
            p == problem@,
            p[t as int] == train@,
            p[t as int].wf(),
            tv == occ_view(tab@),
            occ_wf(tv),
            covers(p, tv),
            forall|m: Model|
                any_true(m, res@) == exists|kk: int|
                    0 <= kk < k && #[trigger] leads_to(p, t as int, p[t as int].routes[kk].0, r@) && at(
                        m,
                        tv,
                        p[t as int].routes[kk].0,
                        t as int,
                    ),
            forall|n: int| occ_below(tv, n) ==> bools_below(res@, n),
        decreases train.routes.len() - k,
    {
        proof {
            lemma_entry_is_route(train, p, t as int, k as int);
            lemma_index_of_key(p[t as int].routes, p[t as int].routes[k as int].0);
        }
        let ghost r1 = p[t as int].routes[k as int].0;
        assert(index_of_key(p[t as int].routes, r1) == Some(k as int));
        let ghost before = res@;
        let mut hit = false;
        match &train.routes[k].1.next_routes {
            Some(nexts) => {
                assert(has_nexts(p, t as int, r1));
                assert(next_list(p, t as int, r1) == nexts.deep_view());
                let found = contains_name(nexts, r);
                assert(found == next_list(p, t as int, r1).contains(r@)) by {
                    if found {
                        let i = choose|i: int| 0 <= i < nexts@.len() && nexts@[i]@ == r@;
                        assert(nexts.deep_view()[i] == r@);
                    }
                    if next_list(p, t as int, r1).contains(r@) {
                        let i = choose|i: int| 0 <= i < nexts.deep_view().len() && nexts.deep_view()[i] == r@;
                        assert(nexts@[i]@ == r@);
                    }
                }
                if found {
                    hit = true;
                    let f = occ_has(tab, train.routes[k].0.as_str(), Some(t));
                    let ghost rb = res@;
                    res.push(f);
                    proof {
                        assert forall|n: int| occ_below(tv, n) implies bools_below(res@, n) by {
                            assert(bool_below(f, n));
                            assert(bools_below(rb, n));
                            assert forall|i: int| 0 <= i < res@.len() implies bool_below(#[trigger] res@[i], n) by {
                                if i < rb.len() {
                                    assert(res@[i] == rb[i]);
                                }
                            }
                        }
                    }
                }
            },
            None => {
                assert(!has_nexts(p, t as int, r1));
            },
        }
        assert(hit == leads_to(p, t as int, r1, r@));
        proof {
            assert forall|m: Model| any_true(m, res@) == exists|kk: int|
                0 <= kk < k + 1 && #[trigger] leads_to(p, t as int, p[t as int].routes[kk].0, r@) && at(
                    m, tv, p[t as int].routes[kk].0, t as int) by {
                if hit {
                    lemma_any_true_push(m, before, res@.last());
                    assert(res@ == before.push(res@.last()));
                } else {
                    assert(res@ == before);
                }
                if exists|kk: int| 0 <= kk < k + 1 && #[trigger] leads_to(p, t as int, p[t as int].routes[kk].0, r@) && at(
                    m, tv, p[t as int].routes[kk].0, t as int) {
                    let kk = choose|kk: int| 0 <= kk < k + 1 && #[trigger] leads_to(p, t as int, p[t as int].routes[kk].0, r@) && at(
                        m, tv, p[t as int].routes[kk].0, t as int);
                    if kk < k {
                        assert(exists|kk: int| 0 <= kk < k && #[trigger] leads_to(p, t as int, p[t as int].routes[kk].0, r@) && at(
                            m, tv, p[t as int].routes[kk].0, t as int));
                    }
                }
            }
        }
        k += 1;
    }
    proof {
        assert forall|m: Model| any_true(m, res@) == exists|r1: Seq<char>|
            #[trigger] leads_to(p, t as int, r1, r@) && at(m, tv, r1, t as int) by {
            if exists|r1: Seq<char>| #[trigger] leads_to(p, t as int, r1, r@) && at(m, tv, r1, t as int) {
                let r1 = choose|r1: Seq<char>| #[trigger] leads_to(p, t as int, r1, r@) && at(m, tv, r1, t as int);
                lemma_index_of_key(p[t as int].routes, r1);
                let kk = index_of_key(p[t as int].routes, r1)->0;
                assert(p[t as int].routes[kk].0 == r1);
                assert(leads_to(p, t as int, p[t as int].routes[kk].0, r@));
            }
        }
    }
    res
}

proof fn lemma_any_true_cons(m: Model, b: Bool, bs: Seq<Bool>)
    ensures
        any_true(m, seq![b] + bs) == (eval(m, b) || any_true(m, bs)),
{
    let l = seq![b] + bs;
    if any_true(m, l) {
        let i = choose|i: int| 0 <= i < l.len() && eval(m, #[trigger] l[i]);
        if i > 0 {
            assert(l[i] == bs[i - 1]);
        }
    }
    if any_true(m, bs) {
        let i = choose|i: int| 0 <= i < bs.len() && eval(m, #[trigger] bs[i]);
        assert(l[i + 1] == bs[i]);
    }
    assert(l[0] == b);
}

/// Adds "train `t` holds at most one of the next routes of `r`".
fn add_next_exclusion(s: &mut SatInstance, problem: &Problem, occ: &Vec<(String, FinSet)>, t: usize, r: &str)
    requires
        t < problem.trains.len(),
        nexts_ok(problem@),
        occ_wf(occ_view(occ@)),
        covers(problem@, occ_view(occ@)),
        sat_scoped(old(s)@),
        occ_below(occ_view(occ@), old(s)@.len() as int),
    ensures
        extends(final(s)@, old(s)@),
        forall|m: Model| meets(m, final(s)@) ==> at_most_one_next(m, problem@, occ_view(occ@), t as int, r@),
        sat_scoped(final(s)@),
        forall|m: Model|
            meets(m, old(s)@) && defs_ok(m, final(s)@, old(s)@.len() as int) && at_most_one_next(m, problem@, occ_view(occ@), t as int, r@)
                ==> meets(m, final(s)@),
{
    let ghost p = problem@;
    let ghost ov = occ_view(occ@);
    let train = &problem.trains[t];
    assert(p[t as int] == train@);
    proof {
        lemma_extends_refl(s@);
    }
    match find_route(&train.routes, r) {
        Some(k) => {
            proof {
                lemma_route_at(train, r@, k as int);
            }
            match &train.routes[k].1.next_routes {
                Some(nexts) => {
                    let ghost nl = next_list(p, t as int, r@);
                    assert(has_nexts(p, t as int, r@));
                    assert(nl == nexts.deep_view());
                    let mut lits: Vec<Bool> = Vec::new();
                    let mut j: usize = 0;
                    while j < nexts.len()
                        invariant
                            j <= nexts.len(),
                            t < problem.trains.len(),
                            p == problem@,
                            ov == occ_view(occ@),
                            occ_wf(ov),
                            covers(p, ov),
                            nexts_ok(p),
                            has_nexts(p, t as int, r@),
                            nl == next_list(p, t as int, r@),
                            nl == nexts.deep_view(),
                            lits@.len() == j,
                            forall|i: int, m: Model| 0 <= i < j ==> #[trigger] eval(m, lits@[i]) == at(m, ov, nl[i], t as int),
                            occ_below(ov, old(s)@.len() as int),
                            bools_below(lits@, old(s)@.len() as int),
                        decreases nexts.len() - j,
                    {
                        assert(nl[j as int] == nexts@[j as int]@);
                        assert(p[t as int].route(nl[j as int]) is Some);
                        assert(is_route_name(p, nl[j as int]));
                        let f = occ_has(occ, nexts[j].as_str(), Some(t));
                        let ghost lb = lits@;
                        lits.push(f);
                        proof {
                            assert(bool_below(f, old(s)@.len() as int));
                            assert forall|i: int| 0 <= i < lits@.len() implies bool_below(#[trigger] lits@[i], old(s)@.len() as int) by {
                                if i < j {
                                    assert(lits@[i] == lb[i]);
                                }
                            }
                        }
                        j += 1;
                    }
                    let ghost lv = lits@;
                    let ghost before = s@;
                    s.assert_at_most_one(lits);
                    proof {
                        lemma_extends_push(before, CommandView::AtMostOne { lits: lv });
                        lemma_bools_below_mono(lv, old(s)@.len() as int, before.len() as int);
                        lemma_scoped_push(before, CommandView::AtMostOne { lits: lv });
                        assert forall|m: Model|
                            meets(m, old(s)@) && defs_ok(m, s@, old(s)@.len() as int) && at_most_one_next(m, p, ov, t as int, r@)
                                implies meets(m, s@) by {
                            assert forall|a: int, b: int| 0 <= a < b < lv.len() implies !(eval(m, #[trigger] lv[a]) && eval(m, #[trigger] lv[b])) by {
                                assert(eval(m, lv[a]) == at(m, ov, nl[a], t as int));
                                assert(eval(m, lv[b]) == at(m, ov, nl[b], t as int));
                            }
                            lemma_meets_push_amo(m, before, lv, old(s)@.len() as int);
                        }
                        assert forall|m: Model| meets(m, s@) implies at_most_one_next(m, p, ov, t as int, r@) by {
                            lemma_meets_at_most_one(m, before, lv);
                            assert forall|a: int, b: int| 0 <= a < b < nl.len() implies !(at(m, ov, #[trigger] nl[a], t as int)
                                && at(m, ov, #[trigger] nl[b], t as int)) by {
                                assert(eval(m, lv[a]) == at(m, ov, nl[a], t as int));
                                assert(eval(m, lv[b]) == at(m, ov, nl[b], t as int));
                            }
                        }
                    }
                },
                None => {
                    assert(!has_nexts(p, t as int, r@));
                },
            }
        },
        None => {
            assert(p[t as int].route(r@) is None);
        },
    }
}

/// Adds "train `t` newly holds `r` only from a route that leads to `r`",
/// and gives the formula "train `t` newly holds `r`".
fn add_source(
    s: &mut SatInstance,
    problem: &Problem,
    prev: &Vec<(String, FinSet)>,
    occ: &Vec<(String, FinSet)>,
    t: usize,
    r: &str,
) -> (allocated: Bool)
    requires
        t < problem.trains.len(),
        problem_wf(problem@),
        occ_wf(occ_view(occ@)),
        covers(problem@, occ_view(occ@)),
        occ_wf(occ_view(prev@)),
        key_index(occ_view(occ@), r@) is Some,
        key_index(occ_view(prev@), r@) is Some,
        sat_scoped(old(s)@),
        occ_below(occ_view(occ@), old(s)@.len() as int),
        occ_below(occ_view(prev@), old(s)@.len() as int),
    ensures
        extends(final(s)@, old(s)@),
        forall|m: Model| meets(m, final(s)@) ==> has_source(m, problem@, occ_view(prev@), occ_view(occ@), t as int, r@),
        sat_scoped(final(s)@),
        bool_below(allocated, final(s)@.len() as int),
        forall|m: Model|
            meets(m, old(s)@) && defs_ok(m, final(s)@, old(s)@.len() as int) && has_source(m, problem@, occ_view(prev@), occ_view(occ@), t as int, r@)
                ==> meets(m, final(s)@),
        forall|m: Model|
            meets(m, final(s)@) ==> eval(m, allocated) == (at(m, occ_view(occ@), r@, t as int) && !at(
                m,
                occ_view(prev@),
                r@,
                t as int,
            )),
{
    let ghost p = problem@;
    let ghost ov = occ_view(occ@);
    let ghost pv = occ_view(prev@);
    let a = occ_has(occ, r, Some(t));
    let ob = occ_has(prev, r, Some(t));
    let b = not(ob);
    let mut ins: Vec<Bool> = Vec::new();
    ins.push(a);
    ins.push(b);
    let ghost iv = ins@;
    let ghost s0 = s@;
    let k0 = s.len();
    let allocated = s.and_literal(ins);
    let ghost s1 = s@;
    let mut alts = source_formulas(problem, occ, t, r);
    let ghost av = alts@;
    let mut lits: Vec<Bool> = Vec::new();
    let na = not(allocated);
    lits.push(na);
    lits.append(&mut alts);
    let ghost lv = lits@;
    assert(lv =~= seq![na] + av);
    s.add_clause(lits);
    proof {
        lemma_extends_push(s0, CommandView::And { inputs: iv });
        lemma_extends_push(s1, CommandView::Clause { lits: lv });
        lemma_extends_trans(s@, s1, s0);
        assert forall|m: Model| meets(m, s@) implies eval(m, allocated) == (at(m, ov, r@, t as int) && !at(m, pv, r@, t as int)) by {
            lemma_meets_clause(m, s1, lv);
            lemma_meets_and(m, s0, iv, k0);
            assert(all_true(m, iv) == (eval(m, a) && eval(m, b))) by {
                if eval(m, a) && eval(m, b) {
                    assert forall|i: int| 0 <= i < iv.len() implies eval(m, #[trigger] iv[i]) by {
                        assert(i == 0 || i == 1);
                    }
                }
                if all_true(m, iv) {
                    assert(eval(m, iv[0]) && eval(m, iv[1]));
                }
            }
        }
        assert forall|m: Model| meets(m, s@) implies has_source(m, p, pv, ov, t as int, r@) by {
            lemma_meets_clause(m, s1, lv);
            lemma_any_true_cons(m, na, av);
            assert(any_true(m, av) == exists|r1: Seq<char>| #[trigger] leads_to(p, t as int, r1, r@) && at(m, ov, r1, t as int));
        }
        let n0 = s0.len() as int;
        assert(bool_below(a, n0) && bool_below(ob, n0));
        assert forall|i: int| 0 <= i < iv.len() implies bool_below(#[trigger] iv[i], n0) by {
            assert(i == 0 || i == 1);
        }
        lemma_scoped_push(s0, CommandView::And { inputs: iv });
        assert(bools_below(av, n0));
        assert forall|i: int| 0 <= i < lv.len() implies bool_below(#[trigger] lv[i], s1.len() as int) by {
            if i > 0 {
                assert(lv[i] == av[i - 1]);
            }
        }
        lemma_scoped_push(s1, CommandView::Clause { lits: lv });
        assert forall|m: Model|
            meets(m, s0) && defs_ok(m, s@, n0) && has_source(m, p, pv, ov, t as int, r@) implies meets(m, s@) by {
            lemma_defs_prefix(m, s@, s1, n0);
            lemma_meets_push_def(m, s0, CommandView::And { inputs: iv }, n0);
            lemma_meets_and(m, s0, iv, k0);
            assert(all_true(m, iv) == (eval(m, a) && eval(m, b))) by {
                if eval(m, a) && eval(m, b) {
                    assert forall|i: int| 0 <= i < iv.len() implies eval(m, #[trigger] iv[i]) by {
                        assert(i == 0 || i == 1);
                    }
                }
                if all_true(m, iv) {
                    assert(eval(m, iv[0]) && eval(m, iv[1]));
                }
            }
            if eval(m, allocated) {
                assert(at(m, ov, r@, t as int) && !at(m, pv, r@, t as int));
                let r1 = choose|r1: Seq<char>| #[trigger] leads_to(p, t as int, r1, r@) && at(m, ov, r1, t as int);
                assert(any_true(m, av));
                let i = choose|i: int| 0 <= i < av.len() && eval(m, #[trigger] av[i]);
                assert(lv[i + 1] == av[i]);
                lemma_meets_push_clause(m, s1, lv, i + 1, n0);
            } else {
                assert(lv[0] == na);
                lemma_meets_push_clause(m, s1, lv, 0, n0);
            }
        }
    }
    allocated
}

proof fn lemma_all_true_pair(m: Model, a: Bool, b: Bool)
    ensures
        all_true(m, seq![a, b]) == (eval(m, a) && eval(m, b)),
{
    let l = seq![a, b];
    assert(l[0] == a && l[1] == b);
    if eval(m, a) && eval(m, b) {
        assert forall|i: int| 0 <= i < l.len() implies eval(m, #[trigger] l[i]) by {
            assert(i == 0 || i == 1);
        }
    }
}

proof fn lemma_all_true_triple(m: Model, a: Bool, b: Bool, c: Bool)
    ensures
        all_true(m, seq![a, b, c]) == (eval(m, a) && eval(m, b) && eval(m, c)),
{
    let l = seq![a, b, c];
    assert(l[0] == a && l[1] == b && l[2] == c);
    if eval(m, a) && eval(m, b) && eval(m, c) {
        assert forall|i: int| 0 <= i < l.len() implies eval(m, #[trigger] l[i]) by {
            assert(i == 0 || i == 1 || i == 2);
        }
    }
}

/// Adds "a train that held `r` keeps it exactly when it has not moved on
/// from it by its length".
fn add_freeing(
    s: &mut SatInstance,
    problem: &Problem,
    prev: &Vec<(String, FinSet)>,
    occ: &Vec<(String, FinSet)>,
    t: usize,
    r: &str,
)
    requires
        t < problem.trains.len(),
        problem@[t as int].route(r@) is Some,
        acyclic(problem@),
        nexts_ok(problem@),
        occ_wf(occ_view(occ@)),
        occ_wf(occ_view(prev@)),
        covers(problem@, occ_view(prev@)),
        key_index(occ_view(occ@), r@) is Some,
        key_index(occ_view(prev@), r@) is Some,
        sat_scoped(old(s)@),
        occ_below(occ_view(occ@), old(s)@.len() as int),
        occ_below(occ_view(prev@), old(s)@.len() as int),
    ensures
        extends(final(s)@, old(s)@),
        forall|m: Model| meets(m, final(s)@) ==> frees_when_passed(m, problem@, occ_view(prev@), occ_view(occ@), t as int, r@),
        sat_scoped(final(s)@),
        forall|m: Model|
            meets(m, old(s)@) && defs_ok(m, final(s)@, old(s)@.len() as int) && frees_when_passed(m, problem@, occ_view(prev@), occ_view(occ@), t as int, r@)
                ==> meets(m, final(s)@),
{
    let ghost p = problem@;
    let ghost ov = occ_view(occ@);
    let ghost pv = occ_view(prev@);
    let train = &problem.trains[t];
    assert(p[t as int] == train@);
    let k = find_route(&train.routes, r).unwrap();
    proof {
        lemma_route_at(train, r@, k as int);
    }
    let len = train.routes[k].1.train_length;
    assert(len == route_data(p, t as int, r@).train_length);
    proof {
        lemma_progress_defined_all(p, pv, t as int, r@, len as int);
    }
    let ghost s0 = s@;
    let alts = has_progressed_by_length(s, problem, t, r, prev, len);
    let ghost av = alts@;
    let ghost s1 = s@;
    let k1 = s.len();
    let free_now = s.or_literal(alts);
    let ghost s2 = s@;
    let was = occ_has(prev, r, Some(t));
    let is = occ_has(occ, r, Some(t));
    let nw = not(was);
    let mut c1: Vec<Bool> = Vec::new();
    c1.push(nw);
    c1.push(is);
    c1.push(free_now);
    let ghost l1 = c1@;
    assert(l1 =~= seq![nw, is, free_now]);
    s.add_clause(c1);
    let ghost s3 = s@;
    let mut c2: Vec<Bool> = Vec::new();
    c2.push(nw);
    let nis = not(is);
    let nfree = not(free_now);
    c2.push(nis);
    c2.push(nfree);
    let ghost l2 = c2@;
    assert(l2 =~= seq![nw, nis, nfree]);
    s.add_clause(c2);
    proof {
        lemma_extends_push(s1, CommandView::Or { inputs: av });
        lemma_extends_push(s2, CommandView::Clause { lits: l1 });
        lemma_extends_push(s3, CommandView::Clause { lits: l2 });
        lemma_extends_trans(s3, s2, s1);
        lemma_extends_trans(s@, s3, s1);
        lemma_extends_trans(s@, s1, s0);
        assert forall|m: Model| meets(m, s@) implies frees_when_passed(m, p, pv, ov, t as int, r@) by {
            lemma_meets_clause(m, s3, l2);
            lemma_meets_clause(m, s2, l1);
            lemma_meets_or(m, s1, av, k1);
            let i1 = choose|i: int| 0 <= i < l1.len() && eval(m, #[trigger] l1[i]);
            let i2 = choose|i: int| 0 <= i < l2.len() && eval(m, #[trigger] l2[i]);
            assert(i1 == 0 || i1 == 1 || i1 == 2);
            assert(i2 == 0 || i2 == 1 || i2 == 2);
        }
        let n0 = s0.len() as int;
        lemma_extends_len(s1, s0);
        assert(bools_below(av, s1.len() as int));
        lemma_scoped_push(s1, CommandView::Or { inputs: av });
        assert(bool_below(was, n0) && bool_below(is, n0));
        assert forall|i: int| 0 <= i < l1.len() implies bool_below(#[trigger] l1[i], s2.len() as int) by {}
        lemma_scoped_push(s2, CommandView::Clause { lits: l1 });
        assert forall|i: int| 0 <= i < l2.len() implies bool_below(#[trigger] l2[i], s3.len() as int) by {}
        lemma_scoped_push(s3, CommandView::Clause { lits: l2 });
        lemma_no_constraints_push(s1, n0, CommandView::Or { inputs: av });
        lemma_extends_trans(s@, s3, s2);
        lemma_extends_trans(s2, s1, s0);
        assert forall|m: Model|
            meets(m, s0) && defs_ok(m, s@, n0) && frees_when_passed(m, p, pv, ov, t as int, r@) implies meets(m, s@) by {
            lemma_defs_prefix(m, s@, s2, n0);
            lemma_defs_prefix(m, s@, s3, n0);
            lemma_meets_defs(m, s2, s0);
            lemma_meets_prefix(m, s2, s1);
            lemma_meets_or(m, s1, av, k1);
            assert(any_true(m, av) == progressed(m, p, pv, t as int, r@, len as int));
            if !eval(m, was) {
                lemma_meets_push_clause(m, s2, l1, 0, n0);
                lemma_meets_push_clause(m, s3, l2, 0, n0);
            } else if eval(m, is) {
                lemma_meets_push_clause(m, s2, l1, 1, n0);
                lemma_meets_push_clause(m, s3, l2, 2, n0);
            } else {
                lemma_meets_push_clause(m, s2, l1, 2, n0);
                lemma_meets_push_clause(m, s3, l2, 1, n0);
            }
        }
    }
}

/// The formulas "route `c` is held by a train other than `t` in `prev`", for
/// the routes `c` that conflict with route `r` of train `t` and that `prev` lists.
fn conflict_formulas(s: &mut SatInstance, problem: &Problem, prev: &Vec<(String, FinSet)>, t: usize, r: &str) -> (res: Vec<Bool>)
    requires
        t < problem.trains.len(),
        problem@[t as int].route(r@) is Some,
        occ_wf(occ_view(prev@)),
    ensures
        extends(final(s)@, old(s)@),
        forall|m: Model|
            meets(m, final(s)@) && any_true(m, res@) ==> exists|i: int|
                0 <= i < conflicting_routes(problem@, t as int, r@).len() && #[trigger] held_by_other(
                    m,
                    occ_view(prev@),
                    conflicting_routes(problem@, t as int, r@)[i],
                    t as int,
                ),
        forall|m: Model|
            meets(m, final(s)@) && (exists|i: int|
                0 <= i < conflicting_routes(problem@, t as int, r@).len() && #[trigger] held_by_other(
                    m,
                    occ_view(prev@),
                    conflicting_routes(problem@, t as int, r@)[i],
                    t as int,
                )) ==> any_true(m, res@),
        no_constraints_from(final(s)@, old(s)@.len() as int),
        sat_scoped(old(s)@) && occ_below(occ_view(prev@), old(s)@.len() as int) ==> sat_scoped(final(s)@) && bools_below(
            res@,
            final(s)@.len() as int,
        ),
{
    let ghost p = problem@;
    let ghost pv = occ_view(prev@);
    let train = &problem.trains[t];
    assert(p[t as int] == train@);
    let k = find_route(&train.routes, r).unwrap();
    proof {
        lemma_route_at(train, r@, k as int);
    }
    let rd = &train.routes[k].1;
    let ghost uv = rd.unconditional_conflicts.deep_view();
    let ghost acv = rd.allocation_conflicts.deep_view();
    let ghost cr = conflicting_routes(p, t as int, r@);
    assert(cr == seq![r@] + uv + acv);
    let mut names: Vec<&str> = Vec::new();
    names.push(r);
    let mut j: usize = 0;
    while j < rd.unconditional_conflicts.len()
        invariant
            j <= rd.unconditional_conflicts.len(),
            uv == rd.unconditional_conflicts.deep_view(),
            cr == seq![r@] + uv + acv,
            names@.len() == 1 + j,
            forall|i: int| 0 <= i < names@.len() ==> (#[trigger] names@[i])@ == cr[i],
        decreases rd.unconditional_conflicts.len() - j,
    {
        names.push(rd.unconditional_conflicts[j].as_str());
        assert(cr[1 + j] == uv[j as int]);
        j += 1;
    }
    let mut j: usize = 0;
    while j < rd.allocation_conflicts.len()
        invariant
            j <= rd.allocation_conflicts.len(),
            uv == rd.unconditional_conflicts.deep_view(),
            acv == rd.allocation_conflicts.deep_view(),
            cr == seq![r@] + uv + acv,
            names@.len() == 1 + uv.len() + j,
            forall|i: int| 0 <= i < names@.len() ==> (#[trigger] names@[i])@ == cr[i],
        decreases rd.allocation_conflicts.len() - j,
    {
        names.push(rd.allocation_conflicts[j].as_str());
        assert(cr[1 + uv.len() + j] == acv[j as int]);
        j += 1;
    }
    assert(names@.len() == cr.len());
    proof {
        lemma_extends_refl(s@);
    }
    let mut res: Vec<Bool> = Vec::new();
    let mut i: usize = 0;
    while i < names.len()
        invariant
            i <= names.len(),
            names@.len() == cr.len(),
            forall|ii: int| 0 <= ii < names@.len() ==> (#[trigger] names@[ii])@ == cr[ii],
            pv == occ_view(prev@),
            occ_wf(pv),
            extends(s@, old(s)@),
            forall|m: Model|
                meets(m, s@) && any_true(m, res@) ==> exists|ii: int|
                    0 <= ii < i && #[trigger] held_by_other(m, pv, cr[ii], t as int),
            forall|m: Model|
                meets(m, s@) && (exists|ii: int| 0 <= ii < i && #[trigger] held_by_other(m, pv, cr[ii], t as int)) ==> any_true(m, res@),
            old(s)@.len() <= s@.len(),
            no_constraints_from(s@, old(s)@.len() as int),
            sat_scoped(old(s)@) && occ_below(pv, old(s)@.len() as int) ==> sat_scoped(s@) && bools_below(res@, s@.len() as int),
        decreases names.len() - i,
    {
        let c = names[i];
        assert(c@ == cr[i as int]);
        let ghost before = s@;
        let ghost rb = res@;
        if find_occ(prev, c).is_some() {
            let oa = occ_has(prev, c, Some(t));
            let a = not(oa);
            let ob = occ_has(prev, c, None);
            let b = not(ob);
            let mut ins: Vec<Bool> = Vec::new();
            ins.push(a);
            ins.push(b);
            let ghost iv = ins@;
            assert(iv =~= seq![a, b]);
            let k0 = s.len();
            let f = s.and_literal(ins);
            res.push(f);
            proof {
                lemma_extends_push(before, CommandView::And { inputs: iv });
                assert forall|m: Model| meets(m, s@) && any_true(m, res@) implies exists|ii: int|
                    0 <= ii < i + 1 && #[trigger] held_by_other(m, pv, cr[ii], t as int) by {
                    lemma_meets_and(m, before, iv, k0);
                    lemma_all_true_pair(m, a, b);
                    lemma_any_true_push(m, rb, f);
                    assert(res@ == rb.push(f));
                    if eval(m, f) {
                        assert(held_by_other(m, pv, cr[i as int], t as int));
                    }
                }
                assert forall|m: Model| meets(m, s@) && (exists|ii: int| 0 <= ii < i + 1 && #[trigger] held_by_other(m, pv, cr[ii], t as int))
                    implies any_true(m, res@) by {
                    lemma_meets_and(m, before, iv, k0);
                    lemma_all_true_pair(m, a, b);
                    lemma_any_true_push(m, rb, f);
                    assert(res@ == rb.push(f));
                    lemma_meets_prefix(m, s@, before);
                    let ii = choose|ii: int| 0 <= ii < i + 1 && #[trigger] held_by_other(m, pv, cr[ii], t as int);
                    if ii == i {
                        assert(eval(m, f));
                    } else {
                        assert(any_true(m, rb));
                    }
                }
                lemma_no_constraints_push(before, old(s)@.len() as int, CommandView::And { inputs: iv });
                if sat_scoped(old(s)@) && occ_below(pv, old(s)@.len() as int) {
                    assert(bool_below(oa, old(s)@.len() as int) && bool_below(ob, old(s)@.len() as int));
                    assert forall|q: int| 0 <= q < iv.len() implies bool_below(#[trigger] iv[q], before.len() as int) by {}
                    lemma_scoped_push(before, CommandView::And { inputs: iv });
                    assert forall|q: int| 0 <= q < res@.len() implies bool_below(#[trigger] res@[q], s@.len() as int) by {
                        if q < rb.len() {
                            assert(res@[q] == rb[q]);
                            assert(bool_below(rb[q], before.len() as int));
                        }
                    }
                }
            }
        } else {
            proof {
                lemma_extends_refl(s@);
                assert forall|m: Model| meets(m, s@) && (exists|ii: int| 0 <= ii < i + 1 && #[trigger] held_by_other(m, pv, cr[ii], t as int))
                    implies any_true(m, res@) by {
                    let ii = choose|ii: int| 0 <= ii < i + 1 && #[trigger] held_by_other(m, pv, cr[ii], t as int);
                    assert(ii != i);
                }
            }
        }
        proof {
            lemma_extends_trans(s@, before, old(s)@);
            lemma_extends_len(s@, before);
            assert forall|m: Model| meets(m, s@) && any_true(m, res@) implies exists|ii: int|
                0 <= ii < i + 1 && #[trigger] held_by_other(m, pv, cr[ii], t as int) by {
                lemma_meets_prefix(m, s@, before);
                if any_true(m, rb) {
                    let ii = choose|ii: int| 0 <= ii < i && #[trigger] held_by_other(m, pv, cr[ii], t as int);
                    assert(0 <= ii < i + 1 && held_by_other(m, pv, cr[ii], t as int));
                }
            }
        }
        i += 1;
    }
    res
}

/// Adds "train `t` enters `r` from a route it held before only when a route
/// conflicting with `r` was held by another train in the step before".
fn add_forced_entry(
    s: &mut SatInstance,
    problem: &Problem,
    prev: &Vec<(String, FinSet)>,
    occ: &Vec<(String, FinSet)>,
    t: usize,
    r: &str,
)
    requires
        t < problem.trains.len(),
        problem_wf(problem@),
        problem@[t as int].route(r@) is Some,
        occ_wf(occ_view(occ@)),
        occ_wf(occ_view(prev@)),
        covers(problem@, occ_view(prev@)),
        key_index(occ_view(occ@), r@) is Some,
        key_index(occ_view(prev@), r@) is Some,
        sat_scoped(old(s)@),
        occ_below(occ_view(occ@), old(s)@.len() as int),
        occ_below(occ_view(prev@), old(s)@.len() as int),
    ensures
        extends(final(s)@, old(s)@),
        forall|m: Model| meets(m, final(s)@) ==> enters_when_forced(m, problem@, occ_view(prev@), occ_view(occ@), t as int, r@),
        sat_scoped(final(s)@),
        forall|m: Model|
            meets(m, old(s)@) && defs_ok(m, final(s)@, old(s)@.len() as int) && enters_when_forced(m, problem@, occ_view(prev@), occ_view(occ@), t as int, r@)
                ==> meets(m, final(s)@),
{
    let ghost p = problem@;
    let ghost ov = occ_view(occ@);
    let ghost pv = occ_view(prev@);
    let ghost s0 = s@;
    let srcs = source_formulas(problem, prev, t, r);
    let ghost sv = srcs@;
    let k0 = s.len();
    let had_prev = s.or_literal(srcs);
    let ghost s1 = s@;
    let a = occ_has(occ, r, Some(t));
    let ob = occ_has(prev, r, Some(t));
    let b = not(ob);
    let mut ins: Vec<Bool> = Vec::new();
    ins.push(had_prev);
    ins.push(a);
    ins.push(b);
    let ghost iv = ins@;
    assert(iv =~= seq![had_prev, a, b]);
    let k1 = s.len();
    let allocated = s.and_literal(ins);
    let ghost s2 = s@;
    let mut confl = conflict_formulas(s, problem, prev, t, r);
    let ghost cv = confl@;
    let ghost s3 = s@;
    let na = not(allocated);
    let mut lits: Vec<Bool> = Vec::new();
    lits.push(na);
    lits.append(&mut confl);
    let ghost lv = lits@;
    assert(lv =~= seq![na] + cv);
    s.add_clause(lits);
    proof {
        lemma_extends_push(s0, CommandView::Or { inputs: sv });
        lemma_extends_push(s1, CommandView::And { inputs: iv });
        lemma_extends_push(s3, CommandView::Clause { lits: lv });
        lemma_extends_trans(s3, s2, s1);
        lemma_extends_trans(s3, s1, s0);
        lemma_extends_trans(s@, s3, s0);
        assert forall|m: Model| meets(m, s@) implies enters_when_forced(m, p, pv, ov, t as int, r@) by {
            lemma_meets_clause(m, s3, lv);
            lemma_meets_prefix(m, s3, s2);
            lemma_meets_and(m, s1, iv, k1);
            lemma_meets_or(m, s0, sv, k0);
            lemma_all_true_triple(m, had_prev, a, b);
            lemma_any_true_cons(m, na, cv);
            assert(any_true(m, sv) == exists|r1: Seq<char>| #[trigger] leads_to(p, t as int, r1, r@) && at(m, pv, r1, t as int));
        }
        let n0 = s0.len() as int;
        assert(bools_below(sv, n0));
        lemma_scoped_push(s0, CommandView::Or { inputs: sv });
        assert(bool_below(a, n0) && bool_below(ob, n0));
        assert forall|q: int| 0 <= q < iv.len() implies bool_below(#[trigger] iv[q], s1.len() as int) by {}
        lemma_scoped_push(s1, CommandView::And { inputs: iv });
        lemma_extends_len(s3, s2);
        assert(bools_below(cv, s3.len() as int));
        assert forall|q: int| 0 <= q < lv.len() implies bool_below(#[trigger] lv[q], s3.len() as int) by {
            if q > 0 {
                assert(lv[q] == cv[q - 1]);
            }
        }
        lemma_scoped_push(s3, CommandView::Clause { lits: lv });
        lemma_no_constraints_push(s0, n0, CommandView::Or { inputs: sv });
        lemma_no_constraints_push(s1, n0, CommandView::And { inputs: iv });
        lemma_no_constraints_trans(s3, s2, n0);
        assert forall|m: Model|
            meets(m, s0) && defs_ok(m, s@, n0) && enters_when_forced(m, p, pv, ov, t as int, r@) implies meets(m, s@) by {
            lemma_defs_prefix(m, s@, s3, n0);
            lemma_meets_defs(m, s3, s0);
            lemma_meets_prefix(m, s3, s2);
            lemma_meets_and(m, s1, iv, k1);
            lemma_meets_or(m, s0, sv, k0);
            lemma_all_true_triple(m, had_prev, a, b);
            assert(any_true(m, sv) == exists|r1: Seq<char>| #[trigger] leads_to(p, t as int, r1, r@) && at(m, pv, r1, t as int));
            if eval(m, allocated) {
                assert(exists|i: int| 0 <= i < conflicting_routes(p, t as int, r@).len() && #[trigger] held_by_other(m, pv, conflicting_routes(p, t as int, r@)[i], t as int));
                assert(any_true(m, cv));
                let i = choose|i: int| 0 <= i < cv.len() && eval(m, #[trigger] cv[i]);
                assert(lv[i + 1] == cv[i]);
                lemma_meets_push_clause(m, s3, lv, i + 1, n0);
            } else {
                assert(lv[0] == na);
                lemma_meets_push_clause(m, s3, lv, 0, n0);
            }
        }
    }
}

/// The formulas "train `t` holds `r`" for the routes `r` of `t` that lead
/// out of the area, in table `occ`.
fn exit_formulas(problem: &Problem, occ: &Vec<(String, FinSet)>, t: usize) -> (res: Vec<Bool>)
    requires
        t < problem.trains.len(),
        problem_wf(problem@),
        occ_wf(occ_view(occ@)),
    ensures
        forall|m: Model|
            any_true(m, res@) == exists|r: Seq<char>| #[trigger] leads_out(problem@, t as int, r) && key_index(
                occ_view(occ@),
                r,
            ) is Some && at(m, occ_view(occ@), r, t as int),
        forall|n: int| occ_below(occ_view(occ@), n) ==> bools_below(res@, n),
{
    let ghost p = problem@;
    let ghost ov = occ_view(occ@);
    let train = &problem.trains[t];
    assert(p[t as int] == train@);
    assert(p[t as int].wf());
    let mut res: Vec<Bool> = Vec::new();
    let mut k: usize = 0;
    while k < train.routes.len()
        invariant
            t < problem.trains.len(),
            k <= train.routes.len(),
            p == problem@,
            p[t as int] == train@,
            p[t as int].wf(),
            ov == occ_view(occ@),
            occ_wf(ov),
            forall|m: Model|
                any_true(m, res@) == exists|kk: int|
                    0 <= kk < k && #[trigger] leads_out(p, t as int, p[t as int].routes[kk].0) && key_index(
                        ov,
                        p[t as int].routes[kk].0,
                    ) is Some && at(m, ov, p[t as int].routes[kk].0, t as int),
            forall|n: int| occ_below(ov, n) ==> bools_below(res@, n),
        decreases train.routes.len() - k,
    {
        proof {
            lemma_entry_is_route(train, p, t as int, k as int);
            lemma_index_of_key(p[t as int].routes, p[t as int].routes[k as int].0);
        }
        let ghost r1 = p[t as int].routes[k as int].0;
        assert(index_of_key(p[t as int].routes, r1) == Some(k as int));
        let ghost before = res@;
        let mut hit = false;
        if train.routes[k].1.next_routes.is_none() {
            if find_occ(occ, train.routes[k].0.as_str()).is_some() {
                hit = true;
                let f = occ_has(occ, train.routes[k].0.as_str(), Some(t));
                res.push(f);
            }
        }
        assert(hit == (leads_out(p, t as int, r1) && key_index(ov, r1) is Some));
        proof {
            assert forall|m: Model| any_true(m, res@) == exists|kk: int|
                0 <= kk < k + 1 && #[trigger] leads_out(p, t as int, p[t as int].routes[kk].0) && key_index(
                    ov,
                    p[t as int].routes[kk].0,
                ) is Some && at(m, ov, p[t as int].routes[kk].0, t as int) by {
                if hit {
                    lemma_any_true_push(m, before, res@.last());
                    assert(res@ == before.push(res@.last()));
                } else {
                    assert(res@ == before);
                }
                if exists|kk: int| 0 <= kk < k + 1 && #[trigger] leads_out(p, t as int, p[t as int].routes[kk].0) && key_index(
                    ov,
                    p[t as int].routes[kk].0,
                ) is Some && at(m, ov, p[t as int].routes[kk].0, t as int) {
                    let kk = choose|kk: int| 0 <= kk < k + 1 && #[trigger] leads_out(p, t as int, p[t as int].routes[kk].0) && key_index(
                        ov,
                        p[t as int].routes[kk].0,
                    ) is Some && at(m, ov, p[t as int].routes[kk].0, t as int);
                    if kk < k {
                        assert(exists|kk: int| 0 <= kk < k && #[trigger] leads_out(p, t as int, p[t as int].routes[kk].0) && key_index(
                            ov,
                            p[t as int].routes[kk].0,
                        ) is Some && at(m, ov, p[t as int].routes[kk].0, t as int));
                    }
                }
            }
        }
        k += 1;
    }
    proof {
        assert forall|m: Model| any_true(m, res@) == exists|r: Seq<char>| #[trigger] leads_out(p, t as int, r) && key_index(
            ov,
            r,
        ) is Some && at(m, ov, r, t as int) by {
            if exists|r: Seq<char>| #[trigger] leads_out(p, t as int, r) && key_index(ov, r) is Some && at(m, ov, r, t as int) {
                let r = choose|r: Seq<char>| #[trigger] leads_out(p, t as int, r) && key_index(ov, r) is Some && at(m, ov, r, t as int);
                lemma_index_of_key(p[t as int].routes, r);
                let kk = index_of_key(p[t as int].routes, r)->0;
                assert(p[t as int].routes[kk].0 == r);
                assert(leads_out(p, t as int, p[t as int].routes[kk].0));
            }
            if any_true(m, res@) {
                let kk = choose|kk: int| 0 <= kk < train.routes@.len() && #[trigger] leads_out(p, t as int, p[t as int].routes[kk].0) && key_index(
                    ov,
                    p[t as int].routes[kk].0,
                ) is Some && at(m, ov, p[t as int].routes[kk].0, t as int);
                assert(leads_out(p, t as int, p[t as int].routes[kk].0));
            }
        }
    }
    res
}

/// The consistency of train `t` on route `r` between a step and the one
/// before: it takes at most one next route, it enters `r` only from a route
/// leading to it, and it leaves `r` exactly when it has moved on by its length.
pub open spec fn consistent(m: Model, p: Seq<TrainView>, prev: OccView, occ: OccView, t: int, r: Seq<char>) -> bool {
    &&& at_most_one_next(m, p, occ, t, r)
    &&& has_source(m, p, prev, occ, t, r)
    &&& frees_when_passed(m, p, prev, occ, t, r)
}

/// The constraints of train `t` on route `r`, with or without the forced
/// entry of the local progress constraint.
pub open spec fn pair_holds(m: Model, p: Seq<TrainView>, prev: OccView, occ: OccView, t: int, r: Seq<char>, forced: bool) -> bool {
    &&& consistent(m, p, prev, occ, t, r)
    &&& forced ==> enters_when_forced(m, p, prev, occ, t, r)
}

/// In model `m` some train holds a route it did not hold in the step before.
pub open spec fn progress_made(m: Model, p: Seq<TrainView>, prev: OccView, occ: OccView) -> bool {
    exists|t: int, r: Seq<char>|
        0 <= t < p.len() && (#[trigger] p[t].route(r)) is Some && at(m, occ, r, t) && !at(m, prev, r, t)
}

fn add_pair_constraints(
    s: &mut SatInstance,
    problem: &Problem,
    prev: &Vec<(String, FinSet)>,
    occ: &Vec<(String, FinSet)>,
    t: usize,
    r: &str,
    forced: bool,
) -> (allocated: Bool)
    requires
        t < problem.trains.len(),
        problem@[t as int].route(r@) is Some,
        problem_wf(problem@),
        acyclic(problem@),
        nexts_ok(problem@),
        occ_wf(occ_view(occ@)),
        covers(problem@, occ_view(occ@)),
        occ_wf(occ_view(prev@)),
        covers(problem@, occ_view(prev@)),
        sat_scoped(old(s)@),
        occ_below(occ_view(occ@), old(s)@.len() as int),
        occ_below(occ_view(prev@), old(s)@.len() as int),
    ensures
        extends(final(s)@, old(s)@),
        sat_scoped(final(s)@),
        bool_below(allocated, final(s)@.len() as int),
        forall|m: Model|
            meets(m, final(s)@) ==> eval(m, allocated) == (at(m, occ_view(occ@), r@, t as int) && !at(m, occ_view(prev@), r@, t as int)),
        forall|m: Model|
            meets(m, old(s)@) && defs_ok(m, final(s)@, old(s)@.len() as int) && pair_holds(m, problem@, occ_view(prev@), occ_view(occ@), t as int, r@, forced)
                ==> meets(m, final(s)@),
        forall|m: Model| meets(m, final(s)@) ==> pair_holds(m, problem@, occ_view(prev@), occ_view(occ@), t as int, r@, forced),
        forall|m: Model| meets(m, final(s)@) && eval(m, allocated) ==> progress_made(m, problem@, occ_view(prev@), occ_view(occ@)),
{
    let ghost p = problem@;
    let ghost ov = occ_view(occ@);
    let ghost pv = occ_view(prev@);
    assert(is_route_name(p, r@));
    let ghost s0 = s@;
    add_next_exclusion(s, problem, occ, t, r);
    let ghost s1 = s@;
    proof {
        lemma_extends_len(s1, s0);
        lemma_occ_below_mono(ov, s0.len() as int, s1.len() as int);
        lemma_occ_below_mono(pv, s0.len() as int, s1.len() as int);
    }
    let allocated = add_source(s, problem, prev, occ, t, r);
    let ghost s2 = s@;
    proof {
        lemma_extends_len(s2, s1);
        lemma_occ_below_mono(ov, s0.len() as int, s2.len() as int);
        lemma_occ_below_mono(pv, s0.len() as int, s2.len() as int);
    }
    add_freeing(s, problem, prev, occ, t, r);
    let ghost s3 = s@;
    proof {
        lemma_extends_len(s3, s2);
        lemma_occ_below_mono(ov, s0.len() as int, s3.len() as int);
        lemma_occ_below_mono(pv, s0.len() as int, s3.len() as int);
    }
    if forced {
        add_forced_entry(s, problem, prev, occ, t, r);
    } else {
        proof {
            lemma_extends_refl(s@);
        }
    }
    proof {
        lemma_extends_trans(s2, s1, s0);
        lemma_extends_trans(s3, s2, s0);
        lemma_extends_trans(s@, s3, s0);
        assert forall|m: Model| meets(m, s@) implies pair_holds(m, p, pv, ov, t as int, r@, forced) by {
            lemma_meets_prefix(m, s@, s3);
            lemma_meets_prefix(m, s3, s2);
            lemma_meets_prefix(m, s2, s1);
        }
        assert forall|m: Model| meets(m, s@) && eval(m, allocated) implies progress_made(m, p, pv, ov) by {
            lemma_meets_prefix(m, s@, s3);
            lemma_meets_prefix(m, s3, s2);
            assert(p[t as int].route(r@) is Some);
        }
        lemma_extends_len(s@, s3);
        assert forall|m: Model| meets(m, s@) implies eval(m, allocated) == (at(m, ov, r@, t as int) && !at(m, pv, r@, t as int)) by {
            lemma_meets_prefix(m, s@, s3);
            lemma_meets_prefix(m, s3, s2);
        }
        let n0 = s0.len() as int;
        lemma_extends_trans(s3, s2, s1);
        lemma_extends_trans(s@, s3, s1);
        lemma_extends_trans(s@, s3, s2);
        assert forall|m: Model|
            meets(m, s0) && defs_ok(m, s@, n0) && pair_holds(m, p, pv, ov, t as int, r@, forced) implies meets(m, s@) by {
            lemma_defs_prefix(m, s@, s1, n0);
            lemma_defs_prefix(m, s@, s2, n0);
            lemma_defs_prefix(m, s@, s3, n0);
            lemma_defs_from_mono(m, s1, n0, s0.len() as int);
            assert(meets(m, s1));
            lemma_defs_from_mono(m, s2, n0, s1.len() as int);
            assert(meets(m, s2));
            lemma_defs_from_mono(m, s3, n0, s2.len() as int);
            assert(meets(m, s3));
            lemma_defs_from_mono(m, s@, n0, s3.len() as int);
        }
    }
    allocated
}

/// Adds the constraints of every train on every route of the table, and
/// gives one formula per pair that is true when the train newly holds the route.
fn add_route_constraints(
    s: &mut SatInstance,
    problem: &Problem,
    prev: &Vec<(String, FinSet)>,
    occ: &Vec<(String, FinSet)>,
    forced: bool,
) -> (allocations: Vec<Bool>)
    requires
        step_occ(problem@, occ_view(occ@)),
        problem_wf(problem@),
        acyclic(problem@),
        nexts_ok(problem@),
        occ_wf(occ_view(prev@)),
        covers(problem@, occ_view(prev@)),
        sat_scoped(old(s)@),
        occ_below(occ_view(occ@), old(s)@.len() as int),
        occ_below(occ_view(prev@), old(s)@.len() as int),
    ensures
        extends(final(s)@, old(s)@),
        sat_scoped(final(s)@),
        bools_below(allocations@, final(s)@.len() as int),
        forall|m: Model|
            meets(m, final(s)@) && progress_made(m, problem@, occ_view(prev@), occ_view(occ@)) ==> any_true(m, allocations@),
        forall|m: Model|
            meets(m, old(s)@) && defs_ok(m, final(s)@, old(s)@.len() as int) && all_pairs_hold(m, problem@, occ_view(prev@), occ_view(occ@), forced)
                ==> meets(m, final(s)@),
        forall|m: Model|
            meets(m, final(s)@) ==> forall|t: int, r: Seq<char>|
                0 <= t < problem@.len() && (#[trigger] problem@[t].route(r)) is Some ==> pair_holds(
                    m,
                    problem@,
                    occ_view(prev@),
                    occ_view(occ@),
                    t,
                    r,
                    forced,
                ),
        forall|m: Model|
            meets(m, final(s)@) && any_true(m, allocations@) ==> progress_made(m, problem@, occ_view(prev@), occ_view(occ@)),
{
    let ghost p = problem@;
    let ghost ov = occ_view(occ@);
    let ghost pv = occ_view(prev@);
    proof {
        lemma_step_occ(p, ov);
        lemma_extends_refl(s@);
    }
    let mut allocations: Vec<Bool> = Vec::new();
    assert(p.len() == problem.trains.len());
    let mut i: usize = 0;
    while i < occ.len()
        invariant
            i <= occ.len(),
            p == problem@,
            ov == occ_view(occ@),
            pv == occ_view(prev@),
            step_occ(p, ov),
            distinct_keys(ov),
            occ_wf(ov),
            covers(p, ov),
            forall|ii: int|
                0 <= ii < ov.len() ==> is_route_name(p, (#[trigger] ov[ii]).0) && ov[ii].1.domain == domain_of(p, ov[ii].0),
            problem_wf(p),
            acyclic(p),
            nexts_ok(p),
            occ_wf(pv),
            covers(p, pv),
            extends(s@, old(s)@),
            p.len() == problem.trains.len(),
            forall|m: Model|
                meets(m, s@) ==> forall|t: int, ii: int|
                    0 <= t < p.len() && 0 <= ii < i && (#[trigger] p[t].route(#[trigger] ov[ii].0)) is Some ==> pair_holds(m, p, pv, ov, t, ov[ii].0, forced),
            forall|m: Model| meets(m, s@) && any_true(m, allocations@) ==> progress_made(m, p, pv, ov),
            sat_scoped(s@),
            old(s)@.len() <= s@.len(),
            occ_below(ov, old(s)@.len() as int),
            occ_below(pv, old(s)@.len() as int),
            bools_below(allocations@, s@.len() as int),
            forall|m: Model|
                meets(m, old(s)@) && defs_ok(m, s@, old(s)@.len() as int) && all_pairs_hold(m, p, pv, ov, forced) ==> meets(m, s@),
            forall|m: Model|
                meets(m, s@) ==> forall|t: int, ii: int|
                    0 <= t < p.len() && 0 <= ii < i && (#[trigger] p[t].route(#[trigger] ov[ii].0)) is Some && at(m, ov, ov[ii].0, t)
                        && !at(m, pv, ov[ii].0, t) ==> any_true(m, allocations@),
        decreases occ.len() - i,
    {
        let r = occ[i].0.as_str();
        let domain = &occ[i].1.domain;
        assert(ov[i as int].0 == r@);
        assert(domain@ == domain_of(p, r@));
        proof {
            lemma_domain_of(p, r@);
            lemma_first_match(ov, named::<FinSetView>(r@));
            assert(named::<FinSetView>(r@)(ov[i as int]));
        }
        let ghost si = s@;
        proof {
            lemma_extends_refl(s@);
        }
        let mut d: usize = 0;
        while d < domain.len()
            invariant
                i < occ.len(),
                d <= domain.len(),
                r@ == ov[i as int].0,
                domain@ == domain_of(p, r@),
                forall|dd: int|
                    1 <= dd < domain_of(p, r@).len() ==> (#[trigger] domain_of(p, r@)[dd]) is Some && 0
                        <= domain_of(p, r@)[dd]->0 < p.len() && p[domain_of(p, r@)[dd]->0 as int].route(r@) is Some,
                domain_of(p, r@)[0] == None::<usize>,
                p == problem@,
                ov == occ_view(occ@),
                pv == occ_view(prev@),
                occ_wf(ov),
                covers(p, ov),
                problem_wf(p),
                acyclic(p),
                nexts_ok(p),
                occ_wf(pv),
                covers(p, pv),
                extends(s@, si),
                forall|m: Model|
                    meets(m, s@) ==> forall|dd: int|
                        0 <= dd < d && #[trigger] domain@[dd] is Some ==> pair_holds(m, p, pv, ov, domain@[dd]->0 as int, r@, forced),
                forall|m: Model| meets(m, s@) && any_true(m, allocations@) ==> progress_made(m, p, pv, ov),
                sat_scoped(s@),
                old(s)@.len() <= s@.len(),
                occ_below(ov, old(s)@.len() as int),
                occ_below(pv, old(s)@.len() as int),
                bools_below(allocations@, s@.len() as int),
                forall|m: Model|
                    meets(m, old(s)@) && defs_ok(m, s@, old(s)@.len() as int) && all_pairs_hold(m, p, pv, ov, forced) ==> meets(m, s@),
                forall|m: Model|
                    meets(m, s@) ==> forall|t: int, ii: int|
                        0 <= t < p.len() && 0 <= ii < i && (#[trigger] p[t].route(#[trigger] ov[ii].0)) is Some && at(m, ov, ov[ii].0, t)
                            && !at(m, pv, ov[ii].0, t) ==> any_true(m, allocations@),
                forall|m: Model|
                    meets(m, s@) ==> forall|dd: int|
                        0 <= dd < d && #[trigger] domain@[dd] is Some && at(m, ov, r@, domain@[dd]->0 as int) && !at(
                            m,
                            pv,
                            r@,
                            domain@[dd]->0 as int,
                        ) ==> any_true(m, allocations@),
            decreases domain.len() - d,
        {
            let ghost sd = s@;
            let ghost ab = allocations@;
            match domain[d] {
                Some(t) => {
                    assert(d >= 1);
                    proof {
                        lemma_occ_below_mono(ov, old(s)@.len() as int, sd.len() as int);
                        lemma_occ_below_mono(pv, old(s)@.len() as int, sd.len() as int);
                    }
                    let a = add_pair_constraints(s, problem, prev, occ, t, r, forced);
                    allocations.push(a);
                    proof {
                        lemma_extends_len(s@, sd);
                        assert forall|q: int| 0 <= q < allocations@.len() implies bool_below(#[trigger] allocations@[q], s@.len() as int) by {
                            if q < ab.len() {
                                assert(allocations@[q] == ab[q]);
                                assert(bool_below(ab[q], sd.len() as int));
                            }
                        }
                        assert forall|m: Model|
                            meets(m, old(s)@) && defs_ok(m, s@, old(s)@.len() as int) && all_pairs_hold(m, p, pv, ov, forced) implies meets(m, s@) by {
                            lemma_defs_prefix(m, s@, sd, old(s)@.len() as int);
                            lemma_defs_from_mono(m, s@, old(s)@.len() as int, sd.len() as int);
                            assert(domain@[d as int] == Some(t));
                            assert(p[t as int].route(r@) is Some);
                            assert(pair_holds(m, p, pv, ov, t as int, r@, forced));
                        }
                        assert forall|m: Model| meets(m, s@) implies forall|t2: int, ii: int|
                            0 <= t2 < p.len() && 0 <= ii < i && (#[trigger] p[t2].route(#[trigger] ov[ii].0)) is Some && at(m, ov, ov[ii].0, t2)
                                && !at(m, pv, ov[ii].0, t2) ==> any_true(m, allocations@) by {
                            lemma_meets_prefix(m, s@, sd);
                            lemma_any_true_push(m, ab, a);
                            assert(allocations@ == ab.push(a));
                        }
                        assert forall|m: Model| meets(m, s@) implies forall|dd: int|
                            0 <= dd < d + 1 && #[trigger] domain@[dd] is Some && at(m, ov, r@, domain@[dd]->0 as int) && !at(
                                m,
                                pv,
                                r@,
                                domain@[dd]->0 as int,
                            ) ==> any_true(m, allocations@) by {
                            lemma_meets_prefix(m, s@, sd);
                            lemma_any_true_push(m, ab, a);
                            assert(allocations@ == ab.push(a));
                        }
                        assert forall|m: Model| meets(m, s@) && any_true(m, allocations@) implies progress_made(m, p, pv, ov) by {
                            lemma_meets_prefix(m, s@, sd);
                            lemma_any_true_push(m, ab, a);
                            assert(allocations@ == ab.push(a));
                        }
                    }
                },
                None => {
                    proof {
                        lemma_extends_refl(s@);
                        assert forall|m: Model| meets(m, s@) implies forall|dd: int|
                            0 <= dd < d + 1 && #[trigger] domain@[dd] is Some && at(m, ov, r@, domain@[dd]->0 as int) && !at(
                                m,
                                pv,
                                r@,
                                domain@[dd]->0 as int,
                            ) ==> any_true(m, allocations@) by {}
                    }
                },
            }
            proof {
                lemma_extends_trans(s@, sd, si);
                assert forall|m: Model| meets(m, s@) implies forall|dd: int|
                    0 <= dd < d + 1 && #[trigger] domain@[dd] is Some ==> pair_holds(m, p, pv, ov, domain@[dd]->0 as int, r@, forced) by {
                    lemma_meets_prefix(m, s@, sd);
                }
            }
            d += 1;
        }
        proof {
            lemma_extends_trans(s@, si, old(s)@);
            assert forall|m: Model| meets(m, s@) implies forall|t: int, ii: int|
                0 <= t < p.len() && 0 <= ii < i + 1 && (#[trigger] p[t].route(#[trigger] ov[ii].0)) is Some && at(m, ov, ov[ii].0, t)
                    && !at(m, pv, ov[ii].0, t) ==> any_true(m, allocations@) by {
                assert forall|t: int, ii: int|
                    0 <= t < p.len() && 0 <= ii < i + 1 && (#[trigger] p[t].route(#[trigger] ov[ii].0)) is Some && at(m, ov, ov[ii].0, t)
                        && !at(m, pv, ov[ii].0, t) implies any_true(m, allocations@) by {
                    if ii == i {
                        let dd = choose|dd: int| 1 <= dd < domain_of(p, r@).len() && domain_of(p, r@)[dd] == Some(t as usize);
                        assert(domain@[dd] is Some);
                    }
                }
            }
            assert forall|m: Model| meets(m, s@) implies forall|t: int, ii: int|
                0 <= t < p.len() && 0 <= ii < i + 1 && (#[trigger] p[t].route(#[trigger] ov[ii].0)) is Some ==> pair_holds(m, p, pv, ov, t, ov[ii].0, forced) by {
                lemma_meets_prefix(m, s@, si);
                assert forall|t: int, ii: int|
                    0 <= t < p.len() && 0 <= ii < i + 1 && (#[trigger] p[t].route(#[trigger] ov[ii].0)) is Some implies pair_holds(m, p, pv, ov, t, ov[ii].0, forced) by {
                    if ii == i {
                        let dd = choose|dd: int| 1 <= dd < domain_of(p, r@).len() && domain_of(p, r@)[dd] == Some(t as usize);
                        assert(domain@[dd] is Some);
                    }
                }
            }
        }
        i += 1;
    }
    proof {
        assert forall|m: Model| meets(m, s@) implies forall|t: int, r: Seq<char>|
            0 <= t < p.len() && (#[trigger] p[t].route(r)) is Some ==> pair_holds(m, p, pv, ov, t, r, forced) by {
            assert forall|t: int, r: Seq<char>| 0 <= t < p.len() && (#[trigger] p[t].route(r)) is Some implies pair_holds(
                m, p, pv, ov, t, r, forced) by {
                assert(is_route_name(p, r));
                lemma_first_match(ov, named::<FinSetView>(r));
                let ii = key_index(ov, r)->0;
                assert(ov[ii].0 == r);
            }
        }
        assert forall|m: Model| meets(m, s@) && progress_made(m, p, pv, ov) implies any_true(m, allocations@) by {
            let (t, r) = choose|t: int, r: Seq<char>|
                0 <= t < p.len() && (#[trigger] p[t].route(r)) is Some && at(m, ov, r, t) && !at(m, pv, r, t);
            assert(is_route_name(p, r));
            lemma_first_match(ov, named::<FinSetView>(r));
            let ii = key_index(ov, r)->0;
            assert(ov[ii].0 == r);
            assert(p[t].route(ov[ii].0) is Some);
        }
    }
    allocations
}

/// In model `m`, every train keeps the constraints of every route it may take.
pub open spec fn all_pairs_hold(m: Model, p: Seq<TrainView>, prev: OccView, occ: OccView, forced: bool) -> bool {
    forall|t: int, r: Seq<char>| 0 <= t < p.len() && (#[trigger] p[t].route(r)) is Some ==> pair_holds(m, p, prev, occ, t, r, forced)
}

/// In model `m`, train `t` counts as finished in a step only when it was
/// finished in the step before or holds a route that leads out of the area.
pub open spec fn finish_entry(m: Model, p: Seq<TrainView>, prev_fin: Seq<Bool>, occ: OccView, fin: Seq<Bool>, t: int) -> bool {
    eval(m, fin[t]) ==> eval(m, prev_fin[t]) || exists|r: Seq<char>|
        #[trigger] leads_out(p, t, r) && key_index(occ, r) is Some && at(m, occ, r, t)
}

/// What every model of the instance makes true of a step `st` that follows
/// `prev` as step `n` of the encoding.
pub open spec fn step_holds(
    m: Model,
    p: Seq<TrainView>,
    prev: StateView,
    st: StateView,
    settings: StateConstraintSettings,
    n: int,
) -> bool {
    &&& occ_ok(m, st.routes)
    &&& unconditional_holds(m, p, st.routes)
    &&& allocation_holds(m, p, prev.routes, st.routes)
    &&& forall|t: int, r: Seq<char>|
        0 <= t < p.len() && (#[trigger] p[t].route(r)) is Some ==> pair_holds(
            m,
            p,
            prev.routes,
            st.routes,
            t,
            r,
            settings.local_early_progress_constraint && n >= 2,
        )
    &&& settings.global_progress_constraint ==> progress_made(m, p, prev.routes, st.routes)
    &&& forall|t: int| 0 <= t < p.len() ==> #[trigger] finish_entry(m, p, prev.trains_finished, st.routes, st.trains_finished, t)
}

/// Two models give every formula of the occupation table the same value.
pub open spec fn table_agrees(m1: Model, m2: Model, occ: OccView) -> bool {
    forall|i: int, j: int| 0 <= i < occ.len() && 0 <= j < occ[i].1.lits.len() ==> eval(m1, #[trigger] occ[i].1.lits[j]) == eval(m2, occ[i].1.lits[j])
}

/// Two models give every formula of `bs` the same value.
pub open spec fn bools_agree(m1: Model, m2: Model, bs: Seq<Bool>) -> bool {
    forall|i: int| 0 <= i < bs.len() ==> eval(m1, #[trigger] bs[i]) == eval(m2, bs[i])
}

/// Two models that agree on the formulas of a table agree on who holds what.
pub proof fn lemma_occupies_agree(m1: Model, m2: Model, occ: OccView)
    requires
        occ_wf(occ),
        table_agrees(m1, m2, occ),
    ensures
        forall|r: Seq<char>, v: Option<usize>| #[trigger] occupies(m1, occ, r, v) == occupies(m2, occ, r, v),
{
    reveal(occupies);
    assert forall|r: Seq<char>, v: Option<usize>| #[trigger] occupies(m1, occ, r, v) == occupies(m2, occ, r, v) by {
        lemma_first_match(occ, named::<FinSetView>(r));
        if let Some(i) = key_index(occ, r) {
            lemma_first_match(occ[i].1.domain, equals(v));
            if let Some(j) = position(occ[i].1.domain, v) {
                assert(eval(m1, occ[i].1.lits[j]) == eval(m2, occ[i].1.lits[j]));
            }
        }
    }
}

/// `progressed_from` reads the model only through the table.
pub proof fn lemma_progressed_agree(m1: Model, m2: Model, p: Seq<TrainView>, occ: OccView, t: int, r: Seq<char>, len: int, k: int)
    requires
        acyclic(p),
        0 <= t < p.len(),
        k >= 0 ==> has_nexts(p, t, r) && k <= next_list(p, t, r).len(),
        forall|r: Seq<char>, v: Option<usize>| #[trigger] occupies(m1, occ, r, v) == occupies(m2, occ, r, v),
    ensures
        progressed_from(m1, p, occ, t, r, len, k) == progressed_from(m2, p, occ, t, r, len, k),
    decreases the_rank(p)(t, r), step_measure(p, t, r, k),
{
    reveal(progressed_from);
    if k < 0 {
        if has_nexts(p, t, r) {
            lemma_progressed_agree(m1, m2, p, occ, t, r, len, next_list(p, t, r).len() as int);
        }
    } else if k > 0 {
        let n = next_list(p, t, r)[k - 1];
        lemma_progressed_agree(m1, m2, p, occ, t, r, len, k - 1);
        lemma_progressed_agree(m1, m2, p, occ, t, n, len - route_length_of(p, t, n), -1);
    }
}

/// `step_holds` reads the model only through the formulas of the two steps.
pub proof fn lemma_step_holds_agree(
    m1: Model,
    m2: Model,
    p: Seq<TrainView>,
    prev: StateView,
    st: StateView,
    settings: StateConstraintSettings,
    n: int,
)
    requires
        acyclic(p),
        occ_wf(prev.routes),
        occ_wf(st.routes),
        table_agrees(m1, m2, prev.routes),
        table_agrees(m1, m2, st.routes),
        bools_agree(m1, m2, prev.trains_finished),
        bools_agree(m1, m2, st.trains_finished),
        prev.trains_finished.len() == p.len(),
        st.trains_finished.len() == p.len(),
        step_holds(m1, p, prev, st, settings, n),
    ensures
        step_holds(m2, p, prev, st, settings, n),
{
    lemma_occupies_agree(m1, m2, prev.routes);
    lemma_occupies_agree(m1, m2, st.routes);
    let pv = prev.routes;
    let ov = st.routes;
    assert forall|i: int| 0 <= i < ov.len() implies finset_ok(m2, #[trigger] ov[i].1) by {
        assert(finset_ok(m1, ov[i].1));
        let w = choose|w: int| 0 <= w < ov[i].1.lits.len() && eval(m1, #[trigger] ov[i].1.lits[w]);
        assert(eval(m2, ov[i].1.lits[w]));
        assert forall|a: int, b: int| 0 <= a < b < ov[i].1.lits.len() implies !(eval(m2, #[trigger] ov[i].1.lits[a]) && eval(
            m2,
            #[trigger] ov[i].1.lits[b],
        )) by {
            assert(eval(m1, ov[i].1.lits[a]) == eval(m2, ov[i].1.lits[a]));
            assert(eval(m1, ov[i].1.lits[b]) == eval(m2, ov[i].1.lits[b]));
        }
    }
    assert(unconditional_holds(m2, p, ov)) by {
        assert forall|t: int, k: int| 0 <= t < p.len() && 0 <= k < p[t].routes.len() implies #[trigger] unconditional_entry(m2, p, ov, t, k) by {
            assert(unconditional_entry(m1, p, ov, t, k));
        }
    }
    assert(allocation_holds(m2, p, pv, ov)) by {
        assert forall|t: int, k: int| 0 <= t < p.len() && 0 <= k < p[t].routes.len() implies #[trigger] allocation_entry(m2, p, pv, ov, t, k) by {
            assert(allocation_entry(m1, p, pv, ov, t, k));
            assert forall|j: int, t2: int|
                0 <= j < p[t].routes[k].1.allocation_conflicts.len() && 0 <= t2 < p.len() && t2 != t && p[t2].route(
                    p[t].routes[k].1.allocation_conflicts[j],
                ) is Some implies #[trigger] allocation_pair(m2, p, pv, ov, t, k, j, t2) by {
                assert(allocation_pair(m1, p, pv, ov, t, k, j, t2));
                lemma_progressed_agree(m1, m2, p, ov, t, p[t].routes[k].0, alloc_len(p, t, k), -1);
            }
        }
    }
    let forced = settings.local_early_progress_constraint && n >= 2;
    assert forall|t: int, r: Seq<char>| 0 <= t < p.len() && (#[trigger] p[t].route(r)) is Some implies pair_holds(m2, p, pv, ov, t, r, forced) by {
        assert(pair_holds(m1, p, pv, ov, t, r, forced));
        if at(m2, pv, r, t) {
            lemma_progressed_agree(m1, m2, p, pv, t, r, route_data(p, t, r).train_length as int, -1);
        }
        if at(m2, ov, r, t) && !at(m2, pv, r, t) {
            assert(has_source(m1, p, pv, ov, t, r));
            let r1 = choose|r1: Seq<char>| #[trigger] leads_to(p, t, r1, r) && at(m1, ov, r1, t);
            assert(at(m2, ov, r1, t));
            if forced && exists|r1: Seq<char>| #[trigger] leads_to(p, t, r1, r) && at(m2, pv, r1, t) {
                let r2 = choose|r1: Seq<char>| #[trigger] leads_to(p, t, r1, r) && at(m2, pv, r1, t);
                assert(at(m1, pv, r2, t));
                assert(enters_when_forced(m1, p, pv, ov, t, r));
                let i = choose|i: int|
                    0 <= i < conflicting_routes(p, t, r).len() && #[trigger] held_by_other(m1, pv, conflicting_routes(p, t, r)[i], t);
                assert(held_by_other(m2, pv, conflicting_routes(p, t, r)[i], t));
            }
        }
    }
    if settings.global_progress_constraint {
        assert(progress_made(m1, p, pv, ov));
        let (t, r) = choose|t: int, r: Seq<char>|
            0 <= t < p.len() && (#[trigger] p[t].route(r)) is Some && at(m1, ov, r, t) && !at(m1, pv, r, t);
        assert(at(m2, ov, r, t) && !at(m2, pv, r, t));
    }
    assert forall|t: int| 0 <= t < p.len() implies #[trigger] finish_entry(m2, p, prev.trains_finished, ov, st.trains_finished, t) by {
        assert(finish_entry(m1, p, prev.trains_finished, ov, st.trains_finished, t));
        assert(eval(m1, st.trains_finished[t]) == eval(m2, st.trains_finished[t]));
        assert(eval(m1, prev.trains_finished[t]) == eval(m2, prev.trains_finished[t]));
        if eval(m2, st.trains_finished[t]) && !eval(m2, prev.trains_finished[t]) {
            let r = choose|r: Seq<char>| #[trigger] leads_out(p, t, r) && key_index(ov, r) is Some && at(m1, ov, r, t);
            assert(at(m2, ov, r, t));
        }
    }
}

/// Step `n` of the encoding, following `prev`: a variable per route for its
/// holder, the conflicts between routes, the consistency of every train
/// with the step before, the progress constraints that `settings` asks for,
/// and a variable per train for whether it has finished. The new commands
/// say exactly `step_holds`: every model of the longer instance makes the
/// step follow `prev`, and every assignment that meets the earlier commands,
/// makes the step follow `prev` and gives the new definitions their defined
/// values is a model of the longer instance.
pub fn mk_state(
    s: &mut SatInstance,
    prev: &State,
    problem: &Problem,
    n: usize,
    settings: StateConstraintSettings,
) -> (st: State)
    requires
        problem_wf(problem@),
        acyclic(problem@),
        nexts_ok(problem@),
        no_self_conflict(problem@),
        alloc_ok(problem@),
        occ_wf(prev@.routes),
        covers(problem@, prev@.routes),
        prev@.trains_finished.len() == problem@.len(),
        sat_scoped(old(s)@),
        occ_below(prev@.routes, old(s)@.len() as int),
        bools_below(prev@.trains_finished, old(s)@.len() as int),
    ensures
        extends(final(s)@, old(s)@),
        step_occ(problem@, st@.routes),
        st@.trains_finished.len() == problem@.len(),
        forall|m: Model| meets(m, final(s)@) ==> step_holds(m, problem@, prev@, st@, settings, n as int),
        forall|m: Model|
            meets(m, old(s)@) && defs_ok(m, final(s)@, old(s)@.len() as int) && step_holds(
                m,
                problem@,
                prev@,
                st@,
                settings,
                n as int,
            ) ==> meets(m, final(s)@),
        sat_scoped(final(s)@),
        occ_below(st@.routes, final(s)@.len() as int),
        bools_below(st@.trains_finished, final(s)@.len() as int),
        occ_fresh(st@.routes, final(s)@, old(s)@.len() as int),
        fin_fresh(st@.trains_finished, final(s)@, old(s)@.len() as int),
{
    let ghost p = problem@;
    let ghost pv = prev@.routes;
    let ghost s0 = s@;
    let occ = new_occupation(s, problem);
    let ghost ov = occ_view(occ@);
    let ghost s1 = s@;
    proof {
        lemma_step_occ(p, ov);
        lemma_extends_len(s1, s0);
        lemma_occ_below_mono(pv, s0.len() as int, s1.len() as int);
    }
    add_unconditional_exclusions(s, problem, &occ);
    let ghost s2 = s@;
    proof {
        lemma_extends_len(s2, s1);
        lemma_occ_below_mono(pv, s1.len() as int, s2.len() as int);
        lemma_occ_below_mono(ov, s1.len() as int, s2.len() as int);
    }
    add_allocation_exclusions(s, problem, &prev.routes, &occ);
    let ghost s3 = s@;
    proof {
        lemma_extends_len(s3, s2);
        lemma_occ_below_mono(pv, s2.len() as int, s3.len() as int);
        lemma_occ_below_mono(ov, s2.len() as int, s3.len() as int);
    }
    let forced = settings.local_early_progress_constraint && n >= 2;
    let allocations = add_route_constraints(s, problem, &prev.routes, &occ, forced);
    let ghost av = allocations@;
    let ghost s4 = s@;
    if settings.global_progress_constraint {
        s.add_clause(allocations);
        proof {
            lemma_extends_push(s4, CommandView::Clause { lits: av });
            lemma_scoped_push(s4, CommandView::Clause { lits: av });
        }
    } else {
        proof {
            lemma_extends_refl(s@);
        }
    }
    let ghost s5 = s@;
    proof {
        lemma_extends_trans(s2, s1, s0);
        lemma_extends_trans(s3, s2, s0);
        lemma_extends_trans(s4, s3, s0);
        lemma_extends_trans(s5, s4, s0);
        lemma_extends_refl(s@);
        lemma_extends_len(s4, s3);
        lemma_extends_len(s5, s4);
        lemma_occ_below_mono(ov, s3.len() as int, s5.len() as int);
        lemma_extends_trans(s3, s2, s1);
        lemma_extends_trans(s4, s3, s1);
        lemma_extends_trans(s5, s4, s1);
        lemma_occ_fresh_extends(ov, s1, s5, s0.len() as int);
    }
    let mut fin: Vec<Bool> = Vec::new();
    let mut t: usize = 0;
    assert(p.len() == problem.trains.len());
    while t < problem.trains.len()
        invariant
            t <= problem.trains.len(),
            p == problem@,
            p.len() == problem.trains.len(),
            problem_wf(p),
            ov == occ_view(occ@),
            occ_wf(ov),
            prev@.trains_finished.len() == p.len(),
            bools_below(prev@.trains_finished, s0.len() as int),
            s0.len() <= s5.len(),
            occ_below(ov, s5.len() as int),
            fin@.len() == t,
            extends(s@, s5),
            sat_scoped(s@),
            bools_below(fin@, s@.len() as int),
            fin_fresh(fin@, s@, s5.len() as int),
            forall|m: Model|
                meets(m, s@) ==> forall|u: int| 0 <= u < t ==> #[trigger] finish_entry(m, p, prev@.trains_finished, ov, fin@, u),
            forall|m: Model|
                meets(m, s5) && defs_ok(m, s@, s5.len() as int) && (forall|u: int|
                    0 <= u < t ==> #[trigger] finish_entry(m, p, prev@.trains_finished, ov, fin@, u)) ==> meets(m, s@),
        decreases problem.trains.len() - t,
    {
        let ghost st0 = s@;
        let ghost fb = fin@;
        let mut exits = exit_formulas(problem, &occ, t);
        let ghost ev = exits@;
        let f = s.new_var();
        let ghost st1 = s@;
        let nf = not(f);
        let pf = prev.trains_finished[t];
        let mut lits: Vec<Bool> = Vec::new();
        lits.push(nf);
        lits.push(pf);
        lits.append(&mut exits);
        let ghost lv = lits@;
        assert(lv =~= seq![nf] + (seq![pf] + ev));
        s.add_clause(lits);
        fin.push(f);
        proof {
            lemma_extends_push(st0, CommandView::NewVar);
            lemma_extends_push(st1, CommandView::Clause { lits: lv });
            lemma_extends_trans(s@, st1, st0);
            lemma_extends_trans(s@, st0, s5);
            lemma_extends_len(st0, s5);
            lemma_scoped_push(st0, CommandView::NewVar);
            lemma_bools_below_mono(prev@.trains_finished, s0.len() as int, st1.len() as int);
            lemma_bools_below_mono(ev, s5.len() as int, st1.len() as int);
            assert(bools_below(lv, st1.len() as int)) by {
                assert forall|i: int| 0 <= i < lv.len() implies bool_below(#[trigger] lv[i], st1.len() as int) by {
                    if i >= 2 {
                        assert(lv[i] == ev[i - 2]);
                    }
                }
            }
            lemma_scoped_push(st1, CommandView::Clause { lits: lv });
            lemma_bools_below_mono(fb, st0.len() as int, s@.len() as int);
            assert(bools_below(fin@, s@.len() as int)) by {
                assert forall|i: int| 0 <= i < fin@.len() implies bool_below(#[trigger] fin@[i], s@.len() as int) by {
                    if i < t {
                        assert(fin@[i] == fb[i]);
                    }
                }
            }
            lemma_fin_fresh_push(fb, f, st0, s5.len() as int);
            lemma_fin_fresh_extends(fin@, st1, s@, s5.len() as int);
            assert forall|m: Model| meets(m, s@) implies forall|u: int| 0 <= u < t + 1 ==> #[trigger] finish_entry(m, p, prev@.trains_finished, ov, fin@, u) by {
                lemma_meets_clause(m, st1, lv);
                lemma_meets_new_var(m, st0);
                lemma_any_true_cons(m, nf, seq![pf] + ev);
                lemma_any_true_cons(m, pf, ev);
                assert forall|u: int| 0 <= u < t + 1 implies #[trigger] finish_entry(m, p, prev@.trains_finished, ov, fin@, u) by {
                    if u < t {
                        assert(fin@[u] == fb[u]);
                        assert(finish_entry(m, p, prev@.trains_finished, ov, fb, u));
                    } else {
                        assert(fin@[u] == f);
                        assert(any_true(m, ev) == exists|r: Seq<char>| #[trigger] leads_out(p, t as int, r) && key_index(ov, r) is Some && at(m, ov, r, t as int));
                    }
                }
            }
            assert forall|m: Model|
                meets(m, s5) && defs_ok(m, s@, s5.len() as int) && (forall|u: int|
                    0 <= u < t + 1 ==> #[trigger] finish_entry(m, p, prev@.trains_finished, ov, fin@, u)) implies meets(m, s@) by {
                lemma_defs_prefix(m, s@, st1, s5.len() as int);
                lemma_defs_prefix(m, st1, st0, s5.len() as int);
                assert forall|u: int| 0 <= u < t implies #[trigger] finish_entry(m, p, prev@.trains_finished, ov, fb, u) by {
                    assert(fin@[u] == fb[u]);
                    assert(finish_entry(m, p, prev@.trains_finished, ov, fin@, u));
                }
                assert(meets(m, st0));
                lemma_meets_push_def(m, st0, CommandView::NewVar, s5.len() as int);
                assert(finish_entry(m, p, prev@.trains_finished, ov, fin@, t as int));
                assert(fin@[t as int] == f);
                if !eval(m, f) {
                    assert(lv[0] == nf);
                    lemma_meets_push_clause(m, st1, lv, 0, s5.len() as int);
                } else if eval(m, pf) {
                    assert(lv[1] == pf);
                    lemma_meets_push_clause(m, st1, lv, 1, s5.len() as int);
                } else {
                    assert(any_true(m, ev) == exists|r: Seq<char>| #[trigger] leads_out(p, t as int, r) && key_index(ov, r) is Some && at(m, ov, r, t as int));
                    let i = choose|i: int| 0 <= i < ev.len() && eval(m, #[trigger] ev[i]);
                    assert(lv[i + 2] == ev[i]);
                    lemma_meets_push_clause(m, st1, lv, i + 2, s5.len() as int);
                }
            }
        }
        t += 1;
    }
    let st = State { routes: occ, trains_finished: fin };
    proof {
        lemma_extends_trans(s@, s5, s0);
        lemma_extends_len(s@, s5);
        lemma_occ_below_mono(ov, s5.len() as int, s@.len() as int);
        lemma_occ_fresh_extends(ov, s5, s@, s0.len() as int);
        lemma_fin_fresh_from_mono(fin@, s@, s5.len() as int, s0.len() as int);
        assert(st@.routes == ov);
        assert forall|m: Model| meets(m, s@) implies step_holds(m, p, prev@, st@, settings, n as int) by {
            lemma_meets_prefix(m, s@, s5);
            lemma_meets_prefix(m, s5, s4);
            lemma_meets_prefix(m, s4, s3);
            lemma_meets_prefix(m, s3, s2);
            lemma_meets_prefix(m, s2, s1);
            if settings.global_progress_constraint {
                lemma_meets_clause(m, s4, av);
            }
        }
        assert forall|m: Model|
            meets(m, s0) && defs_ok(m, s@, s0.len() as int) && step_holds(m, p, prev@, st@, settings, n as int) implies meets(
            m,
            s@,
        ) by {
            lemma_defs_prefix(m, s@, s5, s0.len() as int);
            lemma_defs_prefix(m, s5, s4, s0.len() as int);
            lemma_defs_prefix(m, s4, s3, s0.len() as int);
            lemma_defs_prefix(m, s3, s2, s0.len() as int);
            lemma_defs_prefix(m, s2, s1, s0.len() as int);
            lemma_extends_len(s2, s1);
            lemma_extends_len(s3, s2);
            lemma_meets_defs(m, s1, s0);
            assert(meets(m, s1));
            lemma_defs_from_mono(m, s2, s0.len() as int, s1.len() as int);
            assert(unconditional_holds(m, p, ov));
            assert(meets(m, s2));
            lemma_defs_from_mono(m, s3, s0.len() as int, s2.len() as int);
            assert(meets(m, s3));
            lemma_defs_from_mono(m, s4, s0.len() as int, s3.len() as int);
            assert(all_pairs_hold(m, p, pv, ov, forced));
            assert(meets(m, s4));
            if settings.global_progress_constraint {
                assert(progress_made(m, p, pv, ov));
                assert(any_true(m, av));
                let i = choose|i: int| 0 <= i < av.len() && eval(m, #[trigger] av[i]);
                lemma_defs_from_mono(m, s5, s0.len() as int, s4.len() as int);
                lemma_meets_push_clause(m, s4, av, i, s4.len() as int);
            }
            assert(meets(m, s5));
            lemma_defs_from_mono(m, s@, s0.len() as int, s5.len() as int);
            assert(t == p.len());
            assert forall|u: int| 0 <= u < t implies #[trigger] finish_entry(m, p, prev@.trains_finished, ov, fin@, u) by {
                assert(finish_entry(m, p, prev@.trains_finished, st@.routes, st@.trains_finished, u));
            }
        }
    }
    st
}

/// The formulas of `fin` that are not constants, in order.
pub open spec fn open_goals(fin: Seq<Bool>) -> Seq<Bool>
    decreases fin.len(),
{
    if fin.len() == 0 {
        Seq::empty()
    } else if fin.last() is Lit {
        open_goals(fin.drop_last()).push(fin.last())
    } else {
        open_goals(fin.drop_last())
    }
}

/// The goal of a step as assumptions: `None` where some train can never
/// count as finished there, else the formulas "train finished" that are
/// not constants.
pub fn goal_condition(state: &State) -> (res: Option<Vec<Bool>>)
    ensures
        res is None <==> exists|t: int| 0 <= t < state@.trains_finished.len() && #[trigger] state@.trains_finished[t]
            == Bool::Const(false),
        res matches Some(c) ==> c@ == open_goals(state@.trains_finished),
{
    let ghost fin = state.trains_finished@;
    let mut condition: Vec<Bool> = Vec::new();
    let mut i: usize = 0;
    while i < state.trains_finished.len()
        invariant
            i <= state.trains_finished.len(),
            fin == state.trains_finished@,
            condition@ == open_goals(fin.take(i as int)),
            forall|t: int| 0 <= t < i ==> fin[t] != Bool::Const(false),
        decreases state.trains_finished.len() - i,
    {
        assert(fin.take(i + 1).drop_last() =~= fin.take(i as int));
        assert(fin.take(i + 1).last() == fin[i as int]);
        match state.trains_finished[i] {
            Bool::Const(true) => {},
            Bool::Const(false) => {
                return None;
            },
            l => {
                condition.push(l);
            },
        }
        i += 1;
    }
    assert(fin.take(i as int) =~= fin);
    Some(condition)
}

/// The goal assumptions hold in a model exactly when every train counts as
/// finished there, for a step where no train is a constant "not finished".
pub proof fn lemma_open_goals(m: Model, fin: Seq<Bool>)
    requires
        forall|t: int| 0 <= t < fin.len() ==> #[trigger] fin[t] != Bool::Const(false),
    ensures
        all_true(m, open_goals(fin)) == all_true(m, fin),
    decreases fin.len(),
{
    if fin.len() > 0 {
        let rest = fin.drop_last();
        assert forall|t: int| 0 <= t < rest.len() implies #[trigger] rest[t] != Bool::Const(false) by {
            assert(rest[t] == fin[t]);
        }
        lemma_open_goals(m, rest);
        let g = open_goals(rest);
        let x = fin.last();
        assert(fin[fin.len() - 1] == x);
        if x is Lit {
            let gp = g.push(x);
            if all_true(m, gp) {
                assert forall|t: int| 0 <= t < g.len() implies eval(m, #[trigger] g[t]) by {
                    assert(gp[t] == g[t]);
                }
                assert(eval(m, gp[g.len() as int]));
            }
            if all_true(m, g) && eval(m, x) {
                assert forall|t: int| 0 <= t < gp.len() implies eval(m, #[trigger] gp[t]) by {
                    if t < g.len() {
                        assert(gp[t] == g[t]);
                    }
                }
            }
        } else {
            assert(eval(m, x));
        }
        if all_true(m, fin) {
            assert forall|t: int| 0 <= t < rest.len() implies eval(m, #[trigger] rest[t]) by {
                assert(rest[t] == fin[t]);
            }
        }
        if all_true(m, rest) && eval(m, x) {
            assert forall|t: int| 0 <= t < fin.len() implies eval(m, #[trigger] fin[t]) by {
                if t < rest.len() {
                    assert(rest[t] == fin[t]);
                }
            }
        }
    }
}

/// The test "a formula is true in model `m`".
pub open spec fn true_in(m: Model) -> spec_fn(Bool) -> bool {
    |b: Bool| eval(m, b)
}

/// The value a model gives a finite-domain variable: that of its first true
/// formula (none where no formula is true).
pub open spec fn decode(m: Model, fs: FinSetView) -> Option<usize> {
    match first_match(fs.lits, true_in(m)) {
        Some(i) => fs.domain[i],
        None => None,
    }
}

/// The routes of a table that are routes of the problem, each with the
/// value the model gives its variable, in table order.
pub open spec fn decoded(m: Model, p: Seq<TrainView>, occ: OccView) -> StepView
    decreases occ.len(),
{
    if occ.len() == 0 {
        Seq::empty()
    } else if is_route_name(p, occ.last().0) {
        decoded(m, p, occ.drop_last()).push((occ.last().0, decode(m, occ.last().1)))
    } else {
        decoded(m, p, occ.drop_last())
    }
}

/// `x` inserted into `s` before the first entry whose route name sorts after its own.
pub open spec fn insert_entry(s: StepView, x: (Seq<char>, Option<usize>)) -> StepView
    decreases s.len(),
{
    if s.len() == 0 {
        seq![x]
    } else if chars_lt(x.0, s[0].0) {
        seq![x] + s
    } else {
        seq![s[0]] + insert_entry(s.drop_first(), x)
    }
}

/// The entries of a step sorted by route name.
pub open spec fn sort_entries(s: StepView) -> StepView
    decreases s.len(),
{
    if s.len() == 0 {
        Seq::empty()
    } else {
        insert_entry(sort_entries(s.drop_last()), s.last())
    }
}

proof fn lemma_insert_entry_contains(s: StepView, x: (Seq<char>, Option<usize>), y: (Seq<char>, Option<usize>))
    ensures
        insert_entry(s, x).contains(y) == (s.contains(y) || y == x),
    decreases s.len(),
{
    if s.len() == 0 {
        assert(insert_entry(s, x) == seq![x]);
        assert(seq![x][0] == x);
    } else if chars_lt(x.0, s[0].0) {
        let t = seq![x] + s;
        assert(t[0] == x);
        if s.contains(y) {
            let i = choose|i: int| 0 <= i < s.len() && s[i] == y;
            assert(t[i + 1] == y);
        }
        if t.contains(y) {
            let i = choose|i: int| 0 <= i < t.len() && t[i] == y;
            if i > 0 {
                assert(s[i - 1] == y);
            }
        }
    } else {
        let rest = s.drop_first();
        lemma_insert_entry_contains(rest, x, y);
        let t = seq![s[0]] + insert_entry(rest, x);
        assert(t[0] == s[0]);
        if s.contains(y) {
            let i = choose|i: int| 0 <= i < s.len() && s[i] == y;
            if i > 0 {
                assert(rest[i - 1] == y);
                assert(rest.contains(y));
                let k = choose|k: int| 0 <= k < insert_entry(rest, x).len() && insert_entry(rest, x)[k] == y;
                assert(t[k + 1] == y);
            }
        }
        if y == x {
            assert(insert_entry(rest, x).contains(y));
            let k = choose|k: int| 0 <= k < insert_entry(rest, x).len() && insert_entry(rest, x)[k] == y;
            assert(t[k + 1] == y);
        }
        if t.contains(y) {
            let i = choose|i: int| 0 <= i < t.len() && t[i] == y;
            if i > 0 {
                assert(insert_entry(rest, x)[i - 1] == y);
                assert(insert_entry(rest, x).contains(y));
                if rest.contains(y) {
                    let k = choose|k: int| 0 <= k < rest.len() && rest[k] == y;
                    assert(s[k + 1] == y);
                }
            }
        }
    }
}

proof fn lemma_sort_entries_contains(s: StepView, y: (Seq<char>, Option<usize>))
    ensures
        sort_entries(s).contains(y) == s.contains(y),
    decreases s.len(),
{
    if s.len() > 0 {
        let rest = s.drop_last();
        lemma_sort_entries_contains(rest, y);
        lemma_insert_entry_contains(sort_entries(rest), s.last(), y);
        if s.contains(y) {
            let i = choose|i: int| 0 <= i < s.len() && s[i] == y;
            if i < rest.len() {
                assert(rest[i] == y);
            }
        }
        if rest.contains(y) {
            let i = choose|i: int| 0 <= i < rest.len() && rest[i] == y;
            assert(s[i] == y);
        }
    }
}

/// A route of the problem is listed in the decoded step, with the value
/// the model gives its variable, exactly where the table lists it.
proof fn lemma_decoded_contains(m: Model, p: Seq<TrainView>, occ: OccView, r: Seq<char>, v: Option<usize>)
    requires
        distinct_keys(occ),
    ensures
        decoded(m, p, occ).contains((r, v)) == (is_route_name(p, r) && key_index(occ, r) is Some && decode(
            m,
            occ[key_index(occ, r)->0].1,
        ) == v),
    decreases occ.len(),
{
    lemma_first_match(occ, named::<FinSetView>(r));
    if occ.len() > 0 {
        let rest = occ.drop_last();
        let n = occ.len() - 1;
        assert(distinct_keys(rest));
        lemma_decoded_contains(m, p, rest, r, v);
        lemma_first_match(rest, named::<FinSetView>(r));
        let d = decoded(m, p, rest);
        let e = (occ.last().0, decode(m, occ.last().1));
        if occ.last().0 == r {
            assert(key_index(occ, r) == Some(n)) by {
                if key_index(occ, r) != Some(n) {
                    let i = key_index(occ, r)->0;
                    assert(occ[i].0 == r && i < n);
                }
            }
            assert(key_index(rest, r) is None) by {
                if let Some(i) = key_index(rest, r) {
                    assert(occ[i].0 == rest[i].0);
                }
            }
        } else {
            assert(key_index(occ, r) == key_index(rest, r)) by {
                if let Some(i) = key_index(occ, r) {
                    assert(i < n);
                    assert(rest[i] == occ[i]);
                    assert forall|j: int| 0 <= j < i implies !named::<FinSetView>(r)(rest[j]) by {
                        assert(rest[j] == occ[j]);
                    }
                    lemma_first_match_at(rest, named::<FinSetView>(r), i);
                } else {
                    if let Some(i) = key_index(rest, r) {
                        assert(occ[i] == rest[i]);
                    }
                }
            }
            if let Some(i) = key_index(occ, r) {
                assert(rest[i] == occ[i]);
            }
        }
        if is_route_name(p, occ.last().0) {
            let d2 = d.push(e);
            assert(d2.last() == e);
            if d.contains((r, v)) {
                let i = choose|i: int| 0 <= i < d.len() && d[i] == (r, v);
                assert(d2[i] == (r, v));
            }
            if d2.contains((r, v)) {
                let i = choose|i: int| 0 <= i < d2.len() && d2[i] == (r, v);
                if i < d.len() {
                    assert(d[i] == (r, v));
                }
            }
        }
    }
}

/// With exactly one true formula, a variable that takes `v` decodes to `v`;
/// with distinct values in the domain, the converse holds too.
proof fn lemma_decode_value(m: Model, fs: FinSetView, v: Option<usize>)
    requires
        finset_ok(m, fs),
        fs.lits.len() == fs.domain.len(),
    ensures
        first_match(fs.lits, true_in(m)) matches Some(w) && 0 <= w < fs.domain.len() && decode(m, fs) == fs.domain[w],
        eval(m, has_value_spec(fs, v)) ==> decode(m, fs) == v,
        (forall|i: int, j: int| 0 <= i < j < fs.domain.len() ==> fs.domain[i] != fs.domain[j]) && decode(m, fs) == v ==> eval(
            m,
            has_value_spec(fs, v),
        ),
{
    lemma_first_match(fs.lits, true_in(m));
    lemma_first_match(fs.domain, equals(v));
    let w0 = choose|i: int| 0 <= i < fs.lits.len() && eval(m, #[trigger] fs.lits[i]);
    assert(true_in(m)(fs.lits[w0]));
    let w = first_match(fs.lits, true_in(m))->0;
    assert(eval(m, fs.lits[w]));
    if let Some(k) = position(fs.domain, v) {
        if eval(m, fs.lits[k]) && k != w {
            if k < w {
                assert(!(eval(m, fs.lits[k]) && eval(m, fs.lits[w])));
            } else {
                assert(!(eval(m, fs.lits[w]) && eval(m, fs.lits[k])));
            }
        }
        if decode(m, fs) == v && (forall|i: int, j: int| 0 <= i < j < fs.domain.len() ==> fs.domain[i] != fs.domain[j]) {
            assert(fs.domain[w] == v);
            if k < w {
                assert(fs.domain[k] != fs.domain[w]);
            }
            if w < k {
                assert(equals(v)(fs.domain[w]));
            }
        }
    } else {
        if decode(m, fs) == v {
            assert(fs.domain[w] == v);
            assert(equals(v)(fs.domain[w]));
        }
    }
}

proof fn lemma_filter_increasing(s: Seq<int>, f: spec_fn(int) -> bool)
    requires
        forall|i: int, j: int| 0 <= i < j < s.len() ==> s[i] < s[j],
    ensures
        forall|i: int, j: int| 0 <= i < j < s.filter(f).len() ==> s.filter(f)[i] < s.filter(f)[j],
        forall|i: int| 0 <= i < s.filter(f).len() ==> s.contains(#[trigger] s.filter(f)[i]),
    decreases s.len(),
{
    reveal(Seq::filter);
    if s.len() > 0 {
        let rest = s.drop_last();
        lemma_filter_increasing(rest, f);
        let sub = rest.filter(f);
        assert forall|i: int| 0 <= i < sub.len() implies sub[i] < s.last() && s.contains(#[trigger] sub[i]) by {
            assert(rest.contains(sub[i]));
            let k = choose|k: int| 0 <= k < rest.len() && rest[k] == sub[i];
            assert(s[k] == sub[i]);
        }
        if f(s.last()) {
            assert(s.filter(f) == sub.push(s.last()));
            assert(s.contains(s.last()));
        } else {
            assert(s.filter(f) == sub);
        }
    }
}

/// The values a route's holder can take are distinct, and each is none or
/// a train that may take the route.
proof fn lemma_domain_distinct(p: Seq<TrainView>, r: Seq<char>)
    requires
        p.len() <= usize::MAX,
    ensures
        forall|i: int, j: int| 0 <= i < j < domain_of(p, r).len() ==> domain_of(p, r)[i] != domain_of(p, r)[j],
        forall|i: int|
            0 <= i < domain_of(p, r).len() ==> (#[trigger] domain_of(p, r)[i]) is None || (domain_of(p, r)[i]->0 < p.len()
                && p[domain_of(p, r)[i]->0 as int].route(r) is Some),
{
    let s0 = Seq::new(p.len(), |t: int| t);
    let tw = trains_with(p, r);
    lemma_filter_increasing(s0, takes(p, r));
    let d = domain_of(p, r);
    assert forall|i: int| 0 <= i < tw.len() implies 0 <= #[trigger] tw[i] < p.len() && p[tw[i]].route(r) is Some by {
        assert(s0.contains(tw[i]));
        s0.lemma_filter_pred(takes(p, r), i);
    }
    assert forall|i: int, j: int| 0 <= i < j < d.len() implies d[i] != d[j] by {
        if i > 0 {
            assert(tw[i - 1] < tw[j - 1]);
            assert(d[i] == Some(tw[i - 1] as usize));
            assert(d[j] == Some(tw[j - 1] as usize));
        } else {
            assert(d[j] == Some(tw[j - 1] as usize));
        }
    }
    assert forall|i: int| 0 <= i < d.len() implies (#[trigger] d[i]) is None || (d[i]->0 < p.len() && p[d[i]->0 as int].route(r) is Some) by {
        if i > 0 {
            assert(d[i] == Some(tw[i - 1] as usize));
        }
    }
}

/// A route held by train `t` in the step of table `occ` is listed with
/// holder `t` in the decoded step, and the other way round.
proof fn lemma_listed_iff_at(m: Model, p: Seq<TrainView>, occ: OccView, r: Seq<char>, t: usize)
    requires
        p.len() <= usize::MAX,
        step_occ(p, occ),
        occ_ok(m, occ),
    ensures
        sort_entries(decoded(m, p, occ)).contains((r, Some(t))) == at(m, occ, r, t as int),
        at(m, occ, r, t as int) ==> t < p.len() && p[t as int].route(r) is Some,
{
    reveal(occupies);
    lemma_step_occ(p, occ);
    assert(distinct_keys(occ));
    lemma_sort_entries_contains(decoded(m, p, occ), (r, Some(t)));
    lemma_decoded_contains(m, p, occ, r, Some(t));
    lemma_first_match(occ, named::<FinSetView>(r));
    if let Some(i) = key_index(occ, r) {
        let fs = occ[i].1;
        assert(occ[i].0 == r);
        assert(is_route_name(p, r));
        assert(fs.domain == domain_of(p, r));
        lemma_domain_distinct(p, r);
        assert(finset_ok(m, fs));
        lemma_decode_value(m, fs, Some(t));
        if at(m, occ, r, t as int) {
            let w = first_match(fs.lits, true_in(m))->0;
            assert(fs.domain[w] == Some(t));
        }
    }
}

/// A route listed in the decoded step with value `v` takes that value in
/// the table, for any table whose keys are distinct.
proof fn lemma_listed_value(m: Model, p: Seq<TrainView>, occ: OccView, r: Seq<char>, v: Option<usize>)
    requires
        distinct_keys(occ),
        occ_wf(occ),
        occ_ok(m, occ),
    ensures
        occupies(m, occ, r, v) && is_route_name(p, r) ==> sort_entries(decoded(m, p, occ)).contains((r, v)),
{
    reveal(occupies);
    lemma_sort_entries_contains(decoded(m, p, occ), (r, v));
    lemma_decoded_contains(m, p, occ, r, v);
    lemma_first_match(occ, named::<FinSetView>(r));
    if let Some(i) = key_index(occ, r) {
        assert(finset_ok(m, occ[i].1));
        lemma_decode_value(m, occ[i].1, v);
    }
}

/// In a step read off a model of the step rules, a train newly holds a
/// route only while it holds a route leading there, and a train holding a
/// route keeps each route in unconditional conflict with it free or its own.
pub proof fn lemma_decoded_step_rules(
    m: Model,
    p: Seq<TrainView>,
    prev: StateView,
    st: StateView,
    settings: StateConstraintSettings,
    n: int,
)
    requires
        p.len() <= usize::MAX,
        step_holds(m, p, prev, st, settings, n),
        step_occ(p, st.routes),
        occ_wf(prev.routes),
        distinct_keys(prev.routes),
        occ_ok(m, prev.routes),
    ensures
        forall|rt: Seq<char>, t: usize|
            #[trigger] sort_entries(decoded(m, p, st.routes)).contains((rt, Some(t))) && !sort_entries(
                decoded(m, p, prev.routes),
            ).contains((rt, Some(t))) ==> exists|rp: Seq<char>|
                #[trigger] leads_to(p, t as int, rp, rt) && sort_entries(decoded(m, p, st.routes)).contains((rp, Some(t))),
        forall|r1: Seq<char>, r2: Seq<char>, t: usize, o: Option<usize>|
            #[trigger] sort_entries(decoded(m, p, st.routes)).contains((r1, Some(t))) && #[trigger] sort_entries(
                decoded(m, p, st.routes),
            ).contains((r2, o)) && p[t as int].route(r1)->0.unconditional_conflicts.contains(r2) ==> o is None || o == Some(t),
{
    let ov = st.routes;
    let pv = prev.routes;
    let pl = sort_entries(decoded(m, p, ov));
    let pp = sort_entries(decoded(m, p, pv));
    let forced = settings.local_early_progress_constraint && n >= 2;
    lemma_step_occ(p, ov);
    assert forall|rt: Seq<char>, t: usize| #[trigger] pl.contains((rt, Some(t))) && !pp.contains((rt, Some(t))) implies exists|rp: Seq<char>|
        #[trigger] leads_to(p, t as int, rp, rt) && pl.contains((rp, Some(t))) by {
        lemma_listed_iff_at(m, p, ov, rt, t);
        assert(p[t as int].route(rt) is Some);
        assert(is_route_name(p, rt));
        lemma_listed_value(m, p, pv, rt, Some(t));
        assert(!at(m, pv, rt, t as int));
        assert(pair_holds(m, p, pv, ov, t as int, rt, forced));
        let r1 = choose|r1: Seq<char>| #[trigger] leads_to(p, t as int, r1, rt) && at(m, ov, r1, t as int);
        lemma_listed_iff_at(m, p, ov, r1, t);
        assert(pl.contains((r1, Some(t))));
    }
    assert forall|r1: Seq<char>, r2: Seq<char>, t: usize, o: Option<usize>|
        #[trigger] pl.contains((r1, Some(t))) && #[trigger] pl.contains((r2, o)) && p[t as int].route(r1)->0.unconditional_conflicts.contains(
            r2,
        ) implies o is None || o == Some(t) by {
        lemma_listed_iff_at(m, p, ov, r1, t);
        let tr = p[t as int];
        lemma_index_of_key(tr.routes, r1);
        let k = index_of_key(tr.routes, r1)->0;
        assert(tr.routes[k].0 == r1);
        assert(unconditional_entry(m, p, ov, t as int, k));
        let uc = tr.routes[k].1.unconditional_conflicts;
        let j = choose|j: int| 0 <= j < uc.len() && uc[j] == r2;
        lemma_sort_entries_contains(decoded(m, p, ov), (r2, o));
        lemma_decoded_contains(m, p, ov, r2, o);
        assert(key_index(ov, r2) is Some);
        if at(m, ov, r2, t as int) {
            lemma_listed_value(m, p, ov, r2, Some(t));
            lemma_sort_entries_contains(decoded(m, p, ov), (r2, Some(t)));
            lemma_decoded_contains(m, p, ov, r2, Some(t));
        } else {
            assert(free(m, ov, r2));
            lemma_listed_value(m, p, ov, r2, None);
            lemma_sort_entries_contains(decoded(m, p, ov), (r2, None));
            lemma_decoded_contains(m, p, ov, r2, None);
        }
    }
}

/// The plan a model gives: for each step, the routes of the problem with
/// their holders, sorted by route name.
pub open spec fn plan_of(m: Model, p: Seq<TrainView>, states: Seq<StateView>) -> Seq<StepView> {
    states.map_values(|st: StateView| sort_entries(decoded(m, p, st.routes)))
}

proof fn lemma_insert_entry(s: StepView, x: (Seq<char>, Option<usize>), k: int)
    requires
        0 <= k <= s.len(),
        forall|j: int| 0 <= j < k ==> !chars_lt(x.0, #[trigger] s[j].0),
        k < s.len() ==> chars_lt(x.0, s[k].0),
    ensures
        insert_entry(s, x) == s.insert(k, x),
    decreases s.len(),
{
    if s.len() == 0 {
        assert(s.insert(k, x) =~= seq![x]);
    } else if k == 0 {
        assert(s.insert(k, x) =~= seq![x] + s);
    } else {
        let t = s.drop_first();
        assert forall|j: int| 0 <= j < k - 1 implies !chars_lt(x.0, #[trigger] t[j].0) by {
            assert(t[j] == s[j + 1]);
        }
        lemma_insert_entry(t, x, k - 1);
        assert(s.insert(k, x) =~= seq![s[0]] + t.insert(k - 1, x));
    }
}

fn insert_step_entry(out: &mut Vec<(String, Option<TrainId>)>, e: (String, Option<TrainId>))
    ensures
        step_view(final(out)@) == insert_entry(step_view(old(out)@), (e.0@, e.1)),
{
    let ghost x = (e.0@, e.1);
    let ghost s = step_view(out@);
    let mut k: usize = 0;
    while k < out.len()
        invariant
            k <= out.len(),
            s == step_view(out@),
            x == (e.0@, e.1),
            forall|j: int| 0 <= j < k ==> !chars_lt(x.0, #[trigger] s[j].0),
        ensures
            k <= out.len(),
            forall|j: int| 0 <= j < k ==> !chars_lt(x.0, #[trigger] s[j].0),
            k < out.len() ==> chars_lt(x.0, s[k as int].0),
        decreases out.len() - k,
    {
        if str_lt(e.0.as_str(), out[k].0.as_str()) {
            break;
        }
        k += 1;
    }
    proof {
        lemma_insert_entry(s, x, k as int);
    }
    out.insert(k, e);
    assert(step_view(out@) =~= s.insert(k as int, x));
}

/// Whether `name` is a route of some train of the problem.
pub fn is_problem_route(problem: &Problem, name: &str) -> (res: bool)
    ensures
        res == is_route_name(problem@, name@),
{
    let ghost p = problem@;
    let mut t: usize = 0;
    while t < problem.trains.len()
        invariant
            t <= problem.trains.len(),
            p == problem@,
            p.len() == problem.trains.len(),
            forall|u: int| 0 <= u < t ==> (#[trigger] p[u].route(name@)) is None,
        decreases problem.trains.len() - t,
    {
        assert(p[t as int] == problem.trains@[t as int]@);
        if find_route(&problem.trains[t].routes, name).is_some() {
            assert(p[t as int].route(name@) is Some);
            return true;
        }
        t += 1;
    }
    false
}

/// The value a model gives a finite-domain variable, for a variable that
/// has a true formula.
pub fn decode_finset(model: &Vec<Vec<bool>>, fs: &FinSet) -> (res: Option<TrainId>)
    requires
        fs.lits@.len() == fs.domain@.len(),
        exists|i: int| 0 <= i < fs.lits@.len() && eval(model_view(model@), #[trigger] fs.lits@[i]),
    ensures
        res == decode(model_view(model@), fs@),
{
    let ghost m = model_view(model@);
    proof {
        lemma_first_match(fs.lits@, true_in(m));
        let w = choose|i: int| 0 <= i < fs.lits@.len() && eval(m, #[trigger] fs.lits@[i]);
        assert(true_in(m)(fs.lits@[w]));
    }
    let mut i: usize = 0;
    while i < fs.lits.len()
        invariant
            i <= fs.lits.len(),
            fs.lits@.len() == fs.domain@.len(),
            m == model_view(model@),
            first_match(fs.lits@, true_in(m)) is Some,
            forall|j: int| 0 <= j < i ==> !eval(m, #[trigger] fs.lits@[j]),
            first_match(fs.lits@, true_in(m)) matches Some(w) ==> i <= w < fs.lits@.len() && eval(m, fs.lits@[w]),
        decreases fs.lits.len() - i,
    {
        if eval_model(model, fs.lits[i]) {
            proof {
                lemma_first_match_at(fs.lits@, true_in(m), i as int);
            }
            return fs.domain[i];
        }
        i += 1;
    }
    None
}

/// One step of the plan a model gives: the routes of the problem that the
/// table lists, with their holders, sorted by route name.
pub fn decode_step(problem: &Problem, model: &Vec<Vec<bool>>, occ: &Vec<(String, FinSet)>) -> (step: Vec<(String, Option<TrainId>)>)
    requires
        occ_wf(occ_view(occ@)),
        distinct_keys(occ_view(occ@)),
        occ_ok(model_view(model@), occ_view(occ@)),
    ensures
        step_view(step@) == sort_entries(decoded(model_view(model@), problem@, occ_view(occ@))),
{
    let ghost m = model_view(model@);
    let ghost ov = occ_view(occ@);
    let mut out: Vec<(String, Option<TrainId>)> = Vec::new();
    let mut i: usize = 0;
    while i < occ.len()
        invariant
            i <= occ.len(),
            m == model_view(model@),
            ov == occ_view(occ@),
            occ_wf(ov),
            occ_ok(m, ov),
            step_view(out@) == sort_entries(decoded(m, problem@, ov.take(i as int))),
        decreases occ.len() - i,
    {
        let ghost before = ov.take(i as int);
        assert(ov.take(i + 1).drop_last() =~= before);
        assert(ov.take(i + 1).last() == ov[i as int]);
        assert(ov[i as int] == (occ@[i as int].0@, occ@[i as int].1@));
        if is_problem_route(problem, occ[i].0.as_str()) {
            assert(finset_ok(m, ov[i as int].1));
            let v = decode_finset(model, &occ[i].1);
            let e = (occ[i].0.clone(), v);
            let ghost d = decoded(m, problem@, before);
            assert(decoded(m, problem@, ov.take(i + 1)) == d.push((ov[i as int].0, v)));
            assert(d.push((ov[i as int].0, v)).drop_last() =~= d);
            insert_step_entry(&mut out, e);
        }
        i += 1;
    }
    assert(ov.take(i as int) =~= ov);
    out
}

/// The plan a model of the instance gives for the steps `states`.
pub fn model_to_plan(states: &Vec<State>, problem: &Problem, model: &Vec<Vec<bool>>) -> (plan: Plan)
    requires
        forall|i: int| 0 <= i < states@.len() ==> occ_wf(#[trigger] states@[i]@.routes) && distinct_keys(states@[i]@.routes) && occ_ok(
            model_view(model@),
            states@[i]@.routes,
        ),
    ensures
        plan@ == plan_of(model_view(model@), problem@, states@.map_values(|st: State| st@)),
{
    let ghost sv = states@.map_values(|st: State| st@);
    let mut steps: Vec<Vec<(String, Option<TrainId>)>> = Vec::new();
    let mut i: usize = 0;
    while i < states.len()
        invariant
            i <= states.len(),
            sv == states@.map_values(|st: State| st@),
            forall|k: int| 0 <= k < states@.len() ==> occ_wf(#[trigger] states@[k]@.routes) && distinct_keys(states@[k]@.routes) && occ_ok(
                model_view(model@),
                states@[k]@.routes,
            ),
            steps@.len() == i,
            forall|k: int| 0 <= k < i ==> step_view(#[trigger] steps@[k]@) == plan_of(model_view(model@), problem@, sv)[k],
        decreases states.len() - i,
    {
        assert(states@[i as int]@.routes == occ_view(states@[i as int].routes@));
        let step = decode_step(problem, model, &states[i].routes);
        steps.push(step);
        i += 1;
    }
    let plan = Plan { steps };
    assert(plan@ =~= plan_of(model_view(model@), problem@, sv));
    plan
}

/// The routes train `t` can hold after `k` moves from its initial routes.
pub open spec fn level(p: Seq<TrainView>, t: int, k: nat) -> Set<Seq<char>>
    decreases k,
{
    if k == 0 {
        p[t].initial_routes.to_set()
    } else {
        let before = level(p, t, (k - 1) as nat);
        Set::new(|r: Seq<char>| exists|q: Seq<char>| before.contains(q) && #[trigger] leads_to(p, t, q, r))
    }
}

/// Whether train `t` can hold route `r` after `k` moves from its initial routes.
pub open spec fn in_level(p: Seq<TrainView>, t: int, k: nat, r: Seq<char>) -> bool {
    level(p, t, k).contains(r)
}

proof fn lemma_level_step(p: Seq<TrainView>, t: int, k: nat, r: Seq<char>)
    requires
        k > 0,
    ensures
        in_level(p, t, k, r) == exists|q: Seq<char>| #[trigger] in_level(p, t, (k - 1) as nat, q) && leads_to(p, t, q, r),
{
    let before = level(p, t, (k - 1) as nat);
    let f = |x: Seq<char>| exists|q: Seq<char>| before.contains(q) && #[trigger] leads_to(p, t, q, x);
    assert(level(p, t, k) == Set::new(f));
    assert(Set::new(f).contains(r) == f(r));
    if in_level(p, t, k, r) {
        let q = choose|q: Seq<char>| before.contains(q) && #[trigger] leads_to(p, t, q, r);
        assert(in_level(p, t, (k - 1) as nat, q));
    }
    if exists|q: Seq<char>| #[trigger] in_level(p, t, (k - 1) as nat, q) && leads_to(p, t, q, r) {
        let q = choose|q: Seq<char>| #[trigger] in_level(p, t, (k - 1) as nat, q) && leads_to(p, t, q, r);
        assert(before.contains(q) && leads_to(p, t, q, r));
        assert(f(r));
    }
}

proof fn lemma_level_zero(p: Seq<TrainView>, t: int, r: Seq<char>)
    ensures
        in_level(p, t, 0, r) == p[t].initial_routes.contains(r),
{
}

/// Whether a route that train `t` can hold after `k` moves leads out of the
/// area (or is not one of its routes).
pub open spec fn exits_at(p: Seq<TrainView>, t: int, k: nat) -> bool {
    exists|r: Seq<char>| #[trigger] in_level(p, t, k, r) && !has_nexts(p, t, r)
}

/// Whether train `t` can hold no route after `k` moves.
pub open spec fn level_empty(p: Seq<TrainView>, t: int, k: nat) -> bool {
    forall|r: Seq<char>| !#[trigger] in_level(p, t, k, r)
}

/// The largest `k < n` at which train `t` can leave, or 0.
pub open spec fn last_exit_below(p: Seq<TrainView>, t: int, n: nat) -> nat
    decreases n,
{
    if n == 0 {
        0
    } else if exits_at(p, t, (n - 1) as nat) {
        (n - 1) as nat
    } else {
        last_exit_below(p, t, (n - 1) as nat)
    }
}

/// The largest number of moves after which train `t` can leave.
pub open spec fn train_ub(p: Seq<TrainView>, t: int) -> nat {
    last_exit_below(p, t, choose|n: nat| level_empty(p, t, n))
}

/// The sum of `train_ub` over the first `n` trains.
pub open spec fn ub_sum(p: Seq<TrainView>, n: int) -> nat
    decreases n,
{
    if n <= 0 {
        0
    } else {
        ub_sum(p, n - 1) + train_ub(p, n - 1)
    }
}

/// Whether `r` is one of the names of `s`.
pub open spec fn names_has(s: Seq<String>, r: Seq<char>) -> bool {
    exists|i: int| 0 <= i < s.len() && (#[trigger] s[i])@ == r
}

proof fn lemma_empty_level_stays(p: Seq<TrainView>, t: int, a: nat, b: nat)
    requires
        level_empty(p, t, a),
        a <= b,
    ensures
        level_empty(p, t, b),
        last_exit_below(p, t, b) == last_exit_below(p, t, a),
    decreases b,
{
    if b > a {
        lemma_empty_level_stays(p, t, a, (b - 1) as nat);
        assert forall|r: Seq<char>| !#[trigger] in_level(p, t, b, r) by {
            lemma_level_step(p, t, b, r);
            if in_level(p, t, b, r) {
                let q = choose|q: Seq<char>| #[trigger] in_level(p, t, (b - 1) as nat, q) && leads_to(p, t, q, r);
                assert(!in_level(p, t, (b - 1) as nat, q));
            }
        }
        assert(!exits_at(p, t, (b - 1) as nat));
    }
}

proof fn lemma_train_ub(p: Seq<TrainView>, t: int, d: nat)
    requires
        level_empty(p, t, d),
    ensures
        train_ub(p, t) == last_exit_below(p, t, d),
{
    let n = choose|n: nat| level_empty(p, t, n);
    assert(level_empty(p, t, n));
    if n <= d {
        lemma_empty_level_stays(p, t, n, d);
    } else {
        lemma_empty_level_stays(p, t, d, n);
    }
}

proof fn lemma_ub_sum_mono(p: Seq<TrainView>, i: int, n: int)
    requires
        0 <= i <= n,
    ensures
        ub_sum(p, i) <= ub_sum(p, n),
    decreases n - i,
{
    if i < n {
        lemma_ub_sum_mono(p, i, n - 1);
    }
}

proof fn lemma_names_push(s: Seq<String>, x: String, r: Seq<char>)
    ensures
        names_has(s.push(x), r) == (names_has(s, r) || x@ == r),
{
    let t = s.push(x);
    if names_has(t, r) {
        let w = choose|w: int| 0 <= w < t.len() && (#[trigger] t[w])@ == r;
        if w < s.len() {
            assert(s[w] == t[w]);
        }
    }
    if names_has(s, r) {
        let w = choose|w: int| 0 <= w < s.len() && (#[trigger] s[w])@ == r;
        assert(t[w] == s[w]);
    }
    if x@ == r {
        assert(t[s.len() as int] == x);
    }
}

/// Whether one of the first `j` names of `s` is `r`.
pub open spec fn prefix_has(s: Seq<Seq<char>>, j: int, r: Seq<char>) -> bool {
    exists|jj: int| 0 <= jj < j && s[jj] == r
}

/// Whether one of the first `i` routes of `s` leads to `r`, for train `t`.
pub open spec fn leads_from_prefix(p: Seq<TrainView>, t: int, s: Seq<Seq<char>>, i: int, r: Seq<char>) -> bool {
    exists|j: int| 0 <= j < i && #[trigger] leads_to(p, t, s[j], r)
}

/// Whether one of the first `i` routes of `s` has no next routes, for train `t`.
pub open spec fn exit_in_prefix(p: Seq<TrainView>, t: int, s: Seq<Seq<char>>, i: int) -> bool {
    exists|j: int| 0 <= j < i && !has_nexts(p, t, #[trigger] s[j])
}

proof fn lemma_prefix_step(p: Seq<TrainView>, t: int, s: Seq<Seq<char>>, i: int, r: Seq<char>)
    requires
        0 <= i < s.len(),
    ensures
        prefix_has(s, i + 1, r) == (prefix_has(s, i, r) || s[i] == r),
        leads_from_prefix(p, t, s, i + 1, r) == (leads_from_prefix(p, t, s, i, r) || leads_to(p, t, s[i], r)),
        exit_in_prefix(p, t, s, i + 1) == (exit_in_prefix(p, t, s, i) || !has_nexts(p, t, s[i])),
{
    if prefix_has(s, i + 1, r) {
        let jj = choose|jj: int| 0 <= jj < i + 1 && s[jj] == r;
        if jj < i {
            assert(prefix_has(s, i, r));
        }
    }
    if leads_from_prefix(p, t, s, i + 1, r) {
        let jj = choose|jj: int| 0 <= jj < i + 1 && #[trigger] leads_to(p, t, s[jj], r);
        if jj < i {
            assert(leads_from_prefix(p, t, s, i, r));
        }
    }
    if exit_in_prefix(p, t, s, i + 1) {
        let jj = choose|jj: int| 0 <= jj < i + 1 && !has_nexts(p, t, #[trigger] s[jj]);
        if jj < i {
            assert(exit_in_prefix(p, t, s, i));
        }
    }
}

/// The names of a list of strings.
pub open spec fn names_view(v: Seq<String>) -> Seq<Seq<char>> {
    v.map_values(|x: String| x@)
}

/// The number of moves train `t` can make before it leaves by its longest
/// way, for a train that cannot keep moving for `usize::MAX` moves.
fn train_bound(problem: &Problem, t: usize) -> (res: usize)
    requires
        t < problem.trains.len(),
        level_empty(problem@, t as int, usize::MAX as nat),
    ensures
        res == train_ub(problem@, t as int),
{
    let ghost p = problem@;
    let train = &problem.trains[t];
    assert(p[t as int] == train@);
    let ghost iv = p[t as int].initial_routes;
    assert(iv == names_view(train.initial_routes@));
    let mut set: Vec<String> = Vec::new();
    let mut i: usize = 0;
    while i < train.initial_routes.len()
        invariant
            i <= train.initial_routes.len(),
            iv == names_view(train.initial_routes@),
            forall|r: Seq<char>| #[trigger] names_has(set@, r) == prefix_has(iv, i as int, r),
        decreases train.initial_routes.len() - i,
    {
        let r = &train.initial_routes[i];
        assert(iv[i as int] == r@);
        let ghost before = set@;
        let present = contains_name(&set, r.as_str());
        if !present {
            set.push(r.clone());
        }
        proof {
            assert forall|x: Seq<char>| #[trigger] names_has(set@, x) == prefix_has(iv, i + 1, x) by {
                lemma_prefix_step(p, t as int, iv, i as int, x);
                if present {
                    if x == r@ {
                        let w = choose|w: int| 0 <= w < before.len() && before[w]@ == r@;
                        assert(names_has(before, x));
                    }
                } else {
                    assert(set@ == before.push(*r));
                    lemma_names_push(before, *r, x);
                }
            }
        }
        i += 1;
    }
    proof {
        assert forall|r: Seq<char>| #[trigger] in_level(p, t as int, 0, r) == names_has(set@, r) by {
            lemma_level_zero(p, t as int, r);
            if iv.contains(r) {
                let j = choose|j: int| 0 <= j < iv.len() && iv[j] == r;
                assert(prefix_has(iv, iv.len() as int, r));
            }
            if prefix_has(iv, iv.len() as int, r) {
                let j = choose|j: int| 0 <= j < iv.len() && iv[j] == r;
                assert(iv.contains(r));
            }
        }
    }
    let mut max_dist: usize = 0;
    let mut dist: usize = 0;
    while set.len() > 0
        invariant
            t < problem.trains.len(),
            p == problem@,
            p[t as int] == train@,
            level_empty(p, t as int, usize::MAX as nat),
            forall|r: Seq<char>| #[trigger] in_level(p, t as int, dist as nat, r) == names_has(set@, r),
            max_dist == last_exit_below(p, t as int, dist as nat),
            max_dist <= dist,
        decreases usize::MAX - dist,
    {
        let ghost sv = names_view(set@);
        proof {
            assert(names_has(set@, set@[0]@));
            assert(in_level(p, t as int, dist as nat, set@[0]@));
            if dist == usize::MAX {
                assert(!in_level(p, t as int, usize::MAX as nat, set@[0]@));
            }
        }
        let mut next: Vec<String> = Vec::new();
        let mut found = false;
        let mut i: usize = 0;
        while i < set.len()
            invariant
                i <= set.len(),
                t < problem.trains.len(),
                p == problem@,
                p[t as int] == train@,
                sv == names_view(set@),
                forall|r: Seq<char>| #[trigger] names_has(next@, r) == leads_from_prefix(p, t as int, sv, i as int, r),
                found == exit_in_prefix(p, t as int, sv, i as int),
            decreases set.len() - i,
        {
            let q = set[i].as_str();
            assert(sv[i as int] == q@);
            let ghost nb = next@;
            let mut stop = false;
            match find_route(&train.routes, q) {
                Some(k) => {
                    proof {
                        lemma_route_at(train, q@, k as int);
                    }
                    match &train.routes[k].1.next_routes {
                        Some(nexts) => {
                            let ghost nv = nexts.deep_view();
                            assert(has_nexts(p, t as int, q@));
                            assert(next_list(p, t as int, q@) == nv);
                            let mut j: usize = 0;
                            while j < nexts.len()
                                invariant
                                    j <= nexts.len(),
                                    nv == nexts.deep_view(),
                                    forall|r: Seq<char>| #[trigger] names_has(next@, r) == (names_has(nb, r) || prefix_has(nv, j as int, r)),
                                decreases nexts.len() - j,
                            {
                                let n = &nexts[j];
                                assert(nv[j as int] == n@);
                                let ghost before = next@;
                                let present = contains_name(&next, n.as_str());
                                if !present {
                                    next.push(n.clone());
                                }
                                proof {
                                    assert forall|x: Seq<char>| #[trigger] names_has(next@, x) == (names_has(nb, x) || prefix_has(nv, j + 1, x)) by {
                                        lemma_prefix_step(p, t as int, nv, j as int, x);
                                        if present {
                                            if x == n@ {
                                                let w = choose|w: int| 0 <= w < before.len() && before[w]@ == n@;
                                                assert(names_has(before, x));
                                            }
                                        } else {
                                            assert(next@ == before.push(*n));
                                            lemma_names_push(before, *n, x);
                                        }
                                    }
                                }
                                j += 1;
                            }
                            proof {
                                assert forall|x: Seq<char>| prefix_has(nv, nv.len() as int, x) == leads_to(p, t as int, q@, x) by {
                                    if leads_to(p, t as int, q@, x) {
                                        let jj = choose|jj: int| 0 <= jj < nv.len() && nv[jj] == x;
                                        assert(prefix_has(nv, nv.len() as int, x));
                                    }
                                }
                            }
                        },
                        None => {
                            assert(!has_nexts(p, t as int, q@));
                            stop = true;
                        },
                    }
                },
                None => {
                    assert(!has_nexts(p, t as int, q@));
                    stop = true;
                },
            }
            if stop {
                found = true;
            }
            proof {
                assert(stop == !has_nexts(p, t as int, q@));
                assert forall|r: Seq<char>| #[trigger] names_has(next@, r) == leads_from_prefix(p, t as int, sv, i + 1, r) by {
                    lemma_prefix_step(p, t as int, sv, i as int, r);
                }
                lemma_prefix_step(p, t as int, sv, i as int, q@);
            }
            i += 1;
        }
        proof {
            let d1 = (dist + 1) as nat;
            assert forall|r: Seq<char>| #[trigger] in_level(p, t as int, d1, r) == names_has(next@, r) by {
                lemma_level_step(p, t as int, d1, r);
                if in_level(p, t as int, d1, r) {
                    let q = choose|q: Seq<char>| #[trigger] in_level(p, t as int, dist as nat, q) && leads_to(p, t as int, q, r);
                    assert(names_has(set@, q));
                    let j = choose|j: int| 0 <= j < set@.len() && (#[trigger] set@[j])@ == q;
                    assert(sv[j] == q);
                    assert(leads_to(p, t as int, sv[j], r));
                    assert(leads_from_prefix(p, t as int, sv, set@.len() as int, r));
                }
                if names_has(next@, r) {
                    let j = choose|j: int| 0 <= j < set@.len() && #[trigger] leads_to(p, t as int, sv[j], r);
                    assert(sv[j] == set@[j]@);
                    assert(names_has(set@, sv[j]));
                    assert(in_level(p, t as int, dist as nat, sv[j]));
                }
            }
            assert(found == exits_at(p, t as int, dist as nat)) by {
                if found {
                    let j = choose|j: int| 0 <= j < set@.len() && !has_nexts(p, t as int, #[trigger] sv[j]);
                    assert(sv[j] == set@[j]@);
                    assert(names_has(set@, sv[j]));
                    assert(in_level(p, t as int, dist as nat, sv[j]));
                }
                if exits_at(p, t as int, dist as nat) {
                    let r = choose|r: Seq<char>| #[trigger] in_level(p, t as int, dist as nat, r) && !has_nexts(p, t as int, r);
                    assert(names_has(set@, r));
                    let j = choose|j: int| 0 <= j < set@.len() && (#[trigger] set@[j])@ == r;
                    assert(sv[j] == r);
                    assert(exit_in_prefix(p, t as int, sv, set@.len() as int));
                }
            }
        }
        if found && dist > max_dist {
            max_dist = dist;
        }
        set = next;
        dist += 1;
    }
    proof {
        assert forall|r: Seq<char>| !#[trigger] in_level(p, t as int, dist as nat, r) by {
            if in_level(p, t as int, dist as nat, r) {
                assert(names_has(set@, r));
            }
        }
        lemma_train_ub(p, t as int, dist as nat);
    }
    max_dist
}

/// The bound on the number of planning steps that the searches use: the
/// sum over the trains of the largest number of moves each can make before
/// it leaves.
pub fn ub_steps(problem: &Problem) -> (steps: usize)
    requires
        forall|t: int| 0 <= t < problem@.len() ==> level_empty(problem@, t, usize::MAX as nat),
        ub_sum(problem@, problem@.len() as int) <= usize::MAX,
    ensures
        steps == ub_sum(problem@, problem@.len() as int),
{
    let ghost p = problem@;
    let mut steps: usize = 0;
    let mut t: usize = 0;
    assert(p.len() == problem.trains.len());
    while t < problem.trains.len()
        invariant
            t <= problem.trains.len(),
            p == problem@,
            p.len() == problem.trains.len(),
            forall|u: int| 0 <= u < p.len() ==> level_empty(p, u, usize::MAX as nat),
            ub_sum(p, p.len() as int) <= usize::MAX,
            steps == ub_sum(p, t as int),
        decreases problem.trains.len() - t,
    {
        let b = train_bound(problem, t);
        proof {
            lemma_ub_sum_mono(p, t + 1, p.len() as int);
        }
        steps = steps + b;
        t += 1;
    }
    steps
}

} // verus!
