//! The problem model that the solvers work on, and its construction from the
//! 2021 benchmark tables.
use vstd::prelude::*;
use crate::raw2023_problem;
use crate::raw_problem;
use crate::seqs::{first_match, key_index, lemma_first_match, lemma_first_match_at, named};
use crate::text::{chars_lt, str_lt};

verus! {

/// The name of a route.
pub type RouteRef = String;

/// A deadlock-checking instance: the trains and their routes.
#[derive(Debug)]
pub struct Problem {
    pub trains: Vec<Train>,
}

/// A train: where it stands and the routes it may take, each with its data.
/// `routes` holds each route name once.
#[derive(Debug)]
pub struct Train {
    pub name: String,
    pub initial_routes: Vec<RouteRef>,
    pub routes: Vec<(RouteRef, TrainRoute)>,
}

/// What a train meets on one route.
#[derive(Debug)]
pub struct TrainRoute {
    pub train_length: u64,
    pub route_length: u64,
    pub switch_length: u64,
    pub unconditional_conflicts: Vec<RouteRef>,
    pub allocation_conflicts: Vec<RouteRef>,
    /// `None` where the route leads out of the area (a black hole).
    pub next_routes: Option<Vec<RouteRef>>,
}

/// The mathematical model of a [`TrainRoute`].
pub struct TrainRouteView {
    pub train_length: u64,
    pub route_length: u64,
    pub switch_length: u64,
    pub unconditional_conflicts: Seq<Seq<char>>,
    pub allocation_conflicts: Seq<Seq<char>>,
    pub next_routes: Option<Seq<Seq<char>>>,
}

/// The mathematical model of a [`Train`]: its route table as a sequence of
/// (name, data) entries.
pub struct TrainView {
    pub name: Seq<char>,
    pub initial_routes: Seq<Seq<char>>,
    pub routes: Seq<(Seq<char>, TrainRouteView)>,
}

impl View for TrainRoute {
    type V = TrainRouteView;

    open spec fn view(&self) -> TrainRouteView {
        TrainRouteView {
            train_length: self.train_length,
            route_length: self.route_length,
            switch_length: self.switch_length,
            unconditional_conflicts: self.unconditional_conflicts.deep_view(),
            allocation_conflicts: self.allocation_conflicts.deep_view(),
            next_routes: self.next_routes.deep_view(),
        }
    }
}

/// The model of a route table.
pub open spec fn entries_view(s: Seq<(String, TrainRoute)>) -> Seq<(Seq<char>, TrainRouteView)> {
    s.map_values(|e: (String, TrainRoute)| (e.0@, e.1@))
}

impl View for Train {
    type V = TrainView;

    open spec fn view(&self) -> TrainView {
        TrainView {
            name: self.name@,
            initial_routes: self.initial_routes.deep_view(),
            routes: entries_view(self.routes@),
        }
    }
}

impl View for Problem {
    type V = Seq<TrainView>;

    open spec fn view(&self) -> Seq<TrainView> {
        self.trains@.map_values(|t: Train| t@)
    }
}

/// No route name occurs twice in a route table.
pub open spec fn keys_distinct(s: Seq<(Seq<char>, TrainRouteView)>) -> bool {
    forall|i: int, j: int| 0 <= i < j < s.len() ==> s[i].0 != s[j].0
}

/// The route table as a map from route names.
pub open spec fn route_map(s: Seq<(Seq<char>, TrainRouteView)>) -> Map<Seq<char>, TrainRouteView>
    decreases s.len(),
{
    if s.len() == 0 {
        Map::empty()
    } else {
        route_map(s.drop_last()).insert(s.last().0, s.last().1)
    }
}

/// The index of the first entry named `k`, if any.
pub open spec fn index_of_key(s: Seq<(Seq<char>, TrainRouteView)>, k: Seq<char>) -> Option<int> {
    key_index(s, k)
}

impl TrainView {
    /// The train's route table holds each name once.
    pub open spec fn wf(self) -> bool {
        keys_distinct(self.routes)
    }

    /// The train's data on route `r`, if it may take it.
    pub open spec fn route(self, r: Seq<char>) -> Option<TrainRouteView> {
        match index_of_key(self.routes, r) {
            Some(i) => Some(self.routes[i].1),
            None => None,
        }
    }
}

/// Every train's route table holds each name once.
pub open spec fn problem_wf(p: Seq<TrainView>) -> bool {
    forall|i: int| 0 <= i < p.len() ==> #[trigger] p[i].wf()
}

pub proof fn lemma_first_index(s: Seq<(Seq<char>, TrainRouteView)>, k: Seq<char>, i: int)
    requires
        0 <= i < s.len(),
        s[i].0 == k,
        forall|j: int| 0 <= j < i ==> s[j].0 != k,
    ensures
        index_of_key(s, k) == Some(i),
{
    lemma_first_match_at(s, named::<TrainRouteView>(k), i);
}

pub proof fn lemma_index_of_key(s: Seq<(Seq<char>, TrainRouteView)>, k: Seq<char>)
    ensures
        match index_of_key(s, k) {
            Some(i) => 0 <= i < s.len() && s[i].0 == k && forall|j: int| 0 <= j < i ==> s[j].0 != k,
            None => forall|j: int| 0 <= j < s.len() ==> s[j].0 != k,
        },
{
    lemma_first_match(s, named::<TrainRouteView>(k));
}

/// Looks up a route by name in a route table: the index of its first entry.
pub fn find_route(routes: &Vec<(String, TrainRoute)>, name: &str) -> (res: Option<usize>)
    ensures
        match res {
            Some(i) => index_of_key(entries_view(routes@), name@) == Some(i as int),
            None => index_of_key(entries_view(routes@), name@) is None,
        },
{
    let ghost ev = entries_view(routes@);
    let mut i: usize = 0;
    while i < routes.len()
        invariant
            i <= routes.len(),
            ev == entries_view(routes@),
            ev.len() == routes@.len(),
            forall|j: int| 0 <= j < i ==> ev[j].0 != name@,
        decreases routes.len() - i,
    {
        if crate::text::str_eq(routes[i].0.as_str(), name) {
            proof {
                lemma_first_index(ev, name@, i as int);
            }
            return Some(i);
        }
        i += 1;
    }
    proof {
        lemma_index_of_key(ev, name@);
    }
    None
}


/// `s` without the entries equal to `r`.
pub open spec fn without_route(s: Seq<Seq<char>>, r: Seq<char>) -> Seq<Seq<char>> {
    s.filter(other_than(r))
}

/// The test "is not `r`".
pub open spec fn other_than(r: Seq<char>) -> spec_fn(Seq<char>) -> bool {
    |c: Seq<char>| c != r
}

/// The test "is an exclusion row of route `r`".
pub open spec fn exclusion_of(r: Seq<char>) -> spec_fn(raw_problem::RouteLengthExclusion) -> bool {
    |c: raw_problem::RouteLengthExclusion| c.route@ == r
}

/// The rows of the exclusion table that speak of `route`, in table order.
pub open spec fn conflict_sets(p: &raw_problem::Problem, route: Seq<char>) -> Seq<
    raw_problem::RouteLengthExclusion,
> {
    p.conflicts@.filter(exclusion_of(route))
}

/// The route data of a train-route row, given the two exclusion rows of its
/// route: the shorter one lists the unconditional conflicts, the longer one
/// the conflicts that only a train longer than the shorter length causes; a
/// route never conflicts with itself.
pub open spec fn converted_route(
    tr: raw_problem::TrainRoute,
    c0: raw_problem::RouteLengthExclusion,
    c1: raw_problem::RouteLengthExclusion,
) -> TrainRouteView {
    TrainRouteView {
        train_length: tr.length,
        route_length: c1.length,
        switch_length: (c1.length - c0.length) as u64,
        unconditional_conflicts: without_route(c0.conflicts.deep_view(), tr.route@),
        allocation_conflicts: if tr.length > c0.length {
            without_route(c1.conflicts.deep_view(), tr.route@)
        } else {
            Seq::empty()
        },
        next_routes: if tr.is_black_hole {
            None
        } else {
            Some(tr.next_routes.deep_view())
        },
    }
}

/// A route table with `(k, v)` written in: replacing the entry named `k`, or
/// appended.
pub open spec fn upsert(s: Seq<(Seq<char>, TrainRouteView)>, k: Seq<char>, v: TrainRouteView) -> Seq<
    (Seq<char>, TrainRouteView),
> {
    match index_of_key(s, k) {
        Some(i) => s.update(i, (k, v)),
        None => s.push((k, v)),
    }
}

/// The route table that the train-route rows `trs` give, later rows
/// overriding earlier rows of the same route.
pub open spec fn route_entries(p: &raw_problem::Problem, trs: Seq<raw_problem::TrainRoute>) -> Seq<
    (Seq<char>, TrainRouteView),
>
    decreases trs.len(),
{
    if trs.len() == 0 {
        Seq::empty()
    } else {
        let tr = trs.last();
        let cs = conflict_sets(p, tr.route@);
        upsert(route_entries(p, trs.drop_last()), tr.route@, converted_route(tr, cs[0], cs[1]))
    }
}

/// The train-route rows of the train with id `id`.
pub open spec fn rows_of_train(p: &raw_problem::Problem, id: Seq<char>) -> Seq<raw_problem::TrainRoute> {
    p.train_routes@.filter(row_of(id))
}

/// The model of the train that a row of the train table gives.
pub open spec fn converted_train(p: &raw_problem::Problem, t: raw_problem::Train) -> TrainView {
    TrainView {
        name: t.id@,
        initial_routes: t.initial_routes.deep_view(),
        routes: route_entries(p, rows_of_train(p, t.id@)),
    }
}

/// The trains of an instance, without the dummy trains, in table order.
pub open spec fn converted_trains(p: &raw_problem::Problem) -> Seq<TrainView> {
    p.trains@.filter(|t: raw_problem::Train| !t.is_dummy).map_values(
        |t: raw_problem::Train| converted_train(p, t),
    )
}

/// `x` inserted into `s` before the first train whose name sorts after its own.
pub open spec fn insert_by_name(s: Seq<TrainView>, x: TrainView) -> Seq<TrainView>
    decreases s.len(),
{
    if s.len() == 0 {
        seq![x]
    } else if chars_lt(x.name, s[0].name) {
        seq![x] + s
    } else {
        seq![s[0]] + insert_by_name(s.drop_first(), x)
    }
}

/// The stable sort of trains by name.
pub open spec fn sort_by_name(s: Seq<TrainView>) -> Seq<TrainView>
    decreases s.len(),
{
    if s.len() == 0 {
        Seq::empty()
    } else {
        insert_by_name(sort_by_name(s.drop_last()), s.last())
    }
}

/// The conditions under which a 2021 instance can be converted: no
/// multi-train, siding or unusable routes, and each train-route row of a
/// real train has exactly two exclusion rows for its route, the second one
/// unit longer than the first.
pub open spec fn convertible_2021(p: &raw_problem::Problem) -> bool {
    &&& forall|i: int|
        0 <= i < p.routes@.len() ==> {
            &&& !(#[trigger] p.routes@[i]).is_multi_train
            &&& !p.routes@[i].is_siding
            &&& !p.routes@[i].is_unusable
        }
    &&& forall|i: int, j: int|
        0 <= i < p.trains@.len() && 0 <= j < p.train_routes@.len() && !(
        #[trigger] p.trains@[i]).is_dummy && (#[trigger] p.train_routes@[j]).train@
            == p.trains@[i].id@ ==> {
            let cs = conflict_sets(p, p.train_routes@[j].route@);
            &&& cs.len() == 2
            &&& cs[0].length < cs[1].length
            &&& cs[1].length - cs[0].length == 1
        }
}


/// The names of `v` other than `r`, in order.
pub fn without(v: &Vec<String>, r: &String) -> (out: Vec<String>)
    ensures
        out.deep_view() == without_route(v.deep_view(), r@),
{
    let ghost pred = other_than(r@);
    let mut out: Vec<String> = Vec::new();
    let mut i: usize = 0;
    while i < v.len()
        invariant
            i <= v.len(),
            pred == other_than(r@),
            out.deep_view() == v.deep_view().take(i as int).filter(pred),
        decreases v.len() - i,
    {
        proof {
            assert(v.deep_view().take(i + 1) =~= v.deep_view().take(i as int).push(v.deep_view()[i as int]));
            v.deep_view().take(i as int).lemma_filter_push(v.deep_view()[i as int], pred);
        }
        assert(v.deep_view()[i as int] == v@[i as int]@);
        if !(v[i] == *r) {
            let c = v[i].clone();
            let ghost before = out.deep_view();
            out.push(c);
            assert(out.deep_view() =~= before.push(v@[i as int]@));
        }
        assert(out.deep_view() =~= v.deep_view().take(i + 1).filter(pred));
        i += 1;
    }
    assert(v.deep_view().take(i as int) =~= v.deep_view());
    out
}

/// The indices of the exclusion rows of `route`, in table order.
fn conflict_indices(p: &raw_problem::Problem, route: &String) -> (idx: Vec<usize>)
    ensures
        idx@.len() == conflict_sets(p, route@).len(),
        forall|k: int|
            0 <= k < idx@.len() ==> idx@[k] < p.conflicts@.len() && p.conflicts@[idx@[k] as int]
                == conflict_sets(p, route@)[k],
{
    let ghost pred = exclusion_of(route@);
    let mut idx: Vec<usize> = Vec::new();
    let mut j: usize = 0;
    while j < p.conflicts.len()
        invariant
            j <= p.conflicts.len(),
            pred == exclusion_of(route@),
            idx@.len() == p.conflicts@.take(j as int).filter(pred).len(),
            forall|k: int| 0 <= k < idx@.len() ==> idx@[k] < j,
            forall|k: int|
                0 <= k < idx@.len() ==> p.conflicts@[#[trigger] idx@[k] as int]
                    == p.conflicts@.take(j as int).filter(pred)[k],
        decreases p.conflicts.len() - j,
    {
        proof {
            assert(p.conflicts@.take(j + 1) =~= p.conflicts@.take(j as int).push(p.conflicts@[j as int]));
            p.conflicts@.take(j as int).lemma_filter_push(p.conflicts@[j as int], pred);
        }
        let ghost f0 = p.conflicts@.take(j as int).filter(pred);
        let ghost f1 = p.conflicts@.take(j + 1).filter(pred);
        if p.conflicts[j].route == *route {
            idx.push(j);
            assert(f1 == f0.push(p.conflicts@[j as int]));
        } else {
            assert(f1 == f0);
        }
        assert forall|k: int| 0 <= k < idx@.len() implies idx@[k] < j + 1 && p.conflicts@[#[trigger] idx@[k] as int]
            == f1[k] by {
            if k < f0.len() {
                assert(f1[k] == f0[k]);
            }
        }
        j += 1;
    }
    assert(p.conflicts@.take(j as int) =~= p.conflicts@);
    idx
}

/// The route data of one train-route row.
fn convert_train_route(p: &raw_problem::Problem, tr: &raw_problem::TrainRoute) -> (out: TrainRoute)
    requires
        conflict_sets(p, tr.route@).len() == 2,
        conflict_sets(p, tr.route@)[0].length < conflict_sets(p, tr.route@)[1].length,
    ensures
        out@ == converted_route(*tr, conflict_sets(p, tr.route@)[0], conflict_sets(p, tr.route@)[1]),
{
    let idx = conflict_indices(p, &tr.route);
    let c0 = &p.conflicts[idx[0]];
    let c1 = &p.conflicts[idx[1]];
    let unconditional_conflicts = without(&c0.conflicts, &tr.route);
    let train_is_long = tr.length > c0.length;
    let allocation_conflicts = if train_is_long {
        without(&c1.conflicts, &tr.route)
    } else {
        Vec::new()
    };
    let next_routes = if !tr.is_black_hole {
        Some(tr.next_routes.clone())
    } else {
        None
    };
    let out = TrainRoute {
        route_length: c1.length,
        train_length: tr.length,
        switch_length: c1.length - c0.length,
        unconditional_conflicts,
        allocation_conflicts,
        next_routes,
    };
    assert(out.allocation_conflicts.deep_view() =~= converted_route(
        *tr, conflict_sets(p, tr.route@)[0], conflict_sets(p, tr.route@)[1]).allocation_conflicts);
    out
}

/// Writes `(k, v)` into a route table: replacing the entry named `k`, or appended.
pub fn upsert_route(routes: &mut Vec<(String, TrainRoute)>, k: String, v: TrainRoute)
    ensures
        entries_view(final(routes)@) == upsert(entries_view(old(routes)@), k@, v@),
{
    let ghost k_view = k@;
    let ghost v_view = v@;
    proof {
        lemma_index_of_key(entries_view(routes@), k_view);
    }
    match find_route(routes, k.as_str()) {
        Some(i) => {
            routes.set(i, (k, v));
            assert(entries_view(routes@) =~= entries_view(old(routes)@).update(i as int, (k_view, v_view)));
        },
        None => {
            routes.push((k, v));
            assert(entries_view(routes@) =~= entries_view(old(routes)@).push((k_view, v_view)));
        },
    }
}


/// The models of a sequence of trains.
pub open spec fn trains_view(s: Seq<Train>) -> Seq<TrainView> {
    s.map_values(|t: Train| t@)
}

/// The test "is a train-route row of train `id`".
pub open spec fn row_of(id: Seq<char>) -> spec_fn(raw_problem::TrainRoute) -> bool {
    |tr: raw_problem::TrainRoute| tr.train@ == id
}

/// The test "is not a dummy train".
pub open spec fn is_real() -> spec_fn(raw_problem::Train) -> bool {
    |t: raw_problem::Train| !t.is_dummy
}

proof fn lemma_filter_none<A>(s: Seq<A>, f: spec_fn(A) -> bool)
    requires
        forall|i: int| 0 <= i < s.len() ==> !f(#[trigger] s[i]),
    ensures
        s.filter(f) == Seq::<A>::empty(),
    decreases s.len(),
{
    reveal(Seq::filter);
    if s.len() > 0 {
        lemma_filter_none(s.drop_last(), f);
    }
}

proof fn lemma_route_entries_conflicts(p1: &raw_problem::Problem, p2: &raw_problem::Problem, trs: Seq<raw_problem::TrainRoute>)
    requires
        p1.conflicts@ == p2.conflicts@,
    ensures
        route_entries(p1, trs) == route_entries(p2, trs),
    decreases trs.len(),
{
    if trs.len() > 0 {
        lemma_route_entries_conflicts(p1, p2, trs.drop_last());
    }
}

/// Dummy trains are not part of the problem: adding dummy trains to an
/// instance, with train-route rows for trains other than its real ones,
/// leaves the converted problem as it was.
pub proof fn lemma_dummy_trains_ignored(
    raw: &raw_problem::Problem,
    raw2: &raw_problem::Problem,
    extra: Seq<raw_problem::Train>,
    rows: Seq<raw_problem::TrainRoute>,
)
    requires
        raw2.trains@ == raw.trains@ + extra,
        forall|i: int| 0 <= i < extra.len() ==> (#[trigger] extra[i]).is_dummy,
        raw2.train_routes@ == raw.train_routes@ + rows,
        forall|i: int, j: int|
            0 <= i < rows.len() && 0 <= j < raw.trains@.len() && !raw.trains@[j].is_dummy ==> (#[trigger] rows[i]).train@
                != (#[trigger] raw.trains@[j]).id@,
        raw2.conflicts@ == raw.conflicts@,
    ensures
        converted_trains(raw2) == converted_trains(raw),
        sort_by_name(converted_trains(raw2)) == sort_by_name(converted_trains(raw)),
{
    let kept = |t: raw_problem::Train| !t.is_dummy;
    Seq::filter_distributes_over_add(raw.trains@, extra, kept);
    lemma_filter_none(extra, kept);
    let ts = raw.trains@.filter(kept);
    assert(raw2.trains@.filter(kept) =~= ts);
    assert forall|i: int| 0 <= i < ts.len() implies converted_train(raw2, #[trigger] ts[i]) == converted_train(raw, ts[i]) by {
        raw.trains@.lemma_filter_pred(kept, i);
        assert(ts.contains(ts[i]));
        raw.trains@.lemma_filter_contains_rev(kept, ts[i]);
        assert(raw.trains@.contains(ts[i]));
        let j = choose|j: int| 0 <= j < raw.trains@.len() && raw.trains@[j] == ts[i];
        let id = ts[i].id@;
        let of_id = row_of(id);
        Seq::filter_distributes_over_add(raw.train_routes@, rows, of_id);
        assert forall|k: int| 0 <= k < rows.len() implies !of_id(#[trigger] rows[k]) by {
            assert(rows[k].train@ != raw.trains@[j].id@);
        }
        lemma_filter_none(rows, of_id);
        assert(rows_of_train(raw2, id) =~= rows_of_train(raw, id));
        lemma_route_entries_conflicts(raw2, raw, rows_of_train(raw, id));
    }
    assert(converted_trains(raw2) =~= converted_trains(raw));
}

/// The index before which `insert_by_name` puts `x`: that of the first train
/// whose name sorts after `x`'s.
proof fn lemma_insert_by_name(s: Seq<TrainView>, x: TrainView, p: int)
    requires
        0 <= p <= s.len(),
        forall|j: int| 0 <= j < p ==> !chars_lt(x.name, #[trigger] s[j].name),
        p < s.len() ==> chars_lt(x.name, s[p].name),
    ensures
        insert_by_name(s, x) == s.insert(p, x),
    decreases s.len(),
{
    if s.len() == 0 {
        assert(s.insert(p, x) =~= seq![x]);
    } else if p == 0 {
        assert(s.insert(p, x) =~= seq![x] + s);
    } else {
        let t = s.drop_first();
        assert forall|j: int| 0 <= j < p - 1 implies !chars_lt(x.name, #[trigger] t[j].name) by {
            assert(t[j] == s[j + 1]);
        }
        lemma_insert_by_name(t, x, p - 1);
        assert(s.insert(p, x) =~= seq![s[0]] + t.insert(p - 1, x));
    }
}

/// Inserts `t` before the first train whose name sorts after its own.
fn insert_train_by_name(trains: &mut Vec<Train>, t: Train)
    ensures
        trains_view(final(trains)@) == insert_by_name(trains_view(old(trains)@), t@),
{
    let ghost x = t@;
    let ghost s = trains_view(trains@);
    let mut p: usize = 0;
    while p < trains.len()
        invariant
            p <= trains.len(),
            s == trains_view(trains@),
            x == t@,
            forall|j: int| 0 <= j < p ==> !chars_lt(x.name, #[trigger] s[j].name),
        ensures
            p <= trains.len(),
            forall|j: int| 0 <= j < p ==> !chars_lt(x.name, #[trigger] s[j].name),
            p < trains.len() ==> chars_lt(x.name, s[p as int].name),
        decreases trains.len() - p,
    {
        if str_lt(t.name.as_str(), trains[p].name.as_str()) {
            break;
        }
        p += 1;
    }
    proof {
        lemma_insert_by_name(s, x, p as int);
    }
    trains.insert(p, t);
    assert(trains_view(trains@) =~= s.insert(p as int, x));
}

/// Sorts trains by name, keeping the order of trains of equal name.
pub fn sort_trains_by_name(trains: Vec<Train>) -> (out: Vec<Train>)
    ensures
        trains_view(out@) == sort_by_name(trains_view(trains@)),
{
    let ghost all = trains_view(trains@);
    let mut rest = trains;
    let mut out: Vec<Train> = Vec::new();
    let ghost mut i: int = 0;
    while rest.len() > 0
        invariant
            0 <= i <= all.len(),
            rest@.len() == all.len() - i,
            trains_view(rest@) == all.skip(i),
            trains_view(out@) == sort_by_name(all.take(i)),
        decreases rest.len(),
    {
        let ghost before = trains_view(rest@);
        let t = rest.remove(0);
        proof {
            assert(trains_view(rest@) =~= before.drop_first());
            assert(before.drop_first() =~= all.skip(i + 1));
            assert(all.take(i + 1).drop_last() =~= all.take(i));
            assert(all.skip(i)[0] == all[i]);
        }
        insert_train_by_name(&mut out, t);
        proof {
            i = i + 1;
        }
    }
    assert(all.take(i) =~= all);
    out
}

/// Builds the problem model from a 2021 benchmark instance: the dummy trains
/// are left out, each real train gets the routes of its train-route rows with
/// the conflicts of their exclusion rows, and the trains are sorted by id.
pub fn convert_raw2021(problem: &raw_problem::Problem) -> (out: Problem)
    requires
        convertible_2021(problem),
    ensures
        out@ == sort_by_name(converted_trains(problem)),
        problem_wf(out@),
        out@.len() == problem.trains@.filter(is_real()).len(),
        trains_start_as_given(problem, out@),
{
    let ghost conv = |t: raw_problem::Train| converted_train(problem, t);
    let mut trains: Vec<Train> = Vec::new();
    let mut i: usize = 0;
    while i < problem.trains.len()
        invariant
            i <= problem.trains.len(),
            convertible_2021(problem),
            conv == (|t: raw_problem::Train| converted_train(problem, t)),
            trains_view(trains@) == problem.trains@.take(i as int).filter(is_real()).map_values(conv),
        decreases problem.trains.len() - i,
    {
        let train = &problem.trains[i];
        proof {
            assert(problem.trains@.take(i + 1) =~= problem.trains@.take(i as int).push(problem.trains@[i as int]));
            problem.trains@.take(i as int).lemma_filter_push(problem.trains@[i as int], is_real());
        }
        if !train.is_dummy {
            let ghost rows = row_of(train.id@);
            let mut routes: Vec<(String, TrainRoute)> = Vec::new();
            let mut j: usize = 0;
            while j < problem.train_routes.len()
                invariant
                    i < problem.trains.len(),
                    train == problem.trains@[i as int],
                    !train.is_dummy,
                    j <= problem.train_routes.len(),
                    convertible_2021(problem),
                    rows == row_of(train.id@),
                    entries_view(routes@) == route_entries(
                        problem,
                        problem.train_routes@.take(j as int).filter(rows),
                    ),
                decreases problem.train_routes.len() - j,
            {
                let tr = &problem.train_routes[j];
                let ghost before = problem.train_routes@.take(j as int).filter(rows);
                proof {
                    assert(problem.train_routes@.take(j + 1) =~= problem.train_routes@.take(j as int).push(
                        problem.train_routes@[j as int]));
                    problem.train_routes@.take(j as int).lemma_filter_push(problem.train_routes@[j as int], rows);
                }
                if tr.train == train.id {
                    proof {
                        assert(before.push(*tr).drop_last() =~= before);
                    }
                    let r = convert_train_route(problem, tr);
                    upsert_route(&mut routes, tr.route.clone(), r);
                }
                j += 1;
            }
            assert(problem.train_routes@.take(j as int) =~= problem.train_routes@);
            let ghost before = trains_view(trains@);
            trains.push(Train { name: train.id.clone(), initial_routes: train.initial_routes.clone(), routes });
            assert(trains_view(trains@) =~= before.push(conv(problem.trains@[i as int])));
        }
        i += 1;
    }
    assert(problem.trains@.take(i as int) =~= problem.trains@);
    let trains = sort_trains_by_name(trains);
    let out = Problem { trains };
    assert(out@ =~= trains_view(out.trains@));
    proof {
        lemma_converted_trains_wf(problem);
        lemma_sort_by_name_members(converted_trains(problem));
        assert forall|k: int| 0 <= k < out@.len() implies #[trigger] out@[k].wf() by {
            let j = choose|j: int| 0 <= j < converted_trains(problem).len()
                && converted_trains(problem)[j] == out@[k];
        }
        lemma_converted_starts(problem);
    }
    out
}

proof fn lemma_upsert_distinct(s: Seq<(Seq<char>, TrainRouteView)>, k: Seq<char>, v: TrainRouteView)
    requires
        keys_distinct(s),
    ensures
        keys_distinct(upsert(s, k, v)),
{
    lemma_index_of_key(s, k);
}

proof fn lemma_route_entries_distinct(p: &raw_problem::Problem, trs: Seq<raw_problem::TrainRoute>)
    ensures
        keys_distinct(route_entries(p, trs)),
    decreases trs.len(),
{
    if trs.len() > 0 {
        lemma_route_entries_distinct(p, trs.drop_last());
        let tr = trs.last();
        let cs = conflict_sets(p, tr.route@);
        lemma_upsert_distinct(route_entries(p, trs.drop_last()), tr.route@, converted_route(tr, cs[0], cs[1]));
    }
}

proof fn lemma_converted_trains_wf(p: &raw_problem::Problem)
    ensures
        forall|i: int| 0 <= i < converted_trains(p).len() ==> #[trigger] converted_trains(p)[i].wf(),
{
    assert forall|i: int| 0 <= i < converted_trains(p).len() implies #[trigger] converted_trains(p)[i].wf() by {
        let t = p.trains@.filter(is_real())[i];
        lemma_route_entries_distinct(p, rows_of_train(p, t.id@));
    }
}

proof fn lemma_insert_by_name_members(s: Seq<TrainView>, x: TrainView)
    ensures
        insert_by_name(s, x).len() == s.len() + 1,
        forall|k: int|
            0 <= k < insert_by_name(s, x).len() ==> #[trigger] insert_by_name(s, x)[k] == x || exists|j: int|
                0 <= j < s.len() && s[j] == insert_by_name(s, x)[k],
    decreases s.len(),
{
    if s.len() > 0 && !chars_lt(x.name, s[0].name) {
        let t = s.drop_first();
        lemma_insert_by_name_members(t, x);
        assert forall|k: int| 0 <= k < insert_by_name(s, x).len() implies #[trigger] insert_by_name(s, x)[k]
            == x || exists|j: int| 0 <= j < s.len() && s[j] == insert_by_name(s, x)[k] by {
            if k == 0 {
                assert(s[0] == insert_by_name(s, x)[k]);
            } else {
                assert(insert_by_name(s, x)[k] == insert_by_name(t, x)[k - 1]);
                if insert_by_name(t, x)[k - 1] != x {
                    let j = choose|j: int| 0 <= j < t.len() && t[j] == insert_by_name(t, x)[k - 1];
                    assert(s[j + 1] == t[j]);
                }
            }
        }
    } else if s.len() > 0 {
        assert forall|k: int| 0 <= k < insert_by_name(s, x).len() implies #[trigger] insert_by_name(s, x)[k]
            == x || exists|j: int| 0 <= j < s.len() && s[j] == insert_by_name(s, x)[k] by {
            if k > 0 {
                assert(s[k - 1] == insert_by_name(s, x)[k]);
            }
        }
    }
}

/// The train is a real train of the instance, named by its id, with the
/// initial routes of that train (the same names, in the same order).
pub open spec fn train_started_as_given(p: &raw_problem::Problem, x: TrainView) -> bool {
    exists|j: int|
        0 <= j < p.trains@.len() && !(#[trigger] p.trains@[j]).is_dummy && x.name == p.trains@[j].id@ && x.initial_routes
            == p.trains@[j].initial_routes.deep_view()
}

/// Every train of `out` is a real train of the instance, as it started.
pub open spec fn trains_start_as_given(p: &raw_problem::Problem, out: Seq<TrainView>) -> bool {
    forall|i: int| 0 <= i < out.len() ==> train_started_as_given(p, #[trigger] out[i])
}

/// Each train of the converted problem is a real train of the instance,
/// named by its id, with its initial routes unchanged (the same names, in
/// the same order); there are as many as there are real trains.
pub proof fn lemma_converted_starts(p: &raw_problem::Problem)
    ensures
        sort_by_name(converted_trains(p)).len() == p.trains@.filter(is_real()).len(),
        trains_start_as_given(p, sort_by_name(converted_trains(p))),
{
    let cs = converted_trains(p);
    let f = p.trains@.filter(is_real());
    lemma_sort_by_name_members(cs);
    assert(cs.len() == f.len());
    let out = sort_by_name(converted_trains(p));
    assert forall|i: int| 0 <= i < out.len() implies train_started_as_given(p, #[trigger] out[i]) by {
        let k = choose|k: int| 0 <= k < cs.len() && cs[k] == sort_by_name(cs)[i];
        let t = f[k];
        assert(cs[k] == converted_train(p, t));
        p.trains@.lemma_filter_pred(is_real(), k);
        assert(f.contains(t));
        p.trains@.lemma_filter_contains_rev(is_real(), t);
        let j = choose|j: int| 0 <= j < p.trains@.len() && p.trains@[j] == t;
        assert(!p.trains@[j].is_dummy);
        assert(out[i] == converted_train(p, p.trains@[j]));
        assert(p.trains@[j].id@ == out[i].name && p.trains@[j].initial_routes.deep_view() == out[i].initial_routes);
    }
}

proof fn lemma_insert_by_name_keeps(s: Seq<TrainView>, x: TrainView, y: TrainView)
    ensures
        s.contains(y) || y == x ==> insert_by_name(s, x).contains(y),
    decreases s.len(),
{
    if s.len() == 0 {
        assert(insert_by_name(s, x)[0] == x);
    } else if chars_lt(x.name, s[0].name) {
        let u = seq![x] + s;
        assert(u[0] == x);
        if s.contains(y) {
            let k = choose|k: int| 0 <= k < s.len() && s[k] == y;
            assert(u[k + 1] == y);
        }
    } else {
        let rest = s.drop_first();
        lemma_insert_by_name_keeps(rest, x, y);
        let u = seq![s[0]] + insert_by_name(rest, x);
        assert(u[0] == s[0]);
        if s.contains(y) || y == x {
            if y == s[0] {
            } else {
                if s.contains(y) {
                    let k = choose|k: int| 0 <= k < s.len() && s[k] == y;
                    assert(rest[k - 1] == y);
                }
                let k = choose|k: int| 0 <= k < insert_by_name(rest, x).len() && insert_by_name(rest, x)[k] == y;
                assert(u[k + 1] == y);
            }
        }
    }
}

proof fn lemma_sort_by_name_keeps(s: Seq<TrainView>, y: TrainView)
    ensures
        s.contains(y) ==> sort_by_name(s).contains(y),
    decreases s.len(),
{
    if s.len() > 0 {
        let t = s.drop_last();
        lemma_sort_by_name_keeps(t, y);
        lemma_insert_by_name_keeps(sort_by_name(t), s.last(), y);
        if s.contains(y) && y != s.last() {
            let k = choose|k: int| 0 <= k < s.len() && s[k] == y;
            assert(t[k] == y);
        }
    }
}

/// Every real train of the instance is in the converted problem, named by
/// its id, with its initial routes unchanged.
pub proof fn lemma_real_trains_converted(p: &raw_problem::Problem, j: int)
    requires
        0 <= j < p.trains@.len(),
        !p.trains@[j].is_dummy,
    ensures
        exists|i: int|
            0 <= i < sort_by_name(converted_trains(p)).len() && (#[trigger] sort_by_name(converted_trains(p))[i]).name
                == p.trains@[j].id@ && sort_by_name(converted_trains(p))[i].initial_routes == p.trains@[j].initial_routes.deep_view(),
{
    let t = p.trains@[j];
    let f = p.trains@.filter(is_real());
    p.trains@.lemma_filter_contains(is_real(), j);
    let k = choose|k: int| 0 <= k < f.len() && f[k] == t;
    let cs = converted_trains(p);
    assert(cs[k] == converted_train(p, t));
    assert(cs.contains(cs[k]));
    lemma_sort_by_name_keeps(cs, cs[k]);
    let i = choose|i: int| 0 <= i < sort_by_name(cs).len() && sort_by_name(cs)[i] == cs[k];
    assert(sort_by_name(cs)[i].name == t.id@);
}

/// Sorting by name keeps the trains: it puts them in another order.
pub proof fn lemma_sort_by_name_members(s: Seq<TrainView>)
    ensures
        sort_by_name(s).len() == s.len(),
        forall|k: int|
            0 <= k < sort_by_name(s).len() ==> exists|j: int|
                0 <= j < s.len() && s[j] == #[trigger] sort_by_name(s)[k],
    decreases s.len(),
{
    if s.len() > 0 {
        let t = s.drop_last();
        lemma_sort_by_name_members(t);
        lemma_insert_by_name_members(sort_by_name(t), s.last());
        assert forall|k: int| 0 <= k < sort_by_name(s).len() implies exists|j: int|
            0 <= j < s.len() && s[j] == #[trigger] sort_by_name(s)[k] by {
            let y = sort_by_name(s)[k];
            if y == s.last() {
                assert(s[s.len() - 1] == y);
            } else {
                let j1 = choose|j: int| 0 <= j < sort_by_name(t).len() && sort_by_name(t)[j] == y;
                let j2 = choose|j: int| 0 <= j < t.len() && t[j] == sort_by_name(t)[j1];
                assert(s[j2] == y);
            }
        }
    }
}

} // verus!
