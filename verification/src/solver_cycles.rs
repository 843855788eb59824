//! The movement-graph deadlock check. Each train gets a graph whose nodes
//! are the routes it holds at once and whose edges are its moves; the
//! routes each node keeps from other trains are collected; and a
//! difference-logic instance asks for a path of moves per train, with
//! times, that orders every pair of conflicting nodes.
use vstd::prelude::*;
use crate::plan::{DeadlockResult, Plan};
use crate::problem::{find_route, index_of_key, lemma_index_of_key, Problem, Train, TrainRoute, TrainView, TrainRouteView};
use crate::seqs::{first_match, lemma_first_match, lemma_first_match_at};
use crate::state::{acyclic, contains_name, has_nexts, names_view, next_list, nexts_ok, the_rank, ranked};
use crate::text::str_eq;
use crate::diff_logic::{
    diff_extends, diff_holds, diff_meets, int_value, lemma_diff_extends_push, lemma_diff_extends_refl, lemma_diff_extends_trans,
    lemma_diff_meets_last, lemma_diff_meets_prefix, lit_value, neg, BLit, DiffCommandView, DiffInstance, DiffModel,
    bval, ival, same_below, refs_below, scoped, lemma_same_below_lit, lemma_same_below_int, lemma_same_below_meets,
    lemma_same_below_trans, lemma_same_below_weaken, lemma_diff_meets_push, lemma_scoped_push, lemma_clause_holds, lemma_with_bool, with_bool,
};

verus! {

/// The next routes of route `n` of a train (empty where it has none).
pub open spec fn nexts_of(tr: TrainView, n: Seq<char>) -> Seq<Seq<char>> {
    match tr.route(n) {
        Some(d) => match d.next_routes {
            Some(ns) => ns,
            None => Seq::empty(),
        },
        None => Seq::empty(),
    }
}

/// Whether route `n` of a train leads to one of its initial routes.
pub open spec fn leads_into_start(tr: TrainView, n: Seq<char>) -> bool {
    exists|j: int| 0 <= j < nexts_of(tr, n).len() && tr.initial_routes.contains(#[trigger] nexts_of(tr, n)[j])
}

/// The test "the route leads to no initial route".
pub open spec fn is_front(tr: TrainView) -> spec_fn(Seq<char>) -> bool {
    |n: Seq<char>| !leads_into_start(tr, n)
}

/// The test "the route leads to `x`".
pub open spec fn leads_directly(tr: TrainView, x: Seq<char>) -> spec_fn(Seq<char>) -> bool {
    |n: Seq<char>| nexts_of(tr, n).contains(x)
}

/// The initial routes of a train from its front backwards, `k` of them:
/// first the initial route that leads to no other, then each time the first
/// initial route (in the train's order) that leads to the one before.
pub open spec fn back_chain(tr: TrainView, k: nat) -> Seq<Seq<char>>
    decreases k,
{
    if k == 0 {
        Seq::empty()
    } else if k == 1 {
        seq![tr.initial_routes[first_match(tr.initial_routes, is_front(tr))->0]]
    } else {
        let c = back_chain(tr, (k - 1) as nat);
        c.push(tr.initial_routes[first_match(tr.initial_routes, leads_directly(tr, c.last()))->0])
    }
}

/// The initial routes of a train can be ordered: each is a route of the
/// train with next routes, exactly one of them leads to no other initial
/// route, and going backwards from it an initial route leading to the one
/// before can always be found.
pub open spec fn initial_chain_ok(tr: TrainView) -> bool {
    &&& forall|i: int|
        0 <= i < tr.initial_routes.len() ==> (#[trigger] tr.route(tr.initial_routes[i])) is Some && tr.route(
            tr.initial_routes[i],
        )->0.next_routes is Some
    &&& exists|i: int|
        0 <= i < tr.initial_routes.len() && !leads_into_start(tr, #[trigger] tr.initial_routes[i]) && forall|j: int|
            0 <= j < tr.initial_routes.len() && j != i ==> leads_into_start(tr, tr.initial_routes[j])
    &&& forall|k: nat|
        1 <= k < tr.initial_routes.len() ==> first_match(
            tr.initial_routes,
            leads_directly(tr, (#[trigger] back_chain(tr, k)).last()),
        ) is Some
}

/// Whether `n` is the name of one of `v`.
fn contains_ref(v: &Vec<String>, n: &str) -> (res: bool)
    ensures
        res == v.deep_view().contains(n@),
{
    let res = contains_name(v, n);
    proof {
        if res {
            let i = choose|i: int| 0 <= i < v@.len() && v@[i]@ == n@;
            assert(v.deep_view()[i] == n@);
        }
        if v.deep_view().contains(n@) {
            let i = choose|i: int| 0 <= i < v.deep_view().len() && v.deep_view()[i] == n@;
            assert(v@[i]@ == n@);
        }
    }
    res
}

/// The next routes of route `n` of a train.
fn train_nexts<'a>(train: &'a Train, n: &str) -> (res: Option<&'a Vec<String>>)
    ensures
        match res {
            Some(v) => train@.route(n@) matches Some(d) && d.next_routes == Some(v.deep_view()),
            None => !(train@.route(n@) matches Some(d) && d.next_routes is Some),
        },
        nexts_of(train@, n@) == match res {
            Some(v) => v.deep_view(),
            None => Seq::empty(),
        },
{
    match find_route(&train.routes, n) {
        Some(k) => {
            proof {
                lemma_index_of_key(crate::problem::entries_view(train.routes@), n@);
            }
            match &train.routes[k].1.next_routes {
                Some(v) => Some(v),
                None => None,
            }
        },
        None => None,
    }
}

/// Whether route `n` of a train leads to one of its initial routes.
fn leads_into_start_exec(train: &Train, n: &str) -> (res: bool)
    ensures
        res == leads_into_start(train@, n@),
{
    assert(train@.initial_routes == train.initial_routes.deep_view());
    match train_nexts(train, n) {
        Some(v) => {
            let mut j: usize = 0;
            while j < v.len()
                invariant
                    j <= v.len(),
                    nexts_of(train@, n@) == v.deep_view(),
                    train@.initial_routes == train.initial_routes.deep_view(),
                    forall|jj: int| 0 <= jj < j ==> !train@.initial_routes.contains(#[trigger] nexts_of(train@, n@)[jj]),
                decreases v.len() - j,
            {
                assert(nexts_of(train@, n@)[j as int] == v@[j as int]@);
                if contains_ref(&train.initial_routes, v[j].as_str()) {
                    return true;
                }
                j += 1;
            }
            false
        },
        None => false,
    }
}

/// The initial routes of a train ordered from its rear to its front: the
/// front is the one initial route that leads to no other, and each route
/// before it is the first initial route that leads to the one after.
pub fn sorted_initial_routes<'a>(train: &'a Train) -> (rs: Vec<&'a String>)
    requires
        initial_chain_ok(train@),
    ensures
        rs@.map_values(|r: &String| r@) == back_chain(train@, train@.initial_routes.len()).reverse(),
{
    let ghost tr = train@;
    let ghost iv = tr.initial_routes;
    assert(iv == train.initial_routes.deep_view());
    let n = train.initial_routes.len();
    proof {
        lemma_first_match(iv, is_front(tr));
        let w = choose|i: int|
            0 <= i < iv.len() && !leads_into_start(tr, #[trigger] iv[i]) && forall|j: int|
                0 <= j < iv.len() && j != i ==> leads_into_start(tr, iv[j]);
        assert(is_front(tr)(iv[w]));
        lemma_first_match(iv, is_front(tr));
    }
    let mut i: usize = 0;
    while i < n
        invariant
            i <= n,
            n == iv.len(),
            tr == train@,
            iv == tr.initial_routes,
            iv == train.initial_routes.deep_view(),
            first_match(iv, is_front(tr)) is Some,
            first_match(iv, is_front(tr)) matches Some(w) ==> i <= w < n && is_front(tr)(iv[w]),
        ensures
            i < n,
            first_match(iv, is_front(tr)) == Some(i as int),
        decreases n - i,
    {
        assert(iv[i as int] == train.initial_routes@[i as int]@);
        if !leads_into_start_exec(train, train.initial_routes[i].as_str()) {
            proof {
                lemma_first_match(iv, is_front(tr));
            }
            break;
        }
        i += 1;
    }
    let mut rs: Vec<&'a String> = Vec::new();
    rs.push(&train.initial_routes[i]);
    assert(rs@.map_values(|r: &String| r@) =~= back_chain(tr, 1));
    while rs.len() < n
        invariant
            1 <= rs@.len() <= n,
            n == iv.len(),
            tr == train@,
            iv == tr.initial_routes,
            iv == train.initial_routes.deep_view(),
            initial_chain_ok(tr),
            rs@.map_values(|r: &String| r@) == back_chain(tr, rs@.len() as nat),
        decreases n - rs.len(),
    {
        let ghost c = back_chain(tr, rs@.len() as nat);
        assert(c.len() == rs@.len());
        let last = rs[rs.len() - 1];
        assert(last@ == c.last());
        proof {
            assert(first_match(iv, leads_directly(tr, c.last())) is Some);
            lemma_first_match(iv, leads_directly(tr, c.last()));
        }
        let mut j: usize = 0;
        while j < n
            invariant
                j <= n,
                n == iv.len(),
                tr == train@,
                iv == tr.initial_routes,
                iv == train.initial_routes.deep_view(),
                c.len() >= 1,
                last@ == c.last(),
                first_match(iv, leads_directly(tr, c.last())) matches Some(w) ==> j <= w < n && leads_directly(tr, c.last())(iv[w]),
                first_match(iv, leads_directly(tr, c.last())) is Some,
            ensures
                j < n,
                first_match(iv, leads_directly(tr, c.last())) == Some(j as int),
            decreases n - j,
        {
            assert(iv[j as int] == train.initial_routes@[j as int]@);
            let found = match train_nexts(train, train.initial_routes[j].as_str()) {
                Some(v) => contains_ref(v, last.as_str()),
                None => false,
            };
            if found {
                proof {
                    lemma_first_match(iv, leads_directly(tr, c.last()));
                }
                break;
            }
            j += 1;
        }
        let ghost before = rs@;
        rs.push(&train.initial_routes[j]);
        proof {
            let k = before.len();
            assert(back_chain(tr, (k + 1) as nat) == c.push(iv[j as int]));
            assert(rs@.map_values(|r: &String| r@) =~= before.map_values(|r: &String| r@).push(iv[j as int]));
        }
    }
    let ghost fwd = rs@.map_values(|r: &String| r@);
    let mut out: Vec<&'a String> = Vec::new();
    let mut k: usize = rs.len();
    while k > 0
        invariant
            k <= rs@.len(),
            fwd == rs@.map_values(|r: &String| r@),
            out@.len() == rs@.len() - k,
            forall|i: int| 0 <= i < out@.len() ==> (#[trigger] out@[i])@ == fwd[rs@.len() - 1 - i],
        decreases k,
    {
        k -= 1;
        out.push(rs[k]);
    }
    assert(out@.map_values(|r: &String| r@) =~= fwd.reverse());
    out
}

/// A node of a movement graph: the routes a train holds, rear to front.
pub type NodeV = Seq<Seq<char>>;

/// A move: the node reached and the routes left behind.
pub type EdgeV = (NodeV, NodeV);

/// A movement graph: each node with its moves.
pub type GraphV = Seq<(NodeV, Seq<EdgeV>)>;

/// A movement graph as built: each node with its moves.
pub type Graph = Vec<(Vec<String>, Vec<(Vec<String>, Vec<String>)>)>;

/// The model of a move.
pub open spec fn edge_view(e: (Vec<String>, Vec<String>)) -> EdgeV {
    (names_view(e.0@), names_view(e.1@))
}

/// The model of a list of moves.
pub open spec fn edges_view(es: Seq<(Vec<String>, Vec<String>)>) -> Seq<EdgeV> {
    es.map_values(|e: (Vec<String>, Vec<String>)| edge_view(e))
}

/// The model of a movement graph.
pub open spec fn graph_view(g: Seq<(Vec<String>, Vec<(Vec<String>, Vec<String>)>)>) -> GraphV {
    g.map_values(|e: (Vec<String>, Vec<(Vec<String>, Vec<String>)>)| (names_view(e.0@), edges_view(e.1@)))
}

/// The data of route `r` of a train.
pub open spec fn rdata(tr: TrainView, r: Seq<char>) -> TrainRouteView {
    tr.route(r)->0
}

/// Going back from index `idx` of `s`, the index before which the routes
/// are no longer needed to cover `rem` of train length.
pub open spec fn split_from(tr: TrainView, s: NodeV, idx: int, rem: int) -> int
    decreases idx,
{
    if idx >= 1 && rem > 0 {
        let l = rdata(tr, s[idx - 1]).route_length as int;
        split_from(tr, s, idx - 1, if rem > l { rem - l } else { 0 })
    } else {
        idx
    }
}

/// Where the routes a train keeps begin, once it has entered `next` at the
/// end of `s`: the routes that cover its length, at least `next` itself.
pub open spec fn keep_from(tr: TrainView, s: NodeV, next: Seq<char>) -> int {
    let k = split_from(tr, s, s.len() as int, rdata(tr, next).train_length as int);
    if k < s.len() - 1 {
        k
    } else {
        s.len() - 1
    }
}

/// The move of a train in `node` into `next`.
pub open spec fn step_node(tr: TrainView, node: NodeV, next: Seq<char>) -> EdgeV {
    let s = node.push(next);
    let k = keep_from(tr, s, next);
    (s.subrange(k, s.len() as int), s.subrange(0, k))
}

/// The moves out of a node, one per next route of its front route, or a
/// single move out of the area (to the empty node) where it has none.
pub open spec fn raw_succs(tr: TrainView, node: NodeV) -> Seq<EdgeV> {
    match rdata(tr, node.last()).next_routes {
        Some(ns) => ns.map_values(|n: Seq<char>| step_node(tr, node, n)),
        None => seq![(Seq::<Seq<char>>::empty(), node)],
    }
}

/// The elements of `s`, each at its first place.
pub open spec fn dedup<A>(s: Seq<A>) -> Seq<A>
    decreases s.len(),
{
    if s.len() == 0 {
        s
    } else {
        let d = dedup(s.drop_last());
        if d.contains(s.last()) {
            d
        } else {
            d.push(s.last())
        }
    }
}

/// The moves out of a node, each once.
pub open spec fn succs(tr: TrainView, node: NodeV) -> Seq<EdgeV> {
    dedup(raw_succs(tr, node))
}

/// Each route of a node is a route of the train.
pub open spec fn node_ok(tr: TrainView, n: NodeV) -> bool {
    forall|i: int| 0 <= i < n.len() ==> (#[trigger] tr.route(n[i])) is Some
}

/// Whether `n` is a node of the graph.
pub open spec fn key_in(g: GraphV, n: NodeV) -> bool {
    exists|i: int| 0 <= i < g.len() && (#[trigger] g[i]).0 == n
}

/// Whether every move out of node `i` reaches a node of the graph.
pub open spec fn done(g: GraphV, i: int) -> bool {
    forall|j: int| 0 <= j < g[i].1.len() ==> key_in(g, (#[trigger] g[i].1[j]).0)
}

/// A graph under construction: distinct nodes made of routes of the
/// train, each non-empty node with its moves, the empty node with none.
pub open spec fn graph_wf(tr: TrainView, g: GraphV) -> bool {
    &&& forall|i: int, j: int| 0 <= i < j < g.len() ==> (#[trigger] g[i]).0 != (#[trigger] g[j]).0
    &&& forall|i: int| 0 <= i < g.len() ==> node_ok(tr, (#[trigger] g[i]).0)
    &&& forall|i: int| 0 <= i < g.len() && (#[trigger] g[i]).0.len() > 0 ==> g[i].1 == succs(tr, g[i].0)
    &&& forall|i: int| 0 <= i < g.len() && (#[trigger] g[i]).0.len() == 0 ==> g[i].1.len() == 0
}

/// The node a move of a train out of `node` reaches is made of its routes,
/// and is empty or ends in a next route of the front of `node`.
pub open spec fn targets_ok(tr: TrainView, node: NodeV, e: EdgeV) -> bool {
    &&& node_ok(tr, e.0)
    &&& e.0.len() > 0 ==> nexts_of(tr, node.last()).contains(e.0.last())
}

/// Whether two nodes name the same routes.
fn node_eq(a: &Vec<String>, b: &Vec<String>) -> (res: bool)
    ensures
        res == (names_view(a@) == names_view(b@)),
{
    if a.len() != b.len() {
        assert(names_view(a@).len() != names_view(b@).len());
        return false;
    }
    let mut i: usize = 0;
    while i < a.len()
        invariant
            i <= a.len(),
            a.len() == b.len(),
            forall|j: int| 0 <= j < i ==> a@[j]@ == b@[j]@,
        decreases a.len() - i,
    {
        if !str_eq(a[i].as_str(), b[i].as_str()) {
            assert(names_view(a@)[i as int] != names_view(b@)[i as int]);
            return false;
        }
        i += 1;
    }
    assert(names_view(a@) =~= names_view(b@));
    true
}

/// A copy of a list of names.
fn copy_names(v: &Vec<String>) -> (res: Vec<String>)
    ensures
        names_view(res@) == names_view(v@),
{
    let mut res: Vec<String> = Vec::new();
    let mut i: usize = 0;
    while i < v.len()
        invariant
            i <= v.len(),
            res@.len() == i,
            forall|j: int| 0 <= j < i ==> res@[j]@ == v@[j]@,
        decreases v.len() - i,
    {
        res.push(v[i].clone());
        i += 1;
    }
    assert(names_view(res@) =~= names_view(v@));
    res
}

/// The index of the node `n` in a graph, if it is there.
fn find_node(g: &Graph, n: &Vec<String>) -> (res: Option<usize>)
    ensures
        match res {
            Some(i) => i < g@.len() && graph_view(g@)[i as int].0 == names_view(n@),
            None => !key_in(graph_view(g@), names_view(n@)),
        },
{
    let ghost gv = graph_view(g@);
    let mut i: usize = 0;
    while i < g.len()
        invariant
            i <= g.len(),
            gv == graph_view(g@),
            forall|j: int| 0 <= j < i ==> (#[trigger] gv[j]).0 != names_view(n@),
        decreases g.len() - i,
    {
        assert(gv[i as int].0 == names_view(g@[i as int].0@));
        if node_eq(&g[i].0, n) {
            return Some(i);
        }
        i += 1;
    }
    None
}

/// The data of route `r` of a train, for one of its routes.
fn route_info<'a>(train: &'a Train, r: &str) -> (res: &'a TrainRoute)
    requires
        train@.route(r@) is Some,
    ensures
        res@ == rdata(train@, r@),
{
    let k = find_route(&train.routes, r).unwrap();
    proof {
        lemma_index_of_key(crate::problem::entries_view(train.routes@), r@);
    }
    &train.routes[k].1
}

/// The move of a train in `node` into `next`.
fn step_exec(train: &Train, node: &Vec<String>, next: &String) -> (res: (Vec<String>, Vec<String>))
    requires
        node_ok(train@, names_view(node@)),
        train@.route(next@) is Some,
    ensures
        edge_view(res) == step_node(train@, names_view(node@), next@),
        node_ok(train@, names_view(res.0@)),
        node_ok(train@, names_view(res.1@)),
        names_view(res.0@).len() >= 1,
        names_view(res.0@).last() == next@,
{
    let ghost tr = train@;
    let mut to_drop = copy_names(node);
    to_drop.push(next.clone());
    let ghost sv = names_view(to_drop@);
    assert(sv =~= names_view(node@).push(next@));
    assert(node_ok(tr, sv)) by {
        assert forall|i: int| 0 <= i < sv.len() implies (#[trigger] tr.route(sv[i])) is Some by {
            if i < node@.len() {
                assert(sv[i] == names_view(node@)[i]);
            }
        }
    }
    let len = to_drop.len();
    let mut split_idx: usize = len;
    let mut remaining: u64 = route_info(train, next.as_str()).train_length;
    assert(split_from(tr, sv, len as int, remaining as int) == split_from(tr, sv, sv.len() as int, rdata(tr, next@).train_length as int));
    while split_idx >= 1 && remaining > 0
        invariant
            split_idx <= len,
            len == to_drop@.len(),
            sv == names_view(to_drop@),
            node_ok(tr, sv),
            tr == train@,
            split_from(tr, sv, split_idx as int, remaining as int) == split_from(tr, sv, sv.len() as int, rdata(tr, next@).train_length as int),
        decreases split_idx,
    {
        split_idx -= 1;
        assert(sv[split_idx as int] == to_drop@[split_idx as int]@);
        assert(tr.route(sv[split_idx as int]) is Some);
        let l = route_info(train, to_drop[split_idx].as_str()).route_length;
        remaining = remaining.saturating_sub(l);
    }
    let k = if split_idx < len - 1 { split_idx } else { len - 1 };
    assert(k == keep_from(tr, sv, next@));
    let mut kept: Vec<String> = Vec::new();
    let mut dropped: Vec<String> = Vec::new();
    let mut i: usize = 0;
    while i < len
        invariant
            i <= len,
            k < len,
            len == to_drop@.len(),
            sv == names_view(to_drop@),
            i <= k ==> dropped@.len() == i && kept@.len() == 0,
            i > k ==> dropped@.len() == k && kept@.len() == i - k,
            forall|j: int| 0 <= j < dropped@.len() ==> (#[trigger] dropped@[j])@ == sv[j],
            forall|j: int| 0 <= j < kept@.len() ==> (#[trigger] kept@[j])@ == sv[k + j],
        decreases len - i,
    {
        if i < k {
            dropped.push(to_drop[i].clone());
        } else {
            kept.push(to_drop[i].clone());
        }
        i += 1;
    }
    assert(names_view(kept@) =~= sv.subrange(k as int, sv.len() as int));
    assert(names_view(dropped@) =~= sv.subrange(0, k as int));
    proof {
        assert forall|j: int| 0 <= j < names_view(kept@).len() implies (#[trigger] tr.route(names_view(kept@)[j])) is Some by {
            assert(names_view(kept@)[j] == sv[k + j]);
        }
        assert forall|j: int| 0 <= j < names_view(dropped@).len() implies (#[trigger] tr.route(names_view(dropped@)[j])) is Some by {
            assert(names_view(dropped@)[j] == sv[j]);
        }
    }
    (kept, dropped)
}

/// Whether two moves are the same.
fn edge_eq(a: &(Vec<String>, Vec<String>), b: &(Vec<String>, Vec<String>)) -> (res: bool)
    ensures
        res == (edge_view(*a) == edge_view(*b)),
{
    node_eq(&a.0, &b.0) && node_eq(&a.1, &b.1)
}

/// Adds a move to a list of moves unless it is there already.
fn push_edge(es: &mut Vec<(Vec<String>, Vec<String>)>, e: (Vec<String>, Vec<String>))
    ensures
        edges_view(final(es)@) == if edges_view(old(es)@).contains(edge_view(e)) {
            edges_view(old(es)@)
        } else {
            edges_view(old(es)@).push(edge_view(e))
        },
{
    let ghost before = edges_view(es@);
    let mut i: usize = 0;
    while i < es.len()
        invariant
            i <= es.len(),
            before == edges_view(es@),
            forall|j: int| 0 <= j < i ==> before[j] != edge_view(e),
        decreases es.len() - i,
    {
        if edge_eq(&es[i], &e) {
            assert(before[i as int] == edge_view(e));
            return;
        }
        i += 1;
    }
    let ghost ev = edge_view(e);
    es.push(e);
    assert(edges_view(es@) =~= before.push(ev));
}

/// The moves out of a non-empty node of a train, each once.
fn successors(train: &Train, node: &Vec<String>) -> (res: Vec<(Vec<String>, Vec<String>)>)
    requires
        node@.len() >= 1,
        node_ok(train@, names_view(node@)),
        forall|j: int|
            0 <= j < nexts_of(train@, names_view(node@).last()).len() ==> (#[trigger] train@.route(
                nexts_of(train@, names_view(node@).last())[j],
            )) is Some,
    ensures
        edges_view(res@) == succs(train@, names_view(node@)),
        forall|j: int| 0 <= j < res@.len() ==> targets_ok(train@, names_view(node@), #[trigger] edges_view(res@)[j]),
{
    let ghost tr = train@;
    let ghost nv = names_view(node@);
    let head = &node[node.len() - 1];
    assert(head@ == nv.last());
    assert(tr.route(nv[nv.len() - 1]) is Some);
    let info = route_info(train, head.as_str());
    let mut res: Vec<(Vec<String>, Vec<String>)> = Vec::new();
    match &info.next_routes {
        Some(nexts) => {
            let ghost raw = raw_succs(tr, nv);
            assert(nexts.deep_view() == rdata(tr, nv.last()).next_routes->0);
            assert(nexts_of(tr, nv.last()) == nexts.deep_view());
            let mut j: usize = 0;
            while j < nexts.len()
                invariant
                    j <= nexts.len(),
                    tr == train@,
                    nv == names_view(node@),
                    node_ok(tr, nv),
                    raw == raw_succs(tr, nv),
                    raw.len() == nexts.len(),
                    nexts_of(tr, nv.last()) == nexts.deep_view(),
                    forall|i: int| 0 <= i < raw.len() ==> raw[i] == step_node(tr, nv, nexts.deep_view()[i]),
                    forall|i: int|
                        0 <= i < nexts_of(tr, nv.last()).len() ==> (#[trigger] tr.route(nexts_of(tr, nv.last())[i])) is Some,
                    edges_view(res@) == dedup(raw.take(j as int)),
                    forall|i: int| 0 <= i < res@.len() ==> targets_ok(tr, nv, #[trigger] edges_view(res@)[i]),
                decreases nexts.len() - j,
            {
                let n = &nexts[j];
                assert(nexts.deep_view()[j as int] == n@);
                assert(tr.route(nexts_of(tr, nv.last())[j as int]) is Some);
                let e = step_exec(train, node, n);
                let ghost ev = edge_view(e);
                let ghost before = edges_view(res@);
                assert(raw.take(j + 1).drop_last() =~= raw.take(j as int));
                assert(raw.take(j + 1).last() == ev);
                push_edge(&mut res, e);
                proof {
                    assert(nexts_of(tr, nv.last())[j as int] == n@);
                    assert(targets_ok(tr, nv, ev));
                    assert forall|i: int| 0 <= i < res@.len() implies targets_ok(tr, nv, #[trigger] edges_view(res@)[i]) by {
                        if i < before.len() {
                            assert(edges_view(res@)[i] == before[i]);
                        } else {
                            assert(edges_view(res@).len() == res@.len());
                            assert(!before.contains(ev));
                            assert(edges_view(res@) == before.push(ev));
                            assert(edges_view(res@)[i] == ev);
                        }
                    }
                }
                j += 1;
            }
            assert(raw.take(nexts.len() as int) =~= raw);
        },
        None => {
            let e = (Vec::new(), copy_names(node));
            let ghost ev = edge_view(e);
            assert(ev.0 =~= Seq::<Seq<char>>::empty());
            assert(raw_succs(tr, nv) == seq![ev]);
            push_edge(&mut res, e);
            assert(seq![ev].drop_last() =~= Seq::<EdgeV>::empty());
            assert(dedup(Seq::<EdgeV>::empty()) =~= Seq::<EdgeV>::empty());
            assert(edges_view(res@) =~= seq![ev]);
            assert(targets_ok(tr, nv, ev));
        },
    }
    res
}

/// Whether `n` is reached by a move out of some node of the graph.
pub open spec fn is_target(g: GraphV, n: NodeV) -> bool {
    exists|k: int, j: int| 0 <= k < g.len() && 0 <= j < g[k].1.len() && (#[trigger] g[k].1[j]).0 == n
}

/// `g2` keeps the nodes of `g1`, each with its moves, and may add others.
pub open spec fn grows_from(g2: GraphV, g1: GraphV) -> bool {
    g1.len() <= g2.len() && forall|i: int| 0 <= i < g1.len() ==> #[trigger] g2[i] == g1[i]
}

proof fn lemma_grows(g1: GraphV, g2: GraphV)
    requires
        grows_from(g2, g1),
    ensures
        forall|x: NodeV| key_in(g1, x) ==> key_in(g2, x),
        forall|x: NodeV| is_target(g1, x) ==> is_target(g2, x),
        forall|i: int| 0 <= i < g1.len() && done(g1, i) ==> done(g2, i),
{
    assert forall|x: NodeV| key_in(g1, x) implies key_in(g2, x) by {
        let i = choose|i: int| 0 <= i < g1.len() && (#[trigger] g1[i]).0 == x;
        assert(g2[i] == g1[i]);
    }
    assert forall|x: NodeV| is_target(g1, x) implies is_target(g2, x) by {
        let (k, j) = choose|k: int, j: int| 0 <= k < g1.len() && 0 <= j < g1[k].1.len() && (#[trigger] g1[k].1[j]).0 == x;
        assert(g2[k] == g1[k]);
        assert(g2[k].1[j].0 == x);
    }
    assert forall|i: int| 0 <= i < g1.len() && done(g1, i) implies done(g2, i) by {
        assert(g2[i] == g1[i]);
        assert forall|j: int| 0 <= j < g2[i].1.len() implies key_in(g2, (#[trigger] g2[i].1[j]).0) by {
            assert(key_in(g1, g1[i].1[j].0));
        }
    }
}

/// The rank of the front route of a node of train `t`.
pub open spec fn front_rank(p: Seq<TrainView>, t: int, n: NodeV) -> nat {
    the_rank(p)(t, n.last())
}

/// Explores the moves out of `node` and the nodes they reach, adding them
/// to the graph.
fn explore(problem: &Problem, t: usize, node: Vec<String>, g: &mut Graph, Ghost(stack): Ghost<Set<NodeV>>, Ghost(bound): Ghost<nat>)
    requires
        front_rank(problem@, t as int, names_view(node@)) < bound,
        t < problem.trains.len(),
        acyclic(problem@),
        nexts_ok(problem@),
        node@.len() >= 1,
        node_ok(problem@[t as int], names_view(node@)),
        graph_wf(problem@[t as int], graph_view(old(g)@)),
        !key_in(graph_view(old(g)@), names_view(node@)),
        forall|x: NodeV| stack.contains(x) ==> key_in(graph_view(old(g)@), x),
        forall|i: int|
            0 <= i < old(g)@.len() ==> done(graph_view(old(g)@), i) || stack.contains(
                (#[trigger] graph_view(old(g)@)[i]).0,
            ),
    ensures
        graph_wf(problem@[t as int], graph_view(final(g)@)),
        key_in(graph_view(final(g)@), names_view(node@)),
        old(g)@.len() < final(g)@.len(),
        graph_view(final(g)@)[old(g)@.len() as int].0 == names_view(node@),
        grows_from(graph_view(final(g)@), graph_view(old(g)@)),
        forall|i: int|
            0 <= i < final(g)@.len() ==> done(graph_view(final(g)@), i) || stack.contains(
                (#[trigger] graph_view(final(g)@)[i]).0,
            ),
        forall|i: int|
            old(g)@.len() <= i < final(g)@.len() ==> (#[trigger] graph_view(final(g)@)[i]).0 == names_view(node@)
                || is_target(graph_view(final(g)@), graph_view(final(g)@)[i].0),
    decreases bound,
{
    let ghost p = problem@;
    let ghost tr = p[t as int];
    let ghost nv = names_view(node@);
    let ghost g0 = graph_view(g@);
    let train = &problem.trains[t];
    assert(tr == train@);
    proof {
        assert(tr.route(nv[nv.len() - 1]) is Some);
        assert forall|j: int| 0 <= j < nexts_of(tr, nv.last()).len() implies (#[trigger] tr.route(
            nexts_of(tr, nv.last())[j],
        )) is Some by {
            assert(has_nexts(p, t as int, nv.last()));
            assert(next_list(p, t as int, nv.last()) == nexts_of(tr, nv.last()));
        }
    }
    let edges = successors(train, &node);
    let ghost ev = edges_view(edges@);
    g.push((node, edges));
    let idx = g.len() - 1;
    let ghost stack2 = stack.insert(nv);
    proof {
        let g1 = graph_view(g@);
        assert(g1 =~= g0.push((nv, ev)));
        assert(grows_from(g1, g0));
        lemma_grows(g0, g1);
        assert(g1[idx as int] == (nv, ev));
        assert(key_in(g1, nv));
    }
    let mut j: usize = 0;
    while j < g[idx].1.len()
        invariant
            t < problem.trains.len(),
            p == problem@,
            tr == p[t as int],
            acyclic(p),
            nexts_ok(p),
            idx == g0.len(),
            idx < g@.len(),
            front_rank(p, t as int, nv) < bound,
            graph_view(g@)[idx as int] == (nv, ev),
            grows_from(graph_view(g@), g0),
            graph_wf(tr, graph_view(g@)),
            nv.len() >= 1,
            node_ok(tr, nv),
            ev == succs(tr, nv),
            forall|k: int| 0 <= k < ev.len() ==> targets_ok(tr, nv, #[trigger] ev[k]),
            forall|x: NodeV| stack2.contains(x) ==> key_in(graph_view(g@), x),
            stack2 == stack.insert(nv),
            forall|jj: int| 0 <= jj < j ==> key_in(graph_view(g@), (#[trigger] ev[jj]).0),
            forall|i: int|
                0 <= i < g@.len() ==> done(graph_view(g@), i) || stack2.contains((#[trigger] graph_view(g@)[i]).0),
            forall|i: int|
                idx <= i < g@.len() ==> (#[trigger] graph_view(g@)[i]).0 == nv || is_target(
                    graph_view(g@),
                    graph_view(g@)[i].0,
                ),
        decreases ev.len() - j,
    {
        let ghost gb = graph_view(g@);
        assert(g@[idx as int].1@.len() == ev.len());
        assert(edges_view(g@[idx as int].1@)[j as int] == ev[j as int]);
        let target = copy_names(&g[idx].1[j].0);
        let ghost tv = names_view(target@);
        assert(tv == ev[j as int].0);
        assert(is_target(gb, tv)) by {
            assert(gb[idx as int].1[j as int].0 == tv);
        }
        if target.len() == 0 {
            if find_node(g, &target).is_none() {
                g.push((target, Vec::new()));
                proof {
                    let g2 = graph_view(g@);
                    assert(g2.len() == gb.len() + 1);
                    assert forall|i: int| 0 <= i < gb.len() implies g2[i] == gb[i] by {}
                    assert(g2[gb.len() as int].0 == tv);
                    assert(g2[gb.len() as int].1 =~= Seq::<EdgeV>::empty());
                    assert(g2 =~= gb.push((tv, Seq::<EdgeV>::empty())));
                    lemma_grows(gb, g2);
                    assert(g2[gb.len() as int].0 == tv);
                    assert(done(g2, gb.len() as int));
                    assert forall|i: int| 0 <= i < g2.len() implies node_ok(tr, (#[trigger] g2[i]).0) by {
                        if i < gb.len() {
                            assert(g2[i] == gb[i]);
                        }
                    }
                }
            } else {
                proof {
                    assert(grows_from(gb, gb));
                }
            }
        } else if find_node(g, &target).is_none() {
            proof {
                assert(ev.contains(ev[j as int]));
                lemma_succ_rank(p, t as int, nv, ev[j as int]);
                assert(!stack2.contains(tv));
                assert(front_rank(problem@, t as int, names_view(target@)) < front_rank(problem@, t as int, nv));
            }
            explore(problem, t, target, g, Ghost(stack2), Ghost(front_rank(p, t as int, nv)));
            proof {
                lemma_grows(gb, graph_view(g@));
            }
        } else {
            proof {
                assert(grows_from(gb, gb));
            }
        }
        proof {
            let g2 = graph_view(g@);
            lemma_grows(gb, g2);
            assert(key_in(g2, tv));
            assert forall|jj: int| 0 <= jj < j + 1 implies key_in(g2, (#[trigger] ev[jj]).0) by {
                if jj < j {
                    assert(key_in(gb, ev[jj].0));
                }
            }
            assert(g2[idx as int] == gb[idx as int]);
            assert(grows_from(g2, g0));
            assert forall|i: int| 0 <= i < g2.len() implies done(g2, i) || stack2.contains((#[trigger] g2[i]).0) by {
                if i < gb.len() {
                    assert(g2[i] == gb[i]);
                    if done(gb, i) {
                        assert(done(g2, i));
                    }
                }
            }
            assert forall|i: int| idx <= i < g2.len() implies (#[trigger] g2[i]).0 == nv || is_target(g2, g2[i].0) by {
                if i < gb.len() {
                    assert(g2[i] == gb[i]);
                    if gb[i].0 != nv {
                        assert(is_target(gb, gb[i].0));
                    }
                }
            }
        }
        j += 1;
    }
    proof {
        let g2 = graph_view(g@);
        assert(done(g2, idx as int)) by {
            assert forall|k: int| 0 <= k < g2[idx as int].1.len() implies key_in(g2, (#[trigger] g2[idx as int].1[k]).0) by {
                assert(g2[idx as int].1[k] == ev[k]);
            }
        }
        assert forall|i: int| 0 <= i < g2.len() implies done(g2, i) || stack.contains((#[trigger] g2[i]).0) by {
            if !done(g2, i) {
                assert(stack2.contains(g2[i].0));
                if g2[i].0 == nv {
                    assert(i == idx);
                }
            }
        }
        assert forall|i: int| g0.len() <= i < g2.len() implies (#[trigger] g2[i]).0 == nv || is_target(g2, g2[i].0) by {
            if i > idx {
                assert(g2[i].0 == nv || is_target(g2, g2[i].0));
            }
        }
        assert(key_in(g2, nv)) by {
            assert(g2[idx as int].0 == nv);
        }
    }
}

proof fn lemma_dedup_members<A>(s: Seq<A>)
    ensures
        forall|x: A| dedup(s).contains(x) ==> s.contains(x),
        s.len() > 0 ==> dedup(s).len() > 0,
    decreases s.len(),
{
    if s.len() > 0 {
        let t = s.drop_last();
        lemma_dedup_members(t);
        assert forall|x: A| dedup(s).contains(x) implies s.contains(x) by {
            if dedup(t).contains(x) {
                assert(t.contains(x));
                let i = choose|i: int| 0 <= i < t.len() && t[i] == x;
                assert(s[i] == x);
            } else {
                assert(x == s.last());
                assert(s[s.len() - 1] == x);
            }
        }
        if dedup(t).contains(s.last()) {
            assert(dedup(t).len() > 0);
        }
    }
}

proof fn lemma_dedup_keeps<A>(s: Seq<A>)
    ensures
        forall|x: A| s.contains(x) ==> #[trigger] dedup(s).contains(x),
    decreases s.len(),
{
    if s.len() > 0 {
        let t = s.drop_last();
        lemma_dedup_keeps(t);
        assert forall|x: A| s.contains(x) implies #[trigger] dedup(s).contains(x) by {
            let i = choose|i: int| 0 <= i < s.len() && s[i] == x;
            if i < t.len() {
                assert(t[i] == x);
                assert(dedup(t).contains(x));
                let k = choose|k: int| 0 <= k < dedup(t).len() && dedup(t)[k] == x;
                if !dedup(t).contains(s.last()) {
                    assert(dedup(s)[k] == x);
                }
            } else {
                if !dedup(t).contains(s.last()) {
                    assert(dedup(s)[dedup(t).len() as int] == x);
                }
            }
        }
    }
}

/// Every next route of the front route of a non-empty node gives a move
/// out of the node into a node that ends in that next route.
pub proof fn lemma_succs_cover_nexts(tr: TrainView, node: NodeV, n: Seq<char>)
    requires
        node.len() > 0,
        nexts_of(tr, node.last()).contains(n),
    ensures
        exists|j: int|
            0 <= j < succs(tr, node).len() && (#[trigger] succs(tr, node)[j]).0.len() > 0 && succs(tr, node)[j].0.last() == n,
{
    let ns = nexts_of(tr, node.last());
    assert(tr.route(node.last()) is Some);
    assert(rdata(tr, node.last()).next_routes == Some(ns));
    let i = choose|i: int| 0 <= i < ns.len() && ns[i] == n;
    let raw = raw_succs(tr, node);
    assert(raw[i] == step_node(tr, node, n));
    lemma_step_last(tr, node, n);
    lemma_dedup_keeps(raw);
    assert(raw.contains(raw[i]));
    assert(succs(tr, node).contains(raw[i]));
    let j = choose|j: int| 0 <= j < succs(tr, node).len() && succs(tr, node)[j] == raw[i];
    assert(succs(tr, node)[j].0.last() == n);
}

/// Every move out of a non-empty node splits the node with the entered
/// route appended: the routes it releases, then the routes of the node it
/// reaches, which ends in a next route of the front (or is empty where the
/// front leads out of the area).
pub proof fn lemma_succs_split_node(tr: TrainView, node: NodeV, e: EdgeV)
    requires
        node.len() > 0,
        tr.route(node.last()) is Some,
        succs(tr, node).contains(e),
    ensures
        e.0.len() > 0 ==> nexts_of(tr, node.last()).contains(e.0.last()) && e.1 + e.0 == node.push(e.0.last()),
        e.0.len() == 0 ==> nexts_of(tr, node.last()).len() == 0 && e.1 == node,
{
    let raw = raw_succs(tr, node);
    lemma_dedup_members(raw);
    assert(raw.contains(e));
    let i = choose|i: int| 0 <= i < raw.len() && raw[i] == e;
    match rdata(tr, node.last()).next_routes {
        Some(ns) => {
            let n = ns[i];
            assert(e == step_node(tr, node, n));
            lemma_step_last(tr, node, n);
            let sq = node.push(n);
            lemma_split_range(tr, sq, sq.len() as int, rdata(tr, n).train_length as int);
            assert(e.1 + e.0 =~= sq);
            assert(nexts_of(tr, node.last()) == ns);
            assert(ns[i] == n);
        },
        None => {
            assert(e == (Seq::<Seq<char>>::empty(), node));
        },
    }
}

/// In a train's movement graph, a non-empty node has a move into each next
/// route of its front route.
pub proof fn lemma_graph_moves_cover_nexts(tr: TrainView, g: GraphV, i: int, n: Seq<char>)
    requires
        graph_wf(tr, g),
        0 <= i < g.len(),
        g[i].0.len() > 0,
        nexts_of(tr, g[i].0.last()).contains(n),
    ensures
        exists|j: int| 0 <= j < g[i].1.len() && (#[trigger] g[i].1[j]).0.len() > 0 && g[i].1[j].0.last() == n,
{
    lemma_succs_cover_nexts(tr, g[i].0, n);
    assert(g[i].1 == succs(tr, g[i].0));
}

/// A train standing in a non-empty node keeps other trains out of the
/// node's front route and of that route's unconditional conflicts; once its
/// length reaches past the part of the front route without switch, also out
/// of the front route's allocation conflicts.
pub proof fn lemma_blocked_routes_front(tr: TrainView, node: NodeV)
    requires
        node.len() > 0,
    ensures
        blocked_routes(tr, node).contains(node.last()),
        forall|c: Seq<char>|
            rdata(tr, node.last()).unconditional_conflicts.contains(c) ==> #[trigger] blocked_routes(tr, node).contains(c),
        rdata(tr, node.last()).train_length > rdata(tr, node.last()).route_length - rdata(tr, node.last()).switch_length
            ==> forall|c: Seq<char>|
            rdata(tr, node.last()).allocation_conflicts.contains(c) ==> #[trigger] blocked_routes(tr, node).contains(c),
        rdata(tr, node.last()).train_length <= rdata(tr, node.last()).route_length - rdata(tr, node.last()).switch_length
            ==> blocked_routes(tr, node) == rdata(tr, node.last()).unconditional_conflicts.push(node.last()),
        node.len() >= 2 && rdata(tr, node.last()).switch_length <= rdata(tr, node.last()).route_length && rdata(
            tr,
            node.last(),
        ).train_length > rdata(tr, node.last()).route_length ==> forall|c: Seq<char>|
            rdata(tr, node[node.len() - 2]).unconditional_conflicts.contains(c) ==> #[trigger] blocked_routes(tr, node).contains(c),
{
    let d = rdata(tr, node.last());
    assert(node[node.len() - 1] == node.last());
    let a = d.unconditional_conflicts.push(node.last());
    let rem = d.train_length as int;
    let b = blocked_routes(tr, node);
    assert(b == blocked_from(tr, node, node.len() as int, rem));
    let plain = d.route_length - d.switch_length;
    let rem1 = if rem > plain { rem - plain } else { 0 };
    let c = a + d.allocation_conflicts;
    let rem2 = if rem1 > d.switch_length { rem1 - d.switch_length } else { 0 };
    let pre = if rem1 == 0 { a } else { c };
    assert(b.subrange(0, pre.len() as int) =~= pre) by {
        if rem1 != 0 && rem2 != 0 {
            assert(b == c + blocked_from(tr, node, node.len() - 1, rem2));
        }
    }
    assert forall|x: Seq<char>| #[trigger] pre.contains(x) implies b.contains(x) by {
        let k = choose|k: int| 0 <= k < pre.len() && pre[k] == x;
        assert(b.subrange(0, pre.len() as int)[k] == x);
        assert(b[k] == x);
    }
    assert(a[a.len() - 1] == node.last());
    assert(pre[a.len() - 1] == node.last());
    assert forall|x: Seq<char>| d.unconditional_conflicts.contains(x) implies #[trigger] b.contains(x) by {
        let k = choose|k: int| 0 <= k < d.unconditional_conflicts.len() && d.unconditional_conflicts[k] == x;
        assert(pre[k] == x);
    }
    if d.train_length > plain {
        assert forall|x: Seq<char>| d.allocation_conflicts.contains(x) implies #[trigger] b.contains(x) by {
            let k = choose|k: int| 0 <= k < d.allocation_conflicts.len() && d.allocation_conflicts[k] == x;
            assert(c[a.len() + k] == x);
        }
    }
    if node.len() >= 2 && d.switch_length <= d.route_length && d.train_length > d.route_length {
        let rest = blocked_from(tr, node, node.len() - 1, rem2);
        assert(b == c + rest);
        let d2 = rdata(tr, node[node.len() - 2]);
        let a2 = d2.unconditional_conflicts.push(node.last());
        let plain2 = d2.route_length - d2.switch_length;
        let r1 = if rem2 > plain2 { rem2 - plain2 } else { 0 };
        let c2 = a2 + d2.allocation_conflicts;
        let r2 = if r1 > d2.switch_length { r1 - d2.switch_length } else { 0 };
        assert(rest.subrange(0, a2.len() as int) =~= a2) by {
            if r1 != 0 {
                if r2 != 0 {
                    assert(rest == c2 + blocked_from(tr, node, node.len() - 2, r2));
                } else {
                    assert(rest == c2);
                }
            }
        }
        assert forall|x: Seq<char>| d2.unconditional_conflicts.contains(x) implies #[trigger] b.contains(x) by {
            let k = choose|k: int| 0 <= k < d2.unconditional_conflicts.len() && d2.unconditional_conflicts[k] == x;
            assert(a2[k] == x);
            assert(rest.subrange(0, a2.len() as int)[k] == x);
            assert(b[c.len() + k] == x);
        }
    }
}

/// The block map of the movement-graph check lists a train's node under
/// every allocation conflict of the node's front route once the train
/// reaches past that route's part without switch.
pub proof fn lemma_block_map_allocation(p: Seq<TrainView>, gs: Seq<GraphV>, bm: BlockMapV, t: usize, n: NodeV, c: Seq<char>)
    requires
        bmap_exact(p, gs, bm),
        t < gs.len(),
        key_in(gs[t as int], n),
        n.len() > 0,
        rdata(p[t as int], n.last()).allocation_conflicts.contains(c),
        rdata(p[t as int], n.last()).train_length > rdata(p[t as int], n.last()).route_length - rdata(
            p[t as int],
            n.last(),
        ).switch_length,
    ensures
        listed(bm, c, t, n),
{
    lemma_blocked_routes_front(p[t as int], n);
    assert(blocked_routes(p[t as int], n).contains(c));
    assert(blocks(p, gs, c, t as int, n));
}

proof fn lemma_split_range(tr: TrainView, s: NodeV, idx: int, rem: int)
    requires
        0 <= idx,
    ensures
        0 <= split_from(tr, s, idx, rem) <= idx,
    decreases idx,
{
    if idx >= 1 && rem > 0 {
        let l = rdata(tr, s[idx - 1]).route_length as int;
        lemma_split_range(tr, s, idx - 1, if rem > l { rem - l } else { 0 });
    }
}

/// The node a move into `next` reaches ends in `next`.
proof fn lemma_step_last(tr: TrainView, node: NodeV, next: Seq<char>)
    ensures
        step_node(tr, node, next).0.len() >= 1,
        step_node(tr, node, next).0.last() == next,
{
    let s = node.push(next);
    lemma_split_range(tr, s, s.len() as int, rdata(tr, next).train_length as int);
    let k = keep_from(tr, s, next);
    assert(0 <= k <= s.len() - 1);
    let e = s.subrange(k, s.len() as int);
    assert(e.last() == s[s.len() - 1]);
}

/// A move out of a node of train `t` into a non-empty node goes to a route
/// of lower rank.
pub proof fn lemma_succ_rank(p: Seq<TrainView>, t: int, nv: NodeV, e: EdgeV)
    requires
        0 <= t < p.len(),
        acyclic(p),
        nv.len() >= 1,
        node_ok(p[t], nv),
        succs(p[t], nv).contains(e),
        e.0.len() > 0,
    ensures
        front_rank(p, t, e.0) < front_rank(p, t, nv),
{
    let tr = p[t];
    let raw = raw_succs(tr, nv);
    lemma_dedup_members(raw);
    assert(raw.contains(e));
    let i = choose|i: int| 0 <= i < raw.len() && raw[i] == e;
    assert(tr.route(nv[nv.len() - 1]) is Some);
    match rdata(tr, nv.last()).next_routes {
        Some(ns) => {
            assert(raw[i] == step_node(tr, nv, ns[i]));
            lemma_step_last(tr, nv, ns[i]);
            assert(ranked(p, the_rank(p)));
            assert(p[t].route(nv.last())->0.next_routes->0[i] == ns[i]);
        },
        None => {
            assert(raw[i].0.len() == 0);
        },
    }
}

/// A non-empty node has a move.
proof fn lemma_succs_nonempty(p: Seq<TrainView>, t: int, nv: NodeV)
    requires
        0 <= t < p.len(),
        nexts_ok(p),
        nv.len() >= 1,
        node_ok(p[t], nv),
    ensures
        succs(p[t], nv).len() > 0,
{
    let tr = p[t];
    assert(tr.route(nv[nv.len() - 1]) is Some);
    lemma_dedup_members(raw_succs(tr, nv));
    if rdata(tr, nv.last()).next_routes is Some {
        assert(has_nexts(p, t, nv.last()));
        assert(next_list(p, t, nv.last()).len() > 0);
    }
}

/// Every node of a closed graph reaches, by moves, the empty node: the
/// graph has the empty node.
proof fn lemma_reaches_empty(p: Seq<TrainView>, t: int, g: GraphV, i: int)
    requires
        0 <= t < p.len(),
        acyclic(p),
        nexts_ok(p),
        graph_wf(p[t], g),
        forall|k: int| 0 <= k < g.len() ==> #[trigger] done(g, k),
        0 <= i < g.len(),
    ensures
        key_in(g, Seq::<Seq<char>>::empty()),
    decreases if g[i].0.len() > 0 { front_rank(p, t, g[i].0) + 1 } else { 0 },
{
    let tr = p[t];
    let nv = g[i].0;
    if nv.len() == 0 {
        assert(key_in(g, nv));
        assert(nv =~= Seq::<Seq<char>>::empty());
    } else {
        assert(done(g, i));
        assert(g[i].1 == succs(tr, nv));
        lemma_succs_nonempty(p, t, nv);
        let e = g[i].1[0];
        assert(key_in(g, g[i].1[0].0));
        let k = choose|k: int| 0 <= k < g.len() && (#[trigger] g[k]).0 == e.0;
        if e.0.len() > 0 {
            assert(succs(tr, nv)[0] == e);
            lemma_succ_rank(p, t, nv, e);
        }
        lemma_reaches_empty(p, t, g, k);
    }
}

/// The movement graph of train `t` from the node `init`: every node
/// reachable by moves, each with its moves; the first node is `init`, every
/// other node is reached by a move of some node, every move reaches a node
/// of the graph, and the graph has the empty node, which every train
/// reaches on leaving the area.
pub fn movement_graph(problem: &Problem, t: usize, init: &Vec<String>) -> (g: Graph)
    requires
        t < problem.trains.len(),
        acyclic(problem@),
        nexts_ok(problem@),
        init@.len() >= 1,
        node_ok(problem@[t as int], names_view(init@)),
    ensures
        graph_wf(problem@[t as int], graph_view(g@)),
        g@.len() >= 1,
        graph_view(g@)[0].0 == names_view(init@),
        forall|i: int| 0 <= i < g@.len() ==> #[trigger] done(graph_view(g@), i),
        forall|i: int| 1 <= i < g@.len() ==> is_target(graph_view(g@), (#[trigger] graph_view(g@)[i]).0),
        key_in(graph_view(g@), Seq::<Seq<char>>::empty()),
{
    let mut g: Graph = Vec::new();
    let start = copy_names(init);
    proof {
        assert(graph_view(g@) =~= Seq::<(NodeV, Seq<EdgeV>)>::empty());
    }
    explore(problem, t, start, &mut g, Ghost(Set::empty()), Ghost(front_rank(problem@, t as int, names_view(init@)) + 1));
    proof {
        let gv = graph_view(g@);
        assert(gv[0].0 == names_view(init@));
        assert forall|i: int| 1 <= i < g@.len() implies is_target(gv, (#[trigger] gv[i]).0) by {
            if gv[i].0 == names_view(init@) {
                assert(gv[i].0 == gv[0].0);
            }
        }
        lemma_reaches_empty(problem@, t as int, gv, 0);
    }
    g
}

/// The routes of a train have switches no longer than themselves.
pub open spec fn switch_ok(tr: TrainView) -> bool {
    forall|k: int|
        0 <= k < tr.routes.len() ==> (#[trigger] tr.routes[k]).1.switch_length <= tr.routes[k].1.route_length
}

/// Going back from index `i` of a node, with `rem` of train length still to
/// cover: the routes that a train in the node keeps other trains from
/// entering. Each route it covers blocks its unconditional conflicts and
/// the front route; a route covered beyond its switch also blocks its
/// allocation conflicts.
pub open spec fn blocked_from(tr: TrainView, node: NodeV, i: int, rem: int) -> Seq<Seq<char>>
    decreases i,
{
    if i <= 0 {
        Seq::empty()
    } else {
        let r = rdata(tr, node[i - 1]);
        let a = r.unconditional_conflicts.push(node.last());
        let plain = r.route_length - r.switch_length;
        let rem1 = if rem > plain { rem - plain } else { 0 };
        if rem1 == 0 {
            a
        } else {
            let b = a + r.allocation_conflicts;
            let rem2 = if rem1 > r.switch_length { rem1 - r.switch_length } else { 0 };
            if rem2 == 0 {
                b
            } else {
                b + blocked_from(tr, node, i - 1, rem2)
            }
        }
    }
}

/// The routes a train in a non-empty node keeps other trains from entering.
pub open spec fn blocked_routes(tr: TrainView, node: NodeV) -> Seq<Seq<char>> {
    blocked_from(tr, node, node.len() as int, rdata(tr, node.last()).train_length as int)
}

/// Appends copies of names to a list.
fn append_names(out: &mut Vec<String>, v: &Vec<String>)
    ensures
        names_view(final(out)@) == names_view(old(out)@) + v.deep_view(),
{
    let ghost before = names_view(out@);
    let mut i: usize = 0;
    while i < v.len()
        invariant
            i <= v.len(),
            names_view(out@) == before + v.deep_view().take(i as int),
        decreases v.len() - i,
    {
        let ghost o = names_view(out@);
        out.push(v[i].clone());
        assert(names_view(out@) =~= o.push(v@[i as int]@));
        assert(v.deep_view().take(i + 1) =~= v.deep_view().take(i as int).push(v@[i as int]@));
        assert(before + v.deep_view().take(i + 1) =~= (before + v.deep_view().take(i as int)).push(v@[i as int]@));
        i += 1;
    }
    assert(v.deep_view().take(v.len() as int) =~= v.deep_view());
}

/// Whether the initial routes of a train can be ordered from its back to
/// its front, as the movement-graph check needs (`initial_chain_ok`).
pub fn initial_chain_check(train: &Train) -> (res: bool)
    ensures
        res == initial_chain_ok(train@),
{
    let ghost tr = train@;
    let ghost iv = tr.initial_routes;
    assert(iv == train.initial_routes.deep_view());
    let n = train.initial_routes.len();
    let mut i: usize = 0;
    while i < n
        invariant
            i <= n,
            n == iv.len(),
            tr == train@,
            iv == tr.initial_routes,
            iv == train.initial_routes.deep_view(),
            forall|j: int| 0 <= j < i ==> (#[trigger] tr.route(iv[j])) is Some && tr.route(iv[j])->0.next_routes is Some,
        decreases n - i,
    {
        assert(iv[i as int] == train.initial_routes@[i as int]@);
        if train_nexts(train, train.initial_routes[i].as_str()).is_none() {
            assert(!(tr.route(iv[i as int]) is Some && tr.route(iv[i as int])->0.next_routes is Some));
            return false;
        }
        i += 1;
    }
    let mut fronts: usize = 0;
    let mut front: usize = 0;
    let mut i: usize = 0;
    while i < n
        invariant
            i <= n,
            n == iv.len(),
            tr == train@,
            iv == tr.initial_routes,
            iv == train.initial_routes.deep_view(),
            fronts <= 2,
            fronts == 0 ==> forall|j: int| 0 <= j < i ==> leads_into_start(tr, #[trigger] iv[j]),
            fronts == 1 ==> front < i && !leads_into_start(tr, iv[front as int]) && forall|j: int|
                0 <= j < i && j != front ==> leads_into_start(tr, #[trigger] iv[j]),
            fronts == 2 ==> exists|a: int, b: int|
                0 <= a < b < i && !leads_into_start(tr, #[trigger] iv[a]) && !leads_into_start(tr, #[trigger] iv[b]),
        decreases n - i,
    {
        assert(iv[i as int] == train.initial_routes@[i as int]@);
        if !leads_into_start_exec(train, train.initial_routes[i].as_str()) {
            if fronts == 0 {
                fronts = 1;
                front = i;
            } else if fronts == 1 {
                assert(!leads_into_start(tr, iv[front as int]) && !leads_into_start(tr, iv[i as int]));
                fronts = 2;
            }
        }
        i += 1;
    }
    if fronts != 1 {
        proof {
            if initial_chain_ok(tr) {
                let w = choose|w: int|
                    0 <= w < iv.len() && !leads_into_start(tr, #[trigger] iv[w]) && forall|j: int|
                        0 <= j < iv.len() && j != w ==> leads_into_start(tr, iv[j]);
                if fronts == 2 {
                    let (a, b) = choose|a: int, b: int|
                        0 <= a < b < n && !leads_into_start(tr, #[trigger] iv[a]) && !leads_into_start(tr, #[trigger] iv[b]);
                    assert(a == w || b == w);
                }
            }
        }
        return false;
    }
    proof {
        lemma_first_match(iv, is_front(tr));
        assert(is_front(tr)(iv[front as int]));
    }
    assert(first_match(iv, is_front(tr)) == Some(front as int));
    let mut rs: Vec<&String> = Vec::new();
    rs.push(&train.initial_routes[front]);
    assert(rs@.map_values(|r: &String| r@) =~= back_chain(tr, 1));
    while rs.len() < n
        invariant
            1 <= rs@.len() <= n,
            n == iv.len(),
            tr == train@,
            iv == tr.initial_routes,
            iv == train.initial_routes.deep_view(),
            rs@.map_values(|r: &String| r@) == back_chain(tr, rs@.len() as nat),
            forall|k: nat| 1 <= k < rs@.len() ==> first_match(iv, leads_directly(tr, (#[trigger] back_chain(tr, k)).last())) is Some,
        decreases n - rs.len(),
    {
        let ghost c = back_chain(tr, rs@.len() as nat);
        assert(c.len() == rs@.len());
        let last = rs[rs.len() - 1];
        assert(last@ == c.last());
        let mut j: usize = 0;
        while j < n
            invariant
                j <= n,
                n == iv.len(),
                tr == train@,
                iv == tr.initial_routes,
                iv == train.initial_routes.deep_view(),
                c.len() >= 1,
                last@ == c.last(),
                forall|jj: int| 0 <= jj < j ==> !leads_directly(tr, c.last())(#[trigger] iv[jj]),
            ensures
                j < n ==> leads_directly(tr, c.last())(iv[j as int]),
                j == n ==> forall|jj: int| 0 <= jj < n ==> !leads_directly(tr, c.last())(#[trigger] iv[jj]),
            decreases n - j,
        {
            assert(iv[j as int] == train.initial_routes@[j as int]@);
            let found = match train_nexts(train, train.initial_routes[j].as_str()) {
                Some(v) => contains_ref(v, last.as_str()),
                None => false,
            };
            if found {
                break;
            }
            j += 1;
        }
        proof {
            lemma_first_match(iv, leads_directly(tr, c.last()));
        }
        if j == n {
            assert(first_match(iv, leads_directly(tr, back_chain(tr, rs@.len() as nat).last())) is None);
            return false;
        }
        proof {
            lemma_first_match_at(iv, leads_directly(tr, c.last()), j as int);
        }
        let ghost before = rs@;
        rs.push(&train.initial_routes[j]);
        proof {
            let k = before.len();
            assert(first_match(iv, leads_directly(tr, c.last())) is Some);
            assert(back_chain(tr, (k + 1) as nat) == c.push(iv[j as int]));
            assert(rs@.map_values(|r: &String| r@) =~= before.map_values(|r: &String| r@).push(iv[j as int]));
        }
    }
    true
}

/// The initial node of a train: its initial routes from back to front.
fn initial_node(train: &Train) -> (init: Vec<String>)
    requires
        initial_chain_ok(train@),
    ensures
        names_view(init@) == init_node(train@),
        init@.len() >= 1,
        node_ok(train@, init_node(train@)),
{
    let rs = sorted_initial_routes(train);
    let mut init: Vec<String> = Vec::new();
    let mut k: usize = 0;
    while k < rs.len()
        invariant
            k <= rs@.len(),
            init@.len() == k,
            forall|j: int| 0 <= j < k ==> (#[trigger] init@[j])@ == rs@[j]@,
        decreases rs.len() - k,
    {
        init.push(rs[k].clone());
        k += 1;
    }
    let ghost tr = train@;
    proof {
        assert(names_view(init@) =~= rs@.map_values(|r: &String| r@));
        assert(names_view(init@) == init_node(tr));
        let n = tr.initial_routes.len();
        let w = choose|i: int|
            0 <= i < tr.initial_routes.len() && !leads_into_start(tr, #[trigger] tr.initial_routes[i]) && forall|j: int|
                0 <= j < tr.initial_routes.len() && j != i ==> leads_into_start(tr, tr.initial_routes[j]);
        lemma_back_chain_in(tr, n as nat);
        assert forall|i: int| 0 <= i < init_node(tr).len() implies (#[trigger] tr.route(init_node(tr)[i])) is Some by {
            assert(init_node(tr)[i] == back_chain(tr, n as nat)[n - 1 - i]);
            assert(tr.initial_routes.contains(back_chain(tr, n as nat)[n - 1 - i]));
            let j = choose|j: int| 0 <= j < tr.initial_routes.len() && tr.initial_routes[j] == back_chain(tr, n as nat)[n - 1 - i];
            assert(tr.route(tr.initial_routes[j]) is Some);
        }
        assert(init@.len() == names_view(init@).len());
    }
    init
}

/// Whether every route of the train has its switch within the route
/// (`switch_ok`).
pub fn switch_check(train: &Train) -> (res: bool)
    ensures
        res == switch_ok(train@),
{
    let ghost tr = train@;
    let mut k: usize = 0;
    while k < train.routes.len()
        invariant
            k <= train.routes@.len(),
            tr == train@,
            tr.routes.len() == train.routes@.len(),
            forall|j: int| 0 <= j < k ==> (#[trigger] tr.routes[j]).1.switch_length <= tr.routes[j].1.route_length,
        decreases train.routes.len() - k,
    {
        assert(tr.routes[k as int].1 == train.routes@[k as int].1@);
        if train.routes[k].1.switch_length > train.routes[k].1.route_length {
            return false;
        }
        k += 1;
    }
    true
}

/// Whether no train's initial node keeps another train from the front
/// route of its initial node: the trains do not start in conflict.
pub fn initial_nodes_clear(problem: &Problem) -> (res: bool)
    requires
        forall|t: int| 0 <= t < problem@.len() ==> initial_chain_ok(#[trigger] problem@[t]) && switch_ok(problem@[t]),
    ensures
        res == forall|t1: int, t2: int|
            0 <= t1 < problem@.len() && 0 <= t2 < problem@.len() && t1 != t2 ==> !(#[trigger] blocked_routes(
                problem@[t2],
                init_node(problem@[t2]),
            )).contains((#[trigger] init_node(problem@[t1])).last()),
{
    let ghost p = problem@;
    let mut fronts: Vec<String> = Vec::new();
    let mut blocked: Vec<Vec<String>> = Vec::new();
    let mut t: usize = 0;
    assert(p.len() == problem.trains.len());
    while t < problem.trains.len()
        invariant
            t <= problem.trains.len(),
            p == problem@,
            p.len() == problem.trains.len(),
            forall|u: int| 0 <= u < p.len() ==> initial_chain_ok(#[trigger] p[u]) && switch_ok(p[u]),
            fronts@.len() == t,
            blocked@.len() == t,
            forall|u: int| 0 <= u < t ==> (#[trigger] fronts@[u])@ == init_node(p[u]).last(),
            forall|u: int| 0 <= u < t ==> names_view((#[trigger] blocked@[u])@) == blocked_routes(p[u], init_node(p[u])),
        decreases problem.trains.len() - t,
    {
        let train = &problem.trains[t];
        assert(p[t as int] == train@);
        let init = initial_node(train);
        let b = blocked_routes_exec(train, &init);
        fronts.push(init[init.len() - 1].clone());
        blocked.push(b);
        proof {
            assert(names_view(init@)[init@.len() - 1] == init@[init@.len() - 1]@);
        }
        t += 1;
    }
    let mut t1: usize = 0;
    while t1 < fronts.len()
        invariant
            t1 <= fronts@.len(),
            p == problem@,
            fronts@.len() == p.len(),
            blocked@.len() == p.len(),
            forall|u: int| 0 <= u < p.len() ==> (#[trigger] fronts@[u])@ == init_node(p[u]).last(),
            forall|u: int| 0 <= u < p.len() ==> names_view((#[trigger] blocked@[u])@) == blocked_routes(p[u], init_node(p[u])),
            forall|a: int, b: int|
                0 <= a < t1 && 0 <= b < p.len() && a != b ==> !(#[trigger] blocked_routes(p[b], init_node(p[b]))).contains(
                    (#[trigger] init_node(p[a])).last(),
                ),
        decreases fronts.len() - t1,
    {
        let mut t2: usize = 0;
        while t2 < blocked.len()
            invariant
                t1 < fronts@.len(),
                t2 <= blocked@.len(),
                p == problem@,
                fronts@.len() == p.len(),
                blocked@.len() == p.len(),
                forall|u: int| 0 <= u < p.len() ==> (#[trigger] fronts@[u])@ == init_node(p[u]).last(),
                forall|u: int| 0 <= u < p.len() ==> names_view((#[trigger] blocked@[u])@) == blocked_routes(p[u], init_node(p[u])),
                forall|a: int, b: int|
                    0 <= a < t1 && 0 <= b < p.len() && a != b ==> !(#[trigger] blocked_routes(p[b], init_node(p[b]))).contains(
                        (#[trigger] init_node(p[a])).last(),
                    ),
                forall|b: int|
                    0 <= b < t2 && t1 != b ==> !(#[trigger] blocked_routes(p[b], init_node(p[b]))).contains(init_node(p[t1 as int]).last()),
            decreases blocked.len() - t2,
        {
            assert(names_view(blocked@[t2 as int]@) == blocked@[t2 as int].deep_view());
            if t1 != t2 && contains_ref(&blocked[t2], fronts[t1].as_str()) {
                assert(fronts@[t1 as int]@ == init_node(p[t1 as int]).last());
                return false;
            }
            t2 += 1;
        }
        t1 += 1;
    }
    true
}

/// The routes a train in a non-empty node keeps other trains from entering.
fn blocked_routes_exec(train: &Train, node: &Vec<String>) -> (res: Vec<String>)
    requires
        node@.len() >= 1,
        node_ok(train@, names_view(node@)),
        switch_ok(train@),
    ensures
        names_view(res@) == blocked_routes(train@, names_view(node@)),
{
    let ghost tr = train@;
    let ghost nv = names_view(node@);
    let entering = &node[node.len() - 1];
    assert(entering@ == nv.last());
    assert(tr.route(nv[nv.len() - 1]) is Some);
    let mut remaining: u64 = route_info(train, entering.as_str()).train_length;
    let mut res: Vec<String> = Vec::new();
    let mut i: usize = node.len();
    while i > 0
        invariant_except_break
            i <= node@.len(),
            remaining > 0 || i == node@.len(),
            blocked_routes(tr, nv) == names_view(res@) + blocked_from(tr, nv, i as int, remaining as int),
        invariant
            tr == train@,
            nv == names_view(node@),
            node_ok(tr, nv),
            switch_ok(tr),
            entering@ == nv.last(),
        ensures
            names_view(res@) == blocked_routes(tr, nv),
        decreases i,
    {
        let ghost pre = names_view(res@);
        let ghost rem0 = remaining as int;
        let name = &node[i - 1];
        assert(name@ == nv[i - 1]);
        assert(tr.route(nv[i - 1]) is Some);
        let info = route_info(train, name.as_str());
        proof {
            let k = index_of_key(tr.routes, nv[i - 1])->0;
            lemma_index_of_key(tr.routes, nv[i - 1]);
            assert(tr.routes[k].1.switch_length <= tr.routes[k].1.route_length);
        }
        append_names(&mut res, &info.unconditional_conflicts);
        let ghost mid = names_view(res@);
        res.push(entering.clone());
        assert(names_view(res@) =~= mid.push(entering@));
        let ghost a = info@.unconditional_conflicts.push(nv.last());
        assert(info@.unconditional_conflicts == info.unconditional_conflicts.deep_view());
        assert(names_view(res@) =~= pre + a);
        let plain = info.route_length - info.switch_length;
        remaining = remaining.saturating_sub(plain);
        if remaining == 0 {
            proof {
                assert(blocked_from(tr, nv, i as int, rem0) == a);
                assert(a + Seq::<Seq<char>>::empty() =~= a);
            }
            assert(names_view(res@) == blocked_routes(tr, nv));
            break;
        }
        append_names(&mut res, &info.allocation_conflicts);
        let ghost b = a + info@.allocation_conflicts;
        assert(names_view(res@) =~= pre + b);
        let ghost rem1 = remaining as int;
        remaining = remaining.saturating_sub(info.switch_length);
        if remaining == 0 {
            assert(blocked_from(tr, nv, i as int, rem0) == b);
            assert(names_view(res@) == blocked_routes(tr, nv));
            break;
        }
        proof {
            assert(blocked_from(tr, nv, i as int, rem0) == b + blocked_from(tr, nv, i - 1, remaining as int));
            assert(pre + (b + blocked_from(tr, nv, i - 1, remaining as int)) =~= (pre + b) + blocked_from(tr, nv, i - 1, remaining as int));
        }
        i -= 1;
    }
    proof {
        if i == 0 {
            assert(blocked_from(tr, nv, 0, remaining as int) =~= Seq::<Seq<char>>::empty());
        }
    }
    res
}

/// For each route, the trains and nodes that keep other trains from entering it.
pub type BlockMap = Vec<(String, Vec<(usize, Vec<String>)>)>;

/// The model of a [`BlockMap`].
pub type BlockMapV = Seq<(Seq<char>, Seq<(usize, NodeV)>)>;

/// The model of a (train, node) pair.
pub open spec fn pair_view(x: (usize, Vec<String>)) -> (usize, NodeV) {
    (x.0, names_view(x.1@))
}

/// The model of a list of (train, node) pairs.
pub open spec fn pairs_view(v: Seq<(usize, Vec<String>)>) -> Seq<(usize, NodeV)> {
    v.map_values(|x: (usize, Vec<String>)| pair_view(x))
}

/// The model of a block map.
pub open spec fn bmap_view(bm: Seq<(String, Vec<(usize, Vec<String>)>)>) -> BlockMapV {
    bm.map_values(|e: (String, Vec<(usize, Vec<String>)>)| (e.0@, pairs_view(e.1@)))
}

/// Whether the map lists train `t` in node `n` under route `r`.
pub open spec fn listed(bm: BlockMapV, r: Seq<char>, t: usize, n: NodeV) -> bool {
    exists|k: int| 0 <= k < bm.len() && (#[trigger] bm[k]).0 == r && bm[k].1.contains((t, n))
}

/// Each route occurs once in the map.
pub open spec fn bmap_wf(bm: BlockMapV) -> bool {
    forall|i: int, j: int| 0 <= i < j < bm.len() ==> (#[trigger] bm[i]).0 != (#[trigger] bm[j]).0
}

/// The models of the movement graphs of the trains.
pub open spec fn graphs_view(gs: Seq<Graph>) -> Seq<GraphV> {
    gs.map_values(|g: Graph| graph_view(g@))
}

/// Whether train `t` in node `n` of its graph keeps other trains from entering `r`.
pub open spec fn blocks(p: Seq<TrainView>, gs: Seq<GraphV>, r: Seq<char>, t: int, n: NodeV) -> bool {
    &&& 0 <= t < gs.len()
    &&& key_in(gs[t], n)
    &&& n.len() > 0
    &&& blocked_routes(p[t], n).contains(r)
}

/// Whether a pair is (t, n).
fn pair_eq(x: &(usize, Vec<String>), t: usize, n: &Vec<String>) -> (res: bool)
    ensures
        res == (x.0 == t && names_view(x.1@) == names_view(n@)),
{
    x.0 == t && node_eq(&x.1, n)
}

/// Lists train `t` in node `n` under route `r`.
fn add_block(bm: &mut BlockMap, r: &String, t: usize, n: &Vec<String>)
    requires
        bmap_wf(bmap_view(old(bm)@)),
    ensures
        bmap_wf(bmap_view(final(bm)@)),
        forall|r2: Seq<char>, t2: usize, n2: NodeV|
            #[trigger] listed(bmap_view(final(bm)@), r2, t2, n2) == (listed(bmap_view(old(bm)@), r2, t2, n2) || (r2 == r@
                && t2 == t && n2 == names_view(n@))),
{
    let ghost b0 = bmap_view(bm@);
    let ghost nv = names_view(n@);
    let mut k: usize = 0;
    while k < bm.len()
        invariant
            k <= bm.len(),
            b0 == bmap_view(bm@),
            b0 == bmap_view(old(bm)@),
            bmap_wf(b0),
            nv == names_view(n@),
            forall|j: int| 0 <= j < k ==> (#[trigger] b0[j]).0 != r@,
        decreases bm.len() - k,
    {
        assert(b0[k as int].0 == bm@[k as int].0@);
        if str_eq(bm[k].0.as_str(), r.as_str()) {
            let mut i: usize = 0;
            let mut found = false;
            while i < bm[k].1.len()
                invariant
                    k < bm.len(),
                    i <= bm@[k as int].1@.len(),
                    b0 == bmap_view(bm@),
                    nv == names_view(n@),
                    forall|j: int| 0 <= j < i ==> (#[trigger] b0[k as int].1[j]) != (t, nv),
                    found ==> b0[k as int].1.contains((t, nv)),
                ensures
                    found == b0[k as int].1.contains((t, nv)),
                decreases bm@[k as int].1@.len() - i,
            {
                assert(b0[k as int].1[i as int] == pair_view(bm@[k as int].1@[i as int]));
                assert(b0[k as int].1[i as int].0 == bm@[k as int].1@[i as int].0);
                assert(b0[k as int].1[i as int].1 == names_view(bm@[k as int].1@[i as int].1@));
                if pair_eq(&bm[k].1[i], t, n) {
                    found = true;
                    assert(b0[k as int].1[i as int] == (t, nv));
                    break;
                }
                i += 1;
            }
            if !found {
                let mut entry = bm.remove(k);
                let ghost e0 = pairs_view(entry.1@);
                let ghost l0 = entry.1@;
                let c = copy_names(n);
                entry.1.push((t, c));
                let ghost e1 = pairs_view(entry.1@);
                assert(entry.1@ == l0.push((t, c)));
                assert(pair_view((t, c)).1 == nv);
                assert(pair_view((t, c)) == (t, nv));
                assert(e1 =~= e0.push((t, nv)));
                bm.insert(k, entry);
                proof {
                    let b1 = bmap_view(bm@);
                    assert(b1.len() == b0.len());
                    assert forall|j: int| 0 <= j < b1.len() && j != k implies b1[j] == b0[j] by {}
                    assert(b1[k as int] == (r@, e1));
                    assert(bmap_wf(b1)) by {
                        assert forall|i: int, j: int| 0 <= i < j < b1.len() implies (#[trigger] b1[i]).0 != (#[trigger] b1[j]).0 by {
                            if i != k {
                                assert(b1[i] == b0[i]);
                            }
                            if j != k {
                                assert(b1[j] == b0[j]);
                            }
                            assert(b0[i].0 != b0[j].0);
                        }
                    }
                    assert forall|r2: Seq<char>, t2: usize, n2: NodeV|
                        #[trigger] listed(b1, r2, t2, n2) == (listed(b0, r2, t2, n2) || (r2 == r@ && t2 == t && n2 == nv)) by {
                        if listed(b1, r2, t2, n2) {
                            let j = choose|j: int| 0 <= j < b1.len() && (#[trigger] b1[j]).0 == r2 && b1[j].1.contains((t2, n2));
                            if j != k {
                                assert(b0[j] == b1[j]);
                            } else if !(r2 == r@ && t2 == t && n2 == nv) {
                                let w = choose|w: int| 0 <= w < e1.len() && e1[w] == (t2, n2);
                                assert(e0[w] == e1[w]);
                                assert(b0[k as int].1.contains((t2, n2)));
                            }
                        }
                        if listed(b0, r2, t2, n2) {
                            let j = choose|j: int| 0 <= j < b0.len() && (#[trigger] b0[j]).0 == r2 && b0[j].1.contains((t2, n2));
                            if j != k {
                                assert(b0[j] == b1[j]);
                            } else {
                                let w = choose|w: int| 0 <= w < e0.len() && e0[w] == (t2, n2);
                                assert(e1[w] == e0[w]);
                                assert(b1[k as int].1.contains((t2, n2)));
                            }
                        }
                        if r2 == r@ && t2 == t && n2 == nv {
                            assert(e1[e0.len() as int] == (t, nv));
                            assert(b1[k as int].1.contains((t2, n2)));
                        }
                    }
                }
            } else {
                proof {
                    assert forall|r2: Seq<char>, t2: usize, n2: NodeV|
                        #[trigger] listed(b0, r2, t2, n2) == (listed(b0, r2, t2, n2) || (r2 == r@ && t2 == t && n2 == nv)) by {
                        if r2 == r@ && t2 == t && n2 == nv {
                            assert(b0[k as int].0 == r2);
                        }
                    }
                }
            }
            return;
        }
        k += 1;
    }
    let mut pairs: Vec<(usize, Vec<String>)> = Vec::new();
    pairs.push((t, copy_names(n)));
    bm.push((r.clone(), pairs));
    proof {
        let b1 = bmap_view(bm@);
        assert(b1.len() == b0.len() + 1);
        assert forall|j: int| 0 <= j < b0.len() implies b1[j] == b0[j] by {}
        assert(b1[b0.len() as int].1 =~= seq![(t, nv)]);
        assert(b1[b0.len() as int].0 == r@);
        assert forall|r2: Seq<char>, t2: usize, n2: NodeV|
            #[trigger] listed(b1, r2, t2, n2) == (listed(b0, r2, t2, n2) || (r2 == r@ && t2 == t && n2 == nv)) by {
            if listed(b1, r2, t2, n2) {
                let j = choose|j: int| 0 <= j < b1.len() && (#[trigger] b1[j]).0 == r2 && b1[j].1.contains((t2, n2));
                if j < b0.len() {
                    assert(b0[j] == b1[j]);
                } else {
                    let w = choose|w: int| 0 <= w < b1[j].1.len() && b1[j].1[w] == (t2, n2);
                    assert(w == 0);
                }
            }
            if listed(b0, r2, t2, n2) {
                let j = choose|j: int| 0 <= j < b0.len() && (#[trigger] b0[j]).0 == r2 && b0[j].1.contains((t2, n2));
                assert(b1[j] == b0[j]);
            }
            if r2 == r@ && t2 == t && n2 == nv {
                assert(b1[b0.len() as int].1[0] == (t, nv));
                assert(b1[b0.len() as int].1.contains((t2, n2)));
            }
        }
    }
}

/// Lists train `t` in node `n` under each route the node blocks.
fn add_node_blocks(bm: &mut BlockMap, train: &Train, t: usize, n: &Vec<String>)
    requires
        bmap_wf(bmap_view(old(bm)@)),
        n@.len() >= 1,
        node_ok(train@, names_view(n@)),
        switch_ok(train@),
    ensures
        bmap_wf(bmap_view(final(bm)@)),
        forall|r2: Seq<char>, t2: usize, n2: NodeV|
            #[trigger] listed(bmap_view(final(bm)@), r2, t2, n2) == (listed(bmap_view(old(bm)@), r2, t2, n2) || (t2
                == t && n2 == names_view(n@) && blocked_routes(train@, n2).contains(r2))),
{
    let ghost b0 = bmap_view(bm@);
    let ghost nv = names_view(n@);
    let rs = blocked_routes_exec(train, n);
    let ghost rv = names_view(rs@);
    let mut i: usize = 0;
    while i < rs.len()
        invariant
            i <= rs.len(),
            rv == names_view(rs@),
            rv == blocked_routes(train@, nv),
            nv == names_view(n@),
            bmap_wf(bmap_view(bm@)),
            forall|r2: Seq<char>, t2: usize, n2: NodeV|
                #[trigger] listed(bmap_view(bm@), r2, t2, n2) == (listed(b0, r2, t2, n2) || (t2 == t && n2 == nv
                    && rv.take(i as int).contains(r2))),
        decreases rs.len() - i,
    {
        let ghost b1 = bmap_view(bm@);
        add_block(bm, &rs[i], t, n);
        proof {
            assert(rv[i as int] == rs@[i as int]@);
            assert forall|r2: Seq<char>, t2: usize, n2: NodeV|
                #[trigger] listed(bmap_view(bm@), r2, t2, n2) == (listed(b0, r2, t2, n2) || (t2 == t && n2 == nv
                    && rv.take(i + 1).contains(r2))) by {
                assert(listed(b1, r2, t2, n2) == (listed(b0, r2, t2, n2) || (t2 == t && n2 == nv && rv.take(i as int).contains(r2))));
                let t1 = rv.take(i + 1);
                let t0 = rv.take(i as int);
                if t1.contains(r2) {
                    let w = choose|w: int| 0 <= w < t1.len() && t1[w] == r2;
                    if w < i {
                        assert(t0[w] == r2);
                    }
                }
                if t0.contains(r2) {
                    let w = choose|w: int| 0 <= w < t0.len() && t0[w] == r2;
                    assert(t1[w] == r2);
                }
                if r2 == rv[i as int] {
                    assert(t1[i as int] == r2);
                }
            }
        }
        i += 1;
    }
    assert(rv.take(rs.len() as int) =~= rv);
}

/// Lists train `t` under the routes each non-empty node of its graph blocks.
fn add_graph_blocks(bm: &mut BlockMap, train: &Train, t: usize, g: &Graph)
    requires
        bmap_wf(bmap_view(old(bm)@)),
        graph_wf(train@, graph_view(g@)),
        switch_ok(train@),
    ensures
        bmap_wf(bmap_view(final(bm)@)),
        forall|r2: Seq<char>, t2: usize, n2: NodeV|
            #[trigger] listed(bmap_view(final(bm)@), r2, t2, n2) == (listed(bmap_view(old(bm)@), r2, t2, n2) || (t2
                == t && key_in(graph_view(g@), n2) && n2.len() > 0 && blocked_routes(train@, n2).contains(r2))),
{
    let ghost b0 = bmap_view(bm@);
    let ghost gv = graph_view(g@);
    let mut i: usize = 0;
    while i < g.len()
        invariant
            i <= g.len(),
            gv == graph_view(g@),
            graph_wf(train@, gv),
            switch_ok(train@),
            bmap_wf(bmap_view(bm@)),
            forall|r2: Seq<char>, t2: usize, n2: NodeV|
                #[trigger] listed(bmap_view(bm@), r2, t2, n2) == (listed(b0, r2, t2, n2) || (t2 == t && (exists|k: int|
                    0 <= k < i && (#[trigger] gv[k]).0 == n2) && n2.len() > 0 && blocked_routes(train@, n2).contains(r2))),
        decreases g.len() - i,
    {
        let ghost b1 = bmap_view(bm@);
        assert(gv[i as int].0 == names_view(g@[i as int].0@));
        if g[i].0.len() > 0 {
            assert(node_ok(train@, gv[i as int].0));
            add_node_blocks(bm, train, t, &g[i].0);
        }
        proof {
            assert forall|r2: Seq<char>, t2: usize, n2: NodeV|
                #[trigger] listed(bmap_view(bm@), r2, t2, n2) == (listed(b0, r2, t2, n2) || (t2 == t && (exists|k: int|
                    0 <= k < i + 1 && (#[trigger] gv[k]).0 == n2) && n2.len() > 0 && blocked_routes(train@, n2).contains(r2))) by {
                assert(listed(b1, r2, t2, n2) == (listed(b0, r2, t2, n2) || (t2 == t && (exists|k: int|
                    0 <= k < i && (#[trigger] gv[k]).0 == n2) && n2.len() > 0 && blocked_routes(train@, n2).contains(r2))));
                if exists|k: int| 0 <= k < i + 1 && (#[trigger] gv[k]).0 == n2 {
                    let k = choose|k: int| 0 <= k < i + 1 && (#[trigger] gv[k]).0 == n2;
                    if k < i {
                        assert(exists|k: int| 0 <= k < i && (#[trigger] gv[k]).0 == n2);
                    }
                }
                if n2 == gv[i as int].0 {
                    assert(exists|k: int| 0 <= k < i + 1 && (#[trigger] gv[k]).0 == n2);
                }
                if exists|k: int| 0 <= k < i && (#[trigger] gv[k]).0 == n2 {
                    let k = choose|k: int| 0 <= k < i && (#[trigger] gv[k]).0 == n2;
                    assert(exists|k: int| 0 <= k < i + 1 && (#[trigger] gv[k]).0 == n2);
                }
            }
        }
        i += 1;
    }
}

/// For each route, the trains and nodes of their movement graphs that keep
/// other trains from entering it.
pub fn build_block_map(problem: &Problem, graphs: &Vec<Graph>) -> (bm: BlockMap)
    requires
        graphs@.len() == problem@.len(),
        forall|t: int| 0 <= t < graphs@.len() ==> graph_wf(problem@[t], #[trigger] graphs_view(graphs@)[t]),
        forall|t: int| 0 <= t < problem@.len() ==> switch_ok(#[trigger] problem@[t]),
    ensures
        bmap_wf(bmap_view(bm@)),
        forall|r: Seq<char>, t: usize, n: NodeV|
            #[trigger] listed(bmap_view(bm@), r, t, n) == blocks(problem@, graphs_view(graphs@), r, t as int, n),
{
    let ghost gs = graphs_view(graphs@);
    let mut bm: BlockMap = Vec::new();
    let mut t: usize = 0;
    assert(problem@.len() == problem.trains.len());
    while t < graphs.len()
        invariant
            t <= graphs.len(),
            gs == graphs_view(graphs@),
            graphs@.len() == problem@.len(),
            problem@.len() == problem.trains.len(),
            forall|u: int| 0 <= u < graphs@.len() ==> graph_wf(problem@[u], #[trigger] gs[u]),
            forall|u: int| 0 <= u < problem@.len() ==> switch_ok(#[trigger] problem@[u]),
            bmap_wf(bmap_view(bm@)),
            forall|r: Seq<char>, u: usize, n: NodeV|
                #[trigger] listed(bmap_view(bm@), r, u, n) == (u < t && blocks(problem@, gs, r, u as int, n)),
        decreases graphs.len() - t,
    {
        let ghost b1 = bmap_view(bm@);
        assert(problem@[t as int] == problem.trains@[t as int]@);
        assert(gs[t as int] == graph_view(graphs@[t as int]@));
        assert(graph_wf(problem@[t as int], gs[t as int]));
        assert(switch_ok(problem@[t as int]));
        add_graph_blocks(&mut bm, &problem.trains[t], t, &graphs[t]);
        proof {
            assert forall|r: Seq<char>, u: usize, n: NodeV|
                #[trigger] listed(bmap_view(bm@), r, u, n) == (u < t + 1 && blocks(problem@, gs, r, u as int, n)) by {
                if u == t && key_in(gs[t as int], n) {
                    let k = choose|k: int| 0 <= k < gs[t as int].len() && (#[trigger] gs[t as int][k]).0 == n;
                    assert(gs[t as int] == graph_view(graphs@[t as int]@));
                }
            }
        }
        t += 1;
    }
    bm
}

/// The test "the entry is node `n`".
pub open spec fn node_named(n: NodeV) -> spec_fn((NodeV, Seq<EdgeV>)) -> bool {
    |e: (NodeV, Seq<EdgeV>)| e.0 == n
}

/// The moves out of node `n` of a graph (none for a node not in it).
pub open spec fn moves_of(g: GraphV, n: NodeV) -> Seq<EdgeV> {
    match first_match(g, node_named(n)) {
        Some(i) => g[i].1,
        None => Seq::empty(),
    }
}

/// A finished movement graph of train `t`: well formed, every move reaching
/// a node of the graph.
pub open spec fn closed_graph(p: Seq<TrainView>, t: int, g: GraphV) -> bool {
    &&& 0 <= t < p.len()
    &&& acyclic(p)
    &&& graph_wf(p[t], g)
    &&& forall|i: int| 0 <= i < g.len() ==> #[trigger] done(g, i)
}

/// The measure under which `frontier_from` recurs: the rank of a node's
/// front route, and the number of moves still to look at.
pub open spec fn node_measure(p: Seq<TrainView>, t: int, n: NodeV) -> nat {
    if n.len() > 0 {
        front_rank(p, t, n) + 1
    } else {
        0
    }
}

/// The measure of the moves still to look at.
pub open spec fn moves_measure(g: GraphV, n: NodeV, k: int) -> nat {
    if k < 0 {
        moves_of(g, n).len() + 1
    } else {
        k as nat
    }
}

/// With `k < 0`: the nodes a train `t` in node `n` reaches first, moving on
/// from `n`, where the pair (train, node) is not in `blk`: `n` itself if it
/// is not, else those of each node its moves reach. With `k >= 0`: those of
/// the first `k` moves out of `n`.
#[verifier::opaque]
pub open spec fn frontier_from(p: Seq<TrainView>, t: int, g: GraphV, blk: Seq<(usize, NodeV)>, n: NodeV, k: int) -> Set<NodeV>
    decreases node_measure(p, t, n), moves_measure(g, n, k),
    when closed_graph(p, t, g) && key_in(g, n) && (k >= 0 ==> k <= moves_of(g, n).len())
{
    if k < 0 {
        if !blk.contains((t as usize, n)) {
            set![n]
        } else {
            frontier_from(p, t, g, blk, n, moves_of(g, n).len() as int)
        }
    } else if k == 0 {
        Set::empty()
    } else {
        proof {
            lemma_moves_of(p, t, g, n);
            if moves_of(g, n)[k - 1].0.len() > 0 {
                assert(succs(p[t], n).contains(moves_of(g, n)[k - 1]));
                lemma_succ_rank(p, t, n, moves_of(g, n)[k - 1]);
            }
        }
        frontier_from(p, t, g, blk, n, k - 1).union(frontier_from(p, t, g, blk, moves_of(g, n)[k - 1].0, -1))
    }
}

/// The first nodes a train in node `n` reaches that are not in `blk`.
pub open spec fn frontier(p: Seq<TrainView>, t: int, g: GraphV, blk: Seq<(usize, NodeV)>, n: NodeV) -> Set<NodeV> {
    frontier_from(p, t, g, blk, n, -1)
}

/// The moves of a node of a finished graph are its successor moves, and
/// each reaches a node of the graph.
pub proof fn lemma_moves_of(p: Seq<TrainView>, t: int, g: GraphV, n: NodeV)
    requires
        closed_graph(p, t, g),
        key_in(g, n),
    ensures
        first_match(g, node_named(n)) matches Some(i) && 0 <= i < g.len() && g[i].0 == n,
        moves_of(g, n) == g[first_match(g, node_named(n))->0].1,
        n.len() > 0 ==> moves_of(g, n) == succs(p[t], n),
        n.len() > 0 ==> node_ok(p[t], n),
        n.len() == 0 ==> moves_of(g, n).len() == 0,
        forall|j: int| 0 <= j < moves_of(g, n).len() ==> key_in(g, (#[trigger] moves_of(g, n)[j]).0),
{
    lemma_first_match(g, node_named(n));
    let w = choose|i: int| 0 <= i < g.len() && (#[trigger] g[i]).0 == n;
    assert(node_named(n)(g[w]));
    let i = first_match(g, node_named(n))->0;
    assert(done(g, i));
    assert forall|j: int| 0 <= j < moves_of(g, n).len() implies key_in(g, (#[trigger] moves_of(g, n)[j]).0) by {
        assert(moves_of(g, n)[j] == g[i].1[j]);
    }
}

/// The nodes of a list of nodes.
pub open spec fn nodes_view(v: Seq<Vec<String>>) -> Seq<NodeV> {
    v.map_values(|x: Vec<String>| names_view(x@))
}

/// Adds a node to a list of nodes unless it is there already.
fn push_node(out: &mut Vec<Vec<String>>, n: &Vec<String>)
    ensures
        forall|x: NodeV| #[trigger] nodes_view(final(out)@).contains(x) == (nodes_view(old(out)@).contains(x) || x == names_view(n@)),
{
    let ghost before = nodes_view(out@);
    let mut i: usize = 0;
    while i < out.len()
        invariant
            i <= out.len(),
            before == nodes_view(out@),
            forall|j: int| 0 <= j < i ==> before[j] != names_view(n@),
        decreases out.len() - i,
    {
        if node_eq(&out[i], n) {
            assert(before[i as int] == names_view(n@));
            return;
        }
        i += 1;
    }
    let c = copy_names(n);
    out.push(c);
    proof {
        assert(nodes_view(out@) =~= before.push(names_view(n@)));
        assert forall|x: NodeV| #[trigger] nodes_view(out@).contains(x) == (before.contains(x) || x == names_view(n@)) by {
            if nodes_view(out@).contains(x) {
                let w = choose|w: int| 0 <= w < nodes_view(out@).len() && nodes_view(out@)[w] == x;
                if w < before.len() {
                    assert(before[w] == x);
                }
            }
            if before.contains(x) {
                let w = choose|w: int| 0 <= w < before.len() && before[w] == x;
                assert(nodes_view(out@)[w] == x);
            }
            if x == names_view(n@) {
                assert(nodes_view(out@)[before.len() as int] == x);
            }
        }
    }
}

/// Whether the pair (t, n) is in the list.
fn listed_pair(blist: &Vec<(usize, Vec<String>)>, t: usize, n: &Vec<String>) -> (res: bool)
    ensures
        res == pairs_view(blist@).contains((t, names_view(n@))),
{
    let ghost pv = pairs_view(blist@);
    let mut i: usize = 0;
    while i < blist.len()
        invariant
            i <= blist.len(),
            pv == pairs_view(blist@),
            forall|j: int| 0 <= j < i ==> pv[j] != (t, names_view(n@)),
        decreases blist.len() - i,
    {
        assert(pv[i as int] == pair_view(blist@[i as int]));
        if pair_eq(&blist[i], t, n) {
            assert(pv[i as int] == (t, names_view(n@)));
            return true;
        }
        i += 1;
    }
    false
}

/// Adds to `out` the first nodes that the train in node `i` of its graph
/// reaches, moving on, that the list `blist` does not hold.
fn collect_frontier(
    problem: &Problem,
    t: usize,
    g: &Graph,
    blist: &Vec<(usize, Vec<String>)>,
    i: usize,
    out: &mut Vec<Vec<String>>,
    Ghost(bound): Ghost<nat>,
)
    requires
        closed_graph(problem@, t as int, graph_view(g@)),
        i < g@.len(),
        node_measure(problem@, t as int, graph_view(g@)[i as int].0) < bound,
    ensures
        forall|x: NodeV|
            #[trigger] nodes_view(final(out)@).contains(x) == (nodes_view(old(out)@).contains(x) || frontier(
                problem@,
                t as int,
                graph_view(g@),
                pairs_view(blist@),
                graph_view(g@)[i as int].0,
            ).contains(x)),
    decreases bound,
{
    let ghost p = problem@;
    let ghost gv = graph_view(g@);
    let ghost blk = pairs_view(blist@);
    let ghost nv = gv[i as int].0;
    assert(key_in(gv, nv));
    assert(nv == names_view(g@[i as int].0@));
    proof {
        lemma_moves_of(p, t as int, gv, nv);
        reveal_with_fuel(frontier_from, 1);
    }
    let ghost o0 = nodes_view(out@);
    if !listed_pair(blist, t, &g[i].0) {
        push_node(out, &g[i].0);
        proof {
            assert(frontier(p, t as int, gv, blk, nv) == set![nv]);
        }
        return;
    }
    let ghost mv = moves_of(gv, nv);
    let ghost gi = first_match(gv, node_named(nv))->0;
    proof {
        lemma_first_match(gv, node_named(nv));
        if gi != i as int {
            assert(gv[gi].0 == gv[i as int].0);
        }
        assert(gi == i);
        assert(mv == gv[i as int].1);
        assert(frontier(p, t as int, gv, blk, nv) == frontier_from(p, t as int, gv, blk, nv, mv.len() as int));
    }
    let mut j: usize = 0;
    while j < g[i].1.len()
        invariant
            i < g@.len(),
            j <= mv.len(),
            p == problem@,
            gv == graph_view(g@),
            blk == pairs_view(blist@),
            nv == gv[i as int].0,
            mv == gv[i as int].1,
            mv == moves_of(gv, nv),
            mv.len() == g@[i as int].1@.len(),
            closed_graph(p, t as int, gv),
            key_in(gv, nv),
            node_measure(p, t as int, nv) < bound,
            forall|jj: int| 0 <= jj < mv.len() ==> key_in(gv, (#[trigger] mv[jj]).0),
            nv.len() > 0 ==> mv == succs(p[t as int], nv),
            nv.len() > 0 ==> node_ok(p[t as int], nv),
            nv.len() == 0 ==> mv.len() == 0,
            forall|x: NodeV|
                #[trigger] nodes_view(out@).contains(x) == (o0.contains(x) || frontier_from(p, t as int, gv, blk, nv, j as int).contains(x)),
        decreases mv.len() - j,
    {
        assert(mv[j as int] == edge_view(g@[i as int].1@[j as int]));
        let ti = find_node(g, &g[i].1[j].0).unwrap();
        let ghost tv = mv[j as int].0;
        assert(gv[ti as int].0 == tv);
        proof {
            if tv.len() > 0 {
                assert(succs(p[t as int], nv).contains(mv[j as int]));
                lemma_succ_rank(p, t as int, nv, mv[j as int]);
            }
        }
        let ghost ob = nodes_view(out@);
        collect_frontier(problem, t, g, blist, ti, out, Ghost(node_measure(p, t as int, nv)));
        proof {
            reveal_with_fuel(frontier_from, 1);
            assert(frontier_from(p, t as int, gv, blk, nv, j + 1) == frontier_from(p, t as int, gv, blk, nv, j as int).union(
                frontier_from(p, t as int, gv, blk, tv, -1)));
        }
        j += 1;
    }
}

/// The first nodes the train in node `start` of its graph reaches, moving
/// on, that the list `blist` does not hold.
fn advance_until_stops_blocking(
    problem: &Problem,
    t: usize,
    g: &Graph,
    blist: &Vec<(usize, Vec<String>)>,
    start: usize,
) -> (res: Vec<Vec<String>>)
    requires
        closed_graph(problem@, t as int, graph_view(g@)),
        start < g@.len(),
    ensures
        forall|x: NodeV| #[trigger] nodes_view(res@).contains(x) == frontier(
            problem@,
            t as int,
            graph_view(g@),
            pairs_view(blist@),
            graph_view(g@)[start as int].0,
        ).contains(x),
{
    let mut out: Vec<Vec<String>> = Vec::new();
    proof {
        assert(nodes_view(out@) =~= Seq::<NodeV>::empty());
    }
    collect_frontier(
        problem,
        t,
        g,
        blist,
        start,
        &mut out,
        Ghost(node_measure(problem@, t as int, graph_view(g@)[start as int].0) + 1),
    );
    out
}

/// The index of node `n` in a graph.
pub open spec fn idx_of(g: GraphV, n: NodeV) -> int {
    first_match(g, node_named(n))->0
}

/// The variables of the nodes: for node `i` of the graph of train `t`, the
/// literal "the train passes through the node" and the time it enters it.
pub type NodeVars = Vec<Vec<(BLit, usize)>>;

/// In model `m`, train `t` passes through node `i` of its graph.
pub open spec fn on(m: DiffModel, nv: Seq<Vec<(BLit, usize)>>, t: int, i: int) -> bool {
    lit_value(m, nv[t]@[i].0)
}

/// In model `m`, the time train `t` enters node `i` of its graph.
pub open spec fn time(m: DiffModel, nv: Seq<Vec<(BLit, usize)>>, t: int, i: int) -> int {
    int_value(m, nv[t]@[i].1)
}

/// The node variables have one entry per node of each graph.
pub open spec fn vars_shape(gs: Seq<GraphV>, nv: Seq<Vec<(BLit, usize)>>) -> bool {
    &&& nv.len() == gs.len()
    &&& forall|t: int| 0 <= t < gs.len() ==> (#[trigger] nv[t])@.len() == gs[t].len()
}

/// In model `m`, a train that passes through a non-empty node `i` of its
/// graph makes one of its moves: it passes through the node reached, later.
pub open spec fn moves_on(m: DiffModel, gs: Seq<GraphV>, nv: Seq<Vec<(BLit, usize)>>, t: int, i: int) -> bool {
    gs[t][i].0.len() > 0 && on(m, nv, t, i) ==> exists|j: int|
        0 <= j < gs[t][i].1.len() && on(m, nv, t, idx_of(gs[t], (#[trigger] gs[t][i].1[j]).0)) && time(m, nv, t, i) < time(
            m,
            nv,
            t,
            idx_of(gs[t], gs[t][i].1[j].0),
        )
}

/// The finished movement graphs of all trains.
pub open spec fn graphs_ok(p: Seq<TrainView>, gs: Seq<GraphV>) -> bool {
    &&& gs.len() == p.len()
    &&& forall|t: int| 0 <= t < gs.len() ==> closed_graph(p, t, #[trigger] gs[t])
}

/// Creates the node variables: a literal and a time per node of each graph.
fn make_node_vars(s: &mut DiffInstance, graphs: &Vec<Graph>) -> (nv: NodeVars)
    ensures
        diff_extends(final(s)@, old(s)@),
        forall|m: DiffModel| diff_meets(m, old(s)@) ==> diff_meets(m, final(s)@),
        vars_shape(graphs_view(graphs@), nv@),
        node_vars_below(nv@, final(s)@.len() as int),
        time_vars_distinct(nv@),
        scoped(old(s)@) ==> scoped(final(s)@),
        forall|i: int| old(s)@.len() <= i < final(s)@.len() ==> (#[trigger] final(s)@[i]) is NewBool || final(s)@[i] is NewInt,
{
    let ghost gs = graphs_view(graphs@);
    let mut nv: NodeVars = Vec::new();
    let mut t: usize = 0;
    proof {
        lemma_diff_extends_refl(s@);
    }
    while t < graphs.len()
        invariant
            t <= graphs.len(),
            gs == graphs_view(graphs@),
            nv@.len() == t,
            forall|u: int| 0 <= u < t ==> (#[trigger] nv@[u])@.len() == gs[u].len(),
            diff_extends(s@, old(s)@),
            forall|i: int| old(s)@.len() <= i < s@.len() ==> (#[trigger] s@[i]) is NewBool || s@[i] is NewInt,
            node_vars_below(nv@, s@.len() as int),
            time_vars_distinct(nv@),
            scoped(old(s)@) ==> scoped(s@),
        decreases graphs.len() - t,
    {
        let ghost srow = s@.len() as int;
        let mut row: Vec<(BLit, usize)> = Vec::new();
        let n = graphs[t].len();
        assert(gs[t as int].len() == n);
        let mut i: usize = 0;
        while i < n
            invariant
                i <= n,
                t < graphs.len(),
                n == gs[t as int].len(),
                gs == graphs_view(graphs@),
                row@.len() == i,
                diff_extends(s@, old(s)@),
                forall|k: int| old(s)@.len() <= k < s@.len() ==> (#[trigger] s@[k]) is NewBool || s@[k] is NewInt,
                node_vars_below(nv@, s@.len() as int),
                forall|k: int| 0 <= k < i ==> (#[trigger] row@[k]).0.var < s@.len() && row@[k].1 < s@.len(),
                node_vars_below(nv@, srow),
                srow <= s@.len(),
                time_vars_distinct(nv@),
                forall|k: int| 0 <= k < i ==> srow <= (#[trigger] row@[k]).1,
                forall|k: int, k2: int| 0 <= k < k2 < i ==> (#[trigger] row@[k]).1 != (#[trigger] row@[k2]).1,
                scoped(old(s)@) ==> scoped(s@),
            decreases n - i,
        {
            let ghost s0 = s@;
            let b = s.new_bool();
            let ghost s1 = s@;
            let x = s.new_int();
            proof {
                if scoped(old(s)@) {
                    lemma_scoped_push(s0, DiffCommandView::NewBool);
                    lemma_scoped_push(s1, DiffCommandView::NewInt);
                }
                lemma_diff_extends_push(s0, DiffCommandView::NewBool);
                lemma_diff_extends_push(s1, DiffCommandView::NewInt);
                lemma_diff_extends_trans(s@, s1, s0);
                lemma_diff_extends_trans(s@, s0, old(s)@);
            }
            let ghost rb = row@;
            row.push((b, x));
            proof {
                assert forall|k: int| 0 <= k < i + 1 implies (#[trigger] row@[k]).0.var < s@.len() && row@[k].1 < s@.len() by {
                    if k < i {
                        assert(row@[k] == rb[k]);
                    }
                }
                assert forall|k: int| 0 <= k < i + 1 implies srow <= (#[trigger] row@[k]).1 by {
                    if k < i {
                        assert(row@[k] == rb[k]);
                    }
                }
                assert forall|k: int, k2: int| 0 <= k < k2 < i + 1 implies (#[trigger] row@[k]).1 != (#[trigger] row@[k2]).1 by {
                    assert(row@[k] == rb[k]);
                    if k2 < i {
                        assert(row@[k2] == rb[k2]);
                    } else {
                        assert(rb[k].1 < s0.len());
                    }
                }
            }
            i += 1;
        }
        let ghost nb = nv@;
        nv.push(row);
        proof {
            assert forall|u: int, k: int| 0 <= u < nv@.len() && 0 <= k < nv@[u]@.len() implies (#[trigger] nv@[u]@[k]).0.var < s@.len()
                && nv@[u]@[k].1 < s@.len() by {
                if u < t {
                    assert(nv@[u] == nb[u]);
                }
            }
            assert forall|u: int, k: int, u2: int, k2: int|
                0 <= u < nv@.len() && 0 <= k < nv@[u]@.len() && 0 <= u2 < nv@.len() && 0 <= k2 < nv@[u2]@.len() && (u != u2 || k
                    != k2) implies (#[trigger] nv@[u]@[k]).1 != (#[trigger] nv@[u2]@[k2]).1 by {
                if u < t && u2 < t {
                    assert(nv@[u] == nb[u]);
                    assert(nv@[u2] == nb[u2]);
                    assert(nb[u]@[k].1 != nb[u2]@[k2].1);
                } else if u < t {
                    assert(nv@[u] == nb[u]);
                    assert(nb[u]@[k].1 < srow);
                    assert(srow <= row@[k2].1);
                } else if u2 < t {
                    assert(nv@[u2] == nb[u2]);
                    assert(nb[u2]@[k2].1 < srow);
                    assert(srow <= row@[k].1);
                } else {
                    if k < k2 {
                        assert(row@[k].1 != row@[k2].1);
                    } else {
                        assert(row@[k2].1 != row@[k].1);
                    }
                }
            }
        }
        t += 1;
    }
    proof {
        assert forall|m: DiffModel| diff_meets(m, old(s)@) implies diff_meets(m, s@) by {
            assert forall|i: int| 0 <= i < s@.len() implies diff_holds(m, #[trigger] s@[i]) by {
                if i < old(s)@.len() {
                    assert(s@[i] == old(s)@[i]);
                }
            }
        }
    }
    nv
}

/// Distinct nodes have distinct time variables.
pub open spec fn time_vars_distinct(nv: Seq<Vec<(BLit, usize)>>) -> bool {
    forall|t: int, i: int, u: int, j: int|
        0 <= t < nv.len() && 0 <= i < nv[t]@.len() && 0 <= u < nv.len() && 0 <= j < nv[u]@.len() && (t != u || i != j)
            ==> (#[trigger] nv[t]@[i]).1 != (#[trigger] nv[u]@[j]).1
}

/// The node variables were all introduced below `n`.
pub open spec fn node_vars_below(nv: Seq<Vec<(BLit, usize)>>, n: int) -> bool {
    forall|t: int, i: int|
        0 <= t < nv.len() && 0 <= i < nv[t]@.len() ==> (#[trigger] nv[t]@[i]).0.var < n && nv[t]@[i].1 < n
}

/// Two models give every node the same activity and time.
pub open spec fn agree_nodes(a: DiffModel, b: DiffModel, nv: Seq<Vec<(BLit, usize)>>) -> bool {
    forall|t: int, i: int|
        0 <= t < nv.len() && 0 <= i < nv[t]@.len() ==> #[trigger] on(a, nv, t, i) == on(b, nv, t, i) && time(a, nv, t, i)
            == time(b, nv, t, i)
}

/// Agreement on the nodes survives a change of variables above them.
proof fn lemma_agree_step(a: DiffModel, b: DiffModel, r: DiffModel, nv: Seq<Vec<(BLit, usize)>>, n: int)
    requires
        agree_nodes(a, r, nv),
        same_below(a, b, n),
        node_vars_below(nv, n),
    ensures
        agree_nodes(b, r, nv),
{
    assert forall|t: int, i: int| 0 <= t < nv.len() && 0 <= i < nv[t]@.len() implies #[trigger] on(b, nv, t, i) == on(r, nv, t, i)
        && time(b, nv, t, i) == time(r, nv, t, i) by {
        assert(on(a, nv, t, i) == on(r, nv, t, i));
        lemma_same_below_lit(a, b, n, nv[t]@[i].0);
        lemma_same_below_int(a, b, n, nv[t]@[i].1);
    }
}

proof fn lemma_node_vars_below_mono(nv: Seq<Vec<(BLit, usize)>>, n: int, k: int)
    requires
        node_vars_below(nv, n),
        n <= k,
    ensures
        node_vars_below(nv, k),
{
}

/// A node of a graph is found at an index of the graph.
proof fn lemma_idx_in(g: GraphV, n: NodeV)
    requires
        key_in(g, n),
    ensures
        0 <= idx_of(g, n) < g.len(),
        g[idx_of(g, n)].0 == n,
{
    lemma_first_match(g, node_named(n));
    let w = choose|i: int| 0 <= i < g.len() && (#[trigger] g[i]).0 == n;
    assert(node_named(n)(g[w]));
}

/// The value a schedule gives to the literal of move `j` out of node `i` of
/// train `t`: the train passes through the node the move reaches, later.
pub open spec fn move_taken(m: DiffModel, gs: Seq<GraphV>, nv: Seq<Vec<(BLit, usize)>>, t: int, i: int, j: int) -> bool {
    let k = idx_of(gs[t], gs[t][i].1[j].0);
    on(m, nv, t, k) && time(m, nv, t, i) < time(m, nv, t, k)
}

/// `m` with the move literals out of node `i` of train `t`, introduced
/// from `base` on, set as the schedule has them.
pub open spec fn flow_witness(m: DiffModel, gs: Seq<GraphV>, nv: Seq<Vec<(BLit, usize)>>, t: int, i: int, base: int) -> DiffModel {
    DiffModel {
        bools: Seq::new(
            (base + gs[t][i].1.len()) as nat,
            |v: int| if v < base { bval(m, v) } else { move_taken(m, gs, nv, t, i, v - base) },
        ),
        ints: m.ints,
    }
}

/// In a well-formed graph, node `i` is found at index `i`.
proof fn lemma_idx_of(tr: TrainView, g: GraphV, i: int)
    requires
        graph_wf(tr, g),
        0 <= i < g.len(),
    ensures
        idx_of(g, g[i].0) == i,
{
    lemma_first_match(g, node_named(g[i].0));
    assert(node_named(g[i].0)(g[i]));
    let k = first_match(g, node_named(g[i].0))->0;
    if k != i {
        assert(g[k].0 == g[i].0);
    }
}

proof fn lemma_clause_split(m: DiffModel, es: Seq<BLit>, x: BLit)
    requires
        exists|i: int| 0 <= i < es.push(x).len() && lit_value(m, #[trigger] es.push(x)[i]),
    ensures
        lit_value(m, x) || exists|i: int| 0 <= i < es.len() && lit_value(m, #[trigger] es[i]),
{
    let l = es.push(x);
    let i = choose|i: int| 0 <= i < l.len() && lit_value(m, #[trigger] l[i]);
    if i < es.len() {
        assert(l[i] == es[i]);
    }
}

/// Adds the moves of train `t` out of node `i` of its graph: a literal per
/// move, at least one of them where the train passes through the node, and
/// each leading to the node it reaches, entered later. Every schedule that
/// moves on from the node gives values to the new literals that meet the
/// new commands.
fn add_node_flow(s: &mut DiffInstance, problem: &Problem, graphs: &Vec<Graph>, nv: &NodeVars, t: usize, i: usize)
    requires
        t < graphs@.len(),
        closed_graph(problem@, t as int, graphs_view(graphs@)[t as int]),
        vars_shape(graphs_view(graphs@), nv@),
        i < graphs@[t as int]@.len(),
        scoped(old(s)@),
        node_vars_below(nv@, old(s)@.len() as int),
    ensures
        diff_extends(final(s)@, old(s)@),
        scoped(final(s)@),
        forall|m: DiffModel| diff_meets(m, final(s)@) ==> moves_on(m, graphs_view(graphs@), nv@, t as int, i as int),
        forall|m: DiffModel, r: DiffModel|
            diff_meets(m, old(s)@) && #[trigger] agree_nodes(m, r, nv@) && moves_on(r, graphs_view(graphs@), nv@, t as int, i as int)
                ==> exists|m2: DiffModel| #[trigger] diff_meets(m2, final(s)@) && same_below(m, m2, old(s)@.len() as int),
{
    let ghost gs = graphs_view(graphs@);
    let ghost gv = gs[t as int];
    let ghost base = s@.len() as int;
    let g = &graphs[t];
    assert(gv == graph_view(g@));
    assert(gv[i as int].0 == names_view(g@[i as int].0@));
    proof {
        lemma_diff_extends_refl(s@);
    }
    if g[i].0.len() == 0 {
        proof {
            assert forall|m: DiffModel, r: DiffModel|
                diff_meets(m, old(s)@) && #[trigger] agree_nodes(m, r, nv@) && moves_on(r, gs, nv@, t as int, i as int)
                    implies exists|m2: DiffModel| #[trigger] diff_meets(m2, s@) && same_below(m, m2, base) by {
                assert(same_below(m, m, base));
            }
        }
        return;
    }
    let ghost mv = gv[i as int].1;
    assert(mv.len() == g@[i as int].1@.len());
    let (on_i, time_i) = nv[t][i];
    assert(nv@[t as int]@.len() == gv.len());
    assert(on_i.var < base && time_i < base);
    let ghost s0 = s@;
    let ghost hyp = |m: DiffModel, r: DiffModel|
        diff_meets(m, s0) && agree_nodes(m, r, nv@) && moves_on(r, gs, nv@, t as int, i as int);
    let ghost wit = |m: DiffModel| flow_witness(m, gs, nv@, t as int, i as int, base);
    proof {
        assert forall|m: DiffModel, r: DiffModel| #[trigger] hyp(m, r) implies diff_meets(wit(m), s@) && same_below(m, wit(m), base) by {
            let w = wit(m);
            assert forall|v: int| 0 <= v < base implies #[trigger] bval(m, v) == bval(w, v) by {}
            assert forall|v: int| 0 <= v < base implies #[trigger] ival(m, v) == ival(w, v) by {}
            lemma_same_below_meets(m, w, s0);
        }
    }
    let mut edges: Vec<BLit> = Vec::new();
    let mut j: usize = 0;
    while j < g[i].1.len()
        invariant
            i < g@.len(),
            j <= g@[i as int].1@.len(),
            mv.len() == g@[i as int].1@.len(),
            edges@.len() == j,
            s@.len() == base + j,
            base == s0.len(),
            diff_extends(s@, s0),
            scoped(s@),
            forall|jj: int| 0 <= jj < j ==> (#[trigger] edges@[jj]).var == base + jj && edges@[jj].positive,
            forall|m: DiffModel, r: DiffModel| #[trigger] hyp(m, r) ==> diff_meets(wit(m), s@) && same_below(m, wit(m), base),
        decreases g@[i as int].1@.len() - j,
    {
        let ghost sb = s@;
        let e = s.new_bool();
        proof {
            lemma_diff_extends_push(sb, DiffCommandView::NewBool);
            lemma_diff_extends_trans(s@, sb, s0);
            lemma_scoped_push(sb, DiffCommandView::NewBool);
            assert forall|m: DiffModel, r: DiffModel| #[trigger] hyp(m, r) implies diff_meets(wit(m), s@) && same_below(m, wit(m), base) by {
                lemma_diff_meets_push(wit(m), sb, DiffCommandView::NewBool);
            }
        }
        let ghost eb = edges@;
        edges.push(e);
        proof {
            assert forall|jj: int| 0 <= jj < j + 1 implies (#[trigger] edges@[jj]).var == base + jj && edges@[jj].positive by {
                if jj < j {
                    assert(edges@[jj] == eb[jj]);
                }
            }
        }
        j += 1;
    }
    let ghost ev = edges@;
    let mut clause: Vec<BLit> = Vec::new();
    let mut k: usize = 0;
    while k < edges.len()
        invariant
            k <= edges.len(),
            clause@ == edges@.take(k as int),
        decreases edges.len() - k,
    {
        clause.push(edges[k]);
        assert(edges@.take(k + 1) =~= edges@.take(k as int).push(edges@[k as int]));
        k += 1;
    }
    assert(edges@.take(k as int) =~= edges@);
    let non = neg(on_i);
    clause.push(non);
    let ghost cl = clause@;
    let ghost s1 = s@;
    s.add_clause(clause);
    let ghost s2 = s@;
    proof {
        lemma_diff_extends_push(s1, DiffCommandView::Clause { lits: cl });
        lemma_diff_extends_trans(s2, s1, s0);
        assert(cl == ev.push(non));
        assert forall|w: int| 0 <= w < cl.len() implies (#[trigger] cl[w]).var < s1.len() by {
            if w < ev.len() {
                assert(cl[w] == ev[w]);
            }
        }
        lemma_scoped_push(s1, DiffCommandView::Clause { lits: cl });
        assert forall|m: DiffModel, r: DiffModel| #[trigger] hyp(m, r) implies diff_meets(wit(m), s@) && same_below(m, wit(m), base) by {
            let w = wit(m);
            assert(w == flow_witness(m, gs, nv@, t as int, i as int, base));
            lemma_same_below_lit(m, w, base, on_i);
            assert(on(m, nv@, t as int, i as int) == on(r, nv@, t as int, i as int));
            if lit_value(w, on_i) {
                assert(on(r, nv@, t as int, i as int));
                let jj = choose|jj: int| 0 <= jj < gs[t as int][i as int].1.len() && on(r, nv@, t as int, idx_of(gs[t as int], (#[trigger] gs[t as int][i as int].1[jj]).0))
                    && time(r, nv@, t as int, i as int) < time(r, nv@, t as int, idx_of(gs[t as int], gs[t as int][i as int].1[jj].0));
                assert(done(gv, i as int));
                assert(key_in(gv, mv[jj].0));
                lemma_idx_in(gv, mv[jj].0);
                let tk = idx_of(gv, mv[jj].0);
                assert(on(m, nv@, t as int, tk) == on(r, nv@, t as int, tk));
                assert(move_taken(m, gs, nv@, t as int, i as int, jj));
                assert(w.bools[base + jj] == move_taken(m, gs, nv@, t as int, i as int, jj));
                assert(bval(w, base + jj));
                assert(cl[jj] == ev[jj]);
                assert(lit_value(w, cl[jj]));
                lemma_clause_holds(w, cl, jj);
            } else {
                let last = ev.len() as int;
                assert(cl[last] == non);
                assert(lit_value(w, cl[last]));
                lemma_clause_holds(w, cl, last);
            }
            lemma_diff_meets_push(w, s1, DiffCommandView::Clause { lits: cl });
        }
    }
    let mut j: usize = 0;
    while j < g[i].1.len()
        invariant
            j <= mv.len(),
            mv.len() == g@[i as int].1@.len(),
            mv == gv[i as int].1,
            gv == graph_view(g@),
            gv == gs[t as int],
            gs == graphs_view(graphs@),
            t < graphs@.len(),
            g == graphs@[t as int],
            closed_graph(problem@, t as int, gv),
            vars_shape(gs, nv@),
            node_vars_below(nv@, base),
            i < gv.len(),
            ev == edges@,
            ev.len() == mv.len(),
            forall|jj: int| 0 <= jj < ev.len() ==> (#[trigger] ev[jj]).var == base + jj && ev[jj].positive,
            (on_i, time_i) == nv@[t as int]@[i as int],
            base <= s2.len(),
            diff_extends(s@, s2),
            scoped(s@),
            s@.len() >= base + ev.len(),
            forall|m: DiffModel, r: DiffModel| #[trigger] hyp(m, r) ==> diff_meets(wit(m), s@) && same_below(m, wit(m), base),
            forall|m: DiffModel| #[trigger] wit(m) == flow_witness(m, gs, nv@, t as int, i as int, base),
            forall|m: DiffModel|
                diff_meets(m, s@) ==> forall|jj: int|
                    0 <= jj < j && lit_value(m, #[trigger] ev[jj]) ==> on(m, nv@, t as int, idx_of(gv, mv[jj].0)) && time(
                        m,
                        nv@,
                        t as int,
                        i as int,
                    ) < time(m, nv@, t as int, idx_of(gv, mv[jj].0)),
        decreases mv.len() - j,
    {
        assert(mv[j as int] == edge_view(g@[i as int].1@[j as int]));
        assert(done(gv, i as int));
        assert(key_in(gv, mv[j as int].0));
        let ti = find_node(g, &g[i].1[j].0).unwrap();
        proof {
            lemma_idx_of(problem@[t as int], gv, ti as int);
        }
        assert(nv@[t as int]@.len() == gv.len());
        let (on_t, time_t) = nv[t][ti];
        assert(on_t.var < base && time_t < base);
        let e = edges[j];
        let ghost sa = s@;
        s.add_diff(Some(e), time_i, time_t, -1);
        let ghost sb = s@;
        let mut c2: Vec<BLit> = Vec::new();
        c2.push(neg(e));
        c2.push(on_t);
        let ghost c2v = c2@;
        s.add_clause(c2);
        proof {
            let dc = DiffCommandView::Diff { cond: Some(e), x: time_i, y: time_t, k: -1i64 };
            lemma_diff_extends_push(sa, dc);
            lemma_diff_extends_push(sb, DiffCommandView::Clause { lits: c2v });
            lemma_diff_extends_trans(s@, sb, sa);
            lemma_diff_extends_trans(s@, sa, s2);
            lemma_scoped_push(sa, dc);
            assert forall|w: int| 0 <= w < c2v.len() implies (#[trigger] c2v[w]).var < sb.len() by {}
            lemma_scoped_push(sb, DiffCommandView::Clause { lits: c2v });
            assert forall|m: DiffModel, r: DiffModel| #[trigger] hyp(m, r) implies diff_meets(wit(m), s@) && same_below(m, wit(m), base) by {
                let w = wit(m);
                assert(w == flow_witness(m, gs, nv@, t as int, i as int, base));
                assert(w.ints == m.ints);
                assert(j < gs[t as int][i as int].1.len());
                assert(w.bools[base + j] == move_taken(m, gs, nv@, t as int, i as int, j as int));
                assert(bval(w, base + j) == move_taken(m, gs, nv@, t as int, i as int, j as int));
                assert(idx_of(gv, mv[j as int].0) == ti);
                lemma_same_below_lit(m, w, base, on_t);
                assert(int_value(w, time_i) == int_value(m, time_i));
                assert(int_value(w, time_t) == int_value(m, time_t));
                lemma_diff_meets_push(w, sa, dc);
                assert(c2v[0] == (BLit { var: e.var, positive: !e.positive }) && c2v[1] == on_t && c2v.len() == 2);
                if lit_value(w, e) {
                    lemma_clause_holds(w, c2v, 1);
                } else {
                    lemma_clause_holds(w, c2v, 0);
                }
                lemma_diff_meets_push(w, sb, DiffCommandView::Clause { lits: c2v });
            }
            assert forall|m: DiffModel| diff_meets(m, s@) implies forall|jj: int|
                0 <= jj < j + 1 && lit_value(m, #[trigger] ev[jj]) ==> on(m, nv@, t as int, idx_of(gv, mv[jj].0)) && time(
                    m,
                    nv@,
                    t as int,
                    i as int,
                ) < time(m, nv@, t as int, idx_of(gv, mv[jj].0)) by {
                lemma_diff_meets_last(m, sb, DiffCommandView::Clause { lits: c2v });
                lemma_diff_meets_last(m, sa, dc);
                if lit_value(m, e) {
                    let w = choose|w: int| 0 <= w < c2v.len() && lit_value(m, #[trigger] c2v[w]);
                    assert(w == 0 || w == 1);
                }
            }
        }
        j += 1;
    }
    proof {
        assert forall|m: DiffModel| diff_meets(m, s@) implies moves_on(m, gs, nv@, t as int, i as int) by {
            lemma_diff_meets_prefix(m, s@, s2);
            lemma_diff_meets_last(m, s1, DiffCommandView::Clause { lits: cl });
            assert(cl == ev.push(non));
            lemma_clause_split(m, ev, non);
            if on(m, nv@, t as int, i as int) {
                let w = choose|w: int| 0 <= w < ev.len() && lit_value(m, #[trigger] ev[w]);
                assert(gs[t as int][i as int].1[w] == mv[w]);
            }
        }
        lemma_diff_extends_trans(s@, s2, s0);
        assert forall|m: DiffModel, r: DiffModel|
            diff_meets(m, old(s)@) && #[trigger] agree_nodes(m, r, nv@) && moves_on(r, gs, nv@, t as int, i as int)
                implies exists|m2: DiffModel| #[trigger] diff_meets(m2, s@) && same_below(m, m2, base) by {
            assert(hyp(m, r));
            assert(diff_meets(wit(m), s@));
        }
    }
}

/// In schedule `r`, every train moves on from every non-empty node it passes through.
pub open spec fn all_move_on(r: DiffModel, gs: Seq<GraphV>, nv: Seq<Vec<(BLit, usize)>>) -> bool {
    forall|t: int, i: int| 0 <= t < gs.len() && 0 <= i < gs[t].len() ==> #[trigger] moves_on(r, gs, nv, t, i)
}

/// Adds the moves of every train out of every node of its graph. Every
/// schedule in which the trains move on gives values to the new literals
/// that meet the new commands.
fn add_flows(s: &mut DiffInstance, problem: &Problem, graphs: &Vec<Graph>, nv: &NodeVars)
    requires
        graphs_ok(problem@, graphs_view(graphs@)),
        vars_shape(graphs_view(graphs@), nv@),
        scoped(old(s)@),
        node_vars_below(nv@, old(s)@.len() as int),
    ensures
        diff_extends(final(s)@, old(s)@),
        scoped(final(s)@),
        forall|m: DiffModel|
            diff_meets(m, final(s)@) ==> forall|t: int, i: int|
                0 <= t < graphs@.len() && 0 <= i < graphs_view(graphs@)[t].len() ==> #[trigger] moves_on(
                    m,
                    graphs_view(graphs@),
                    nv@,
                    t,
                    i,
                ),
        extends_moving(old(s)@, final(s)@, graphs_view(graphs@), nv@),
{
    let ghost gs = graphs_view(graphs@);
    let ghost n0 = s@.len() as int;
    proof {
        lemma_diff_extends_refl(s@);
        assert forall|m: DiffModel, r: DiffModel|
            diff_meets(m, old(s)@) && #[trigger] agree_nodes(m, r, nv@) && all_move_on(r, gs, nv@)
                implies exists|m2: DiffModel| #[trigger] diff_meets(m2, s@) && same_below(m, m2, n0) by {
            assert(same_below(m, m, n0));
        }
    }
    let mut t: usize = 0;
    while t < graphs.len()
        invariant
            t <= graphs.len(),
            gs == graphs_view(graphs@),
            graphs_ok(problem@, gs),
            vars_shape(gs, nv@),
            n0 == old(s)@.len(),
            diff_extends(s@, old(s)@),
            scoped(s@),
            node_vars_below(nv@, n0),
            forall|m: DiffModel|
                diff_meets(m, s@) ==> forall|u: int, i: int|
                    0 <= u < t && 0 <= i < gs[u].len() ==> #[trigger] moves_on(m, gs, nv@, u, i),
            forall|m: DiffModel, r: DiffModel|
                diff_meets(m, old(s)@) && #[trigger] agree_nodes(m, r, nv@) && all_move_on(r, gs, nv@)
                    ==> exists|m2: DiffModel| #[trigger] diff_meets(m2, s@) && same_below(m, m2, n0),
        decreases graphs.len() - t,
    {
        assert(gs[t as int] == graph_view(graphs@[t as int]@));
        assert(closed_graph(problem@, t as int, gs[t as int]));
        let mut i: usize = 0;
        while i < graphs[t].len()
            invariant
                t < graphs.len(),
                i <= graphs@[t as int]@.len(),
                gs == graphs_view(graphs@),
                gs[t as int].len() == graphs@[t as int]@.len(),
                graphs_ok(problem@, gs),
                closed_graph(problem@, t as int, gs[t as int]),
                vars_shape(gs, nv@),
                n0 == old(s)@.len(),
                diff_extends(s@, old(s)@),
                scoped(s@),
                node_vars_below(nv@, n0),
                forall|m: DiffModel|
                    diff_meets(m, s@) ==> forall|u: int, k: int|
                        (0 <= u < t && 0 <= k < gs[u].len()) || (u == t && 0 <= k < i) ==> #[trigger] moves_on(m, gs, nv@, u, k),
                forall|m: DiffModel, r: DiffModel|
                    diff_meets(m, old(s)@) && #[trigger] agree_nodes(m, r, nv@) && all_move_on(r, gs, nv@)
                        ==> exists|m2: DiffModel| #[trigger] diff_meets(m2, s@) && same_below(m, m2, n0),
            decreases graphs@[t as int]@.len() - i,
        {
            let ghost sb = s@;
            proof {
                lemma_node_vars_below_mono(nv@, n0, sb.len() as int);
            }
            add_node_flow(s, problem, graphs, nv, t, i);
            proof {
                lemma_diff_extends_trans(s@, sb, old(s)@);
                assert forall|m: DiffModel| diff_meets(m, s@) implies forall|u: int, k: int|
                    (0 <= u < t && 0 <= k < gs[u].len()) || (u == t && 0 <= k < i + 1) ==> #[trigger] moves_on(m, gs, nv@, u, k) by {
                    lemma_diff_meets_prefix(m, s@, sb);
                }
                assert forall|m: DiffModel, r: DiffModel|
                    diff_meets(m, old(s)@) && #[trigger] agree_nodes(m, r, nv@) && all_move_on(r, gs, nv@)
                        implies exists|m2: DiffModel| #[trigger] diff_meets(m2, s@) && same_below(m, m2, n0) by {
                    let m1 = choose|m1: DiffModel| #[trigger] diff_meets(m1, sb) && same_below(m, m1, n0);
                    lemma_agree_step(m, m1, r, nv@, n0);
                    assert(moves_on(r, gs, nv@, t as int, i as int));
                    assert(agree_nodes(m1, r, nv@));
                    let m2 = choose|m2: DiffModel| #[trigger] diff_meets(m2, s@) && same_below(m1, m2, sb.len() as int);
                    lemma_same_below_weaken(m1, m2, sb.len() as int, n0);
                    lemma_same_below_trans(m, m1, m2, n0);
                }
            }
            i += 1;
        }
        t += 1;
    }
    proof {
        reveal(extends_moving);
    }
}

/// The test "the entry is route `r`".
pub open spec fn entry_named(r: Seq<char>) -> spec_fn((Seq<char>, Seq<(usize, NodeV)>)) -> bool {
    |e: (Seq<char>, Seq<(usize, NodeV)>)| e.0 == r
}

/// The (train, node) pairs a block map lists under route `r`.
pub open spec fn blk_of(bm: BlockMapV, r: Seq<char>) -> Seq<(usize, NodeV)> {
    match first_match(bm, entry_named(r)) {
        Some(k) => bm[k].1,
        None => Seq::empty(),
    }
}

/// In model `m`, wherever train `ta`, moving on from node `start`, first
/// stops blocking route `r`, it is there before train `tb` enters node `ib`.
pub open spec fn goes_first(
    m: DiffModel,
    p: Seq<TrainView>,
    gs: Seq<GraphV>,
    bm: BlockMapV,
    nv: Seq<Vec<(BLit, usize)>>,
    ta: int,
    r: Seq<char>,
    start: NodeV,
    tb: int,
    ib: int,
) -> bool {
    forall|o: NodeV|
        #[trigger] frontier(p, ta, gs[ta], blk_of(bm, r), start).contains(o) && on(m, nv, ta, idx_of(gs[ta], o)) ==> time(
            m,
            nv,
            ta,
            idx_of(gs[ta], o),
        ) < time(m, nv, tb, ib)
}

/// Train `t1` in the non-empty node `i1` of its graph cannot enter its
/// front route while train `t2` is in node `n2`.
pub open spec fn conflict(gs: Seq<GraphV>, bm: BlockMapV, t1: int, i1: int, t2: int, n2: NodeV) -> bool {
    &&& 0 <= t1 < gs.len()
    &&& 0 <= i1 < gs[t1].len()
    &&& gs[t1][i1].0.len() > 0
    &&& 0 <= t2 < gs.len()
    &&& t2 != t1
    &&& listed(bm, gs[t1][i1].0.last(), t2 as usize, n2)
}

/// In model `m`, a conflict is resolved: where both trains pass through
/// their nodes, one goes first, leaving the other's front route free before
/// the other enters its node; a train in its initial node goes first.
pub open spec fn ordered(
    m: DiffModel,
    p: Seq<TrainView>,
    gs: Seq<GraphV>,
    bm: BlockMapV,
    nv: Seq<Vec<(BLit, usize)>>,
    t1: int,
    i1: int,
    t2: int,
    n2: NodeV,
) -> bool {
    let n1 = gs[t1][i1].0;
    let i2 = idx_of(gs[t2], n2);
    let t2_first = goes_first(m, p, gs, bm, nv, t2, n1.last(), n2, t1, i1);
    let t1_first = goes_first(m, p, gs, bm, nv, t1, n2.last(), n1, t2, i2);
    &&& on(m, nv, t1, i1) && on(m, nv, t2, i2) ==> t1_first || t2_first
    &&& i1 == 0 && on(m, nv, t1, i1) && on(m, nv, t2, i2) ==> t1_first
    &&& i2 == 0 && on(m, nv, t1, i1) && on(m, nv, t2, i2) ==> t2_first
}

/// The nodes `frontier_from` gives are nodes of the graph.
proof fn lemma_frontier_keys(p: Seq<TrainView>, t: int, g: GraphV, blk: Seq<(usize, NodeV)>, n: NodeV, k: int)
    requires
        closed_graph(p, t, g),
        key_in(g, n),
        k >= 0 ==> k <= moves_of(g, n).len(),
    ensures
        forall|o: NodeV| #[trigger] frontier_from(p, t, g, blk, n, k).contains(o) ==> key_in(g, o),
    decreases node_measure(p, t, n), moves_measure(g, n, k),
{
    reveal_with_fuel(frontier_from, 1);
    lemma_moves_of(p, t, g, n);
    if k < 0 {
        if blk.contains((t as usize, n)) {
            lemma_frontier_keys(p, t, g, blk, n, moves_of(g, n).len() as int);
            assert(frontier_from(p, t, g, blk, n, k) == frontier_from(p, t, g, blk, n, moves_of(g, n).len() as int));
        } else {
            assert(frontier_from(p, t, g, blk, n, k) == set![n]);
            assert forall|o: NodeV| #[trigger] frontier_from(p, t, g, blk, n, k).contains(o) implies key_in(g, o) by {
                assert(o == n);
            }
        }
    } else if k > 0 {
        lemma_frontier_keys(p, t, g, blk, n, k - 1);
        let tn = moves_of(g, n)[k - 1].0;
        assert(key_in(g, tn));
        if tn.len() > 0 {
            assert(succs(p[t], n).contains(moves_of(g, n)[k - 1]));
            lemma_succ_rank(p, t, n, moves_of(g, n)[k - 1]);
        }
        lemma_frontier_keys(p, t, g, blk, tn, -1);
        assert(frontier_from(p, t, g, blk, n, k) == frontier_from(p, t, g, blk, n, k - 1).union(frontier_from(p, t, g, blk, tn, -1)));
        assert forall|o: NodeV| #[trigger] frontier_from(p, t, g, blk, n, k).contains(o) implies key_in(g, o) by {
            if frontier_from(p, t, g, blk, n, k - 1).contains(o) {
            } else {
                assert(frontier_from(p, t, g, blk, tn, -1).contains(o));
            }
        }
    } else {
        assert(frontier_from(p, t, g, blk, n, k) == Set::<NodeV>::empty());
    }
}

/// A non-empty node blocks its own front route.
proof fn lemma_blocks_front(tr: TrainView, node: NodeV)
    requires
        node.len() > 0,
    ensures
        blocked_routes(tr, node).contains(node.last()),
{
    let r = rdata(tr, node[node.len() - 1]);
    let a = r.unconditional_conflicts.push(node.last());
    let rem = rdata(tr, node.last()).train_length as int;
    let b = blocked_routes(tr, node);
    assert(b == blocked_from(tr, node, node.len() as int, rem));
    assert(a[a.len() - 1] == node.last());
    let plain = r.route_length - r.switch_length;
    let rem1 = if rem > plain { rem - plain } else { 0 };
    if rem1 == 0 {
        assert(b == a);
    } else {
        let c = a + r.allocation_conflicts;
        let rem2 = if rem1 > r.switch_length { rem1 - r.switch_length } else { 0 };
        assert(c[a.len() - 1] == node.last());
        if rem2 == 0 {
            assert(b == c);
        } else {
            assert(b == c + blocked_from(tr, node, node.len() - 1, rem2));
            assert(b[a.len() - 1] == node.last());
        }
    }
}

/// The entry list of route `r`: those pairs are what the map lists under `r`.
proof fn lemma_blk_of(bm: BlockMapV, r: Seq<char>, k: int)
    requires
        bmap_wf(bm),
        0 <= k < bm.len(),
        bm[k].0 == r,
    ensures
        blk_of(bm, r) == bm[k].1,
        forall|t: usize, n: NodeV| #[trigger] listed(bm, r, t, n) == blk_of(bm, r).contains((t, n)),
{
    lemma_first_match(bm, entry_named(r));
    assert(entry_named(r)(bm[k]));
    let f = first_match(bm, entry_named(r))->0;
    if f != k {
        assert(bm[f].0 == bm[k].0);
    }
    assert forall|t: usize, n: NodeV| #[trigger] listed(bm, r, t, n) == blk_of(bm, r).contains((t, n)) by {
        if listed(bm, r, t, n) {
            let j = choose|j: int| 0 <= j < bm.len() && (#[trigger] bm[j]).0 == r && bm[j].1.contains((t, n));
            if j != k {
                assert(bm[j].0 == bm[k].0);
            }
        }
    }
}

/// The entry of route `r` in a block map, if it has one.
fn find_entry(bm: &BlockMap, r: &String) -> (res: Option<usize>)
    ensures
        match res {
            Some(k) => k < bm@.len() && bmap_view(bm@)[k as int].0 == r@,
            None => forall|k: int| 0 <= k < bm@.len() ==> (#[trigger] bmap_view(bm@)[k]).0 != r@,
        },
{
    let ghost b = bmap_view(bm@);
    let mut k: usize = 0;
    while k < bm.len()
        invariant
            k <= bm.len(),
            b == bmap_view(bm@),
            forall|j: int| 0 <= j < k ==> (#[trigger] b[j]).0 != r@,
        decreases bm.len() - k,
    {
        assert(b[k as int].0 == bm@[k as int].0@);
        if str_eq(bm[k].0.as_str(), r.as_str()) {
            return Some(k);
        }
        k += 1;
    }
    None
}

/// In schedule `r`, every node a train does not pass through has an entry
/// time before that of every node passed through.
pub open spec fn tidy(r: DiffModel, nv: Seq<Vec<(BLit, usize)>>) -> bool {
    forall|t: int, i: int, u: int, j: int|
        0 <= t < nv.len() && 0 <= i < nv[t]@.len() && 0 <= u < nv.len() && 0 <= j < nv[u]@.len() && !#[trigger] on(r, nv, t, i)
            && #[trigger] on(r, nv, u, j) ==> time(r, nv, t, i) < time(r, nv, u, j)
}

/// In model `m`, where `first` is true, train `ta` is in each of the nodes
/// `av` it passes through (in the node, where there is only one) before
/// train `tb` enters node `ib`.
pub open spec fn prec_ok(
    m: DiffModel,
    first: BLit,
    nv: Seq<Vec<(BLit, usize)>>,
    ta: int,
    ga: GraphV,
    av: Seq<NodeV>,
    tb: int,
    ib: int,
) -> bool {
    lit_value(m, first) ==> forall|o: NodeV|
        #[trigger] av.contains(o) && (on(m, nv, ta, idx_of(ga, o)) || av.len() == 1) ==> time(m, nv, ta, idx_of(ga, o)) < time(
            m,
            nv,
            tb,
            ib,
        )
}

/// `m` with the literals that `add_precedence` introduces (from `base` on,
/// three commands apart) set as the schedule has them: true where `first`
/// is and the train passes through the node.
pub open spec fn prec_witness(
    m: DiffModel,
    first: BLit,
    nv: Seq<Vec<(BLit, usize)>>,
    ta: int,
    ga: GraphV,
    av: Seq<NodeV>,
    base: int,
) -> DiffModel {
    DiffModel {
        bools: Seq::new(
            (base + 3 * av.len()) as nat,
            |v: int|
                if v < base {
                    bval(m, v)
                } else {
                    lit_value(m, first) && (v - base) / 3 < av.len() && on(m, nv, ta, idx_of(ga, av[(v - base) / 3]))
                },
        ),
        ints: m.ints,
    }
}

/// Adds "where `first` is true, wherever train `ta` is in one of the nodes
/// `alts` (passing through it), it is there before train `tb` enters node `ib`".
/// Every model in which that holds extends to one of the new commands.
fn add_precedence(
    s: &mut DiffInstance,
    graphs: &Vec<Graph>,
    nv: &NodeVars,
    ta: usize,
    alts: &Vec<Vec<String>>,
    first: BLit,
    tb: usize,
    ib: usize,
)
    requires
        ta < graphs@.len(),
        tb < graphs@.len(),
        vars_shape(graphs_view(graphs@), nv@),
        ib < graphs@[tb as int]@.len(),
        forall|o: NodeV| #[trigger] nodes_view(alts@).contains(o) ==> key_in(graphs_view(graphs@)[ta as int], o),
        forall|i: int, j: int|
            0 <= i < j < graphs_view(graphs@)[ta as int].len() ==> (#[trigger] graphs_view(graphs@)[ta as int][i]).0
                != (#[trigger] graphs_view(graphs@)[ta as int][j]).0,
        scoped(old(s)@),
        node_vars_below(nv@, old(s)@.len() as int),
        first.var < old(s)@.len(),
    ensures
        diff_extends(final(s)@, old(s)@),
        scoped(final(s)@),
        forall|m: DiffModel|
            diff_meets(m, final(s)@) && lit_value(m, first) ==> forall|o: NodeV|
                #[trigger] nodes_view(alts@).contains(o) && on(m, nv@, ta as int, idx_of(graphs_view(graphs@)[ta as int], o))
                    ==> time(m, nv@, ta as int, idx_of(graphs_view(graphs@)[ta as int], o)) < time(m, nv@, tb as int, ib as int),
        forall|m: DiffModel|
            diff_meets(m, old(s)@) && #[trigger] prec_ok(m, first, nv@, ta as int, graphs_view(graphs@)[ta as int], nodes_view(alts@), tb as int, ib as int)
                ==> exists|m2: DiffModel| #[trigger] diff_meets(m2, final(s)@) && same_below(m, m2, old(s)@.len() as int),
{
    let ghost gs = graphs_view(graphs@);
    let ghost ga = gs[ta as int];
    let ghost av = nodes_view(alts@);
    let ghost base = s@.len() as int;
    let g = &graphs[ta];
    assert(ga == graph_view(g@));
    assert(nv@[tb as int]@.len() == gs[tb as int].len());
    assert(nv@[ta as int]@.len() == ga.len());
    let time_b = nv[tb][ib].1;
    assert(time_b < base);
    let ghost single = alts@.len() == 1;
    let ghost hyp = |m: DiffModel| diff_meets(m, old(s)@) && prec_ok(m, first, nv@, ta as int, ga, av, tb as int, ib as int);
    let ghost wit = |m: DiffModel| prec_witness(m, first, nv@, ta as int, ga, av, base);
    proof {
        lemma_diff_extends_refl(s@);
        assert forall|m: DiffModel| #[trigger] hyp(m) implies diff_meets(wit(m), s@) && same_below(m, wit(m), base) by {
            let w = wit(m);
            assert(w == prec_witness(m, first, nv@, ta as int, ga, av, base));
            assert forall|v: int| 0 <= v < base implies #[trigger] bval(m, v) == bval(w, v) by {}
            assert forall|v: int| 0 <= v < base implies #[trigger] ival(m, v) == ival(w, v) by {}
            lemma_same_below_meets(m, w, old(s)@);
        }
    }
    let mut k: usize = 0;
    while k < alts.len()
        invariant
            k <= alts.len(),
            ta < graphs@.len(),
            tb < graphs@.len(),
            gs == graphs_view(graphs@),
            ga == gs[ta as int],
            ga == graph_view(g@),
            g == graphs@[ta as int],
            av == nodes_view(alts@),
            single == (alts@.len() == 1),
            vars_shape(gs, nv@),
            nv@[ta as int]@.len() == ga.len(),
            ib < gs[tb as int].len(),
            time_b == nv@[tb as int]@[ib as int].1,
            time_b < base,
            base == old(s)@.len(),
            first.var < base,
            node_vars_below(nv@, base),
            forall|o: NodeV| #[trigger] av.contains(o) ==> key_in(ga, o),
            forall|i: int, j: int| 0 <= i < j < ga.len() ==> (#[trigger] ga[i]).0 != (#[trigger] ga[j]).0,
            diff_extends(s@, old(s)@),
            scoped(s@),
            s@.len() == base + (if single { k as int } else { 3 * k }),
            forall|m: DiffModel| #[trigger] wit(m) == prec_witness(m, first, nv@, ta as int, ga, av, base),
            forall|m: DiffModel| #[trigger] hyp(m) == (diff_meets(m, old(s)@) && prec_ok(m, first, nv@, ta as int, ga, av, tb as int, ib as int)),
            forall|m: DiffModel| #[trigger] hyp(m) ==> diff_meets(wit(m), s@) && same_below(m, wit(m), base),
            forall|m: DiffModel|
                diff_meets(m, s@) && lit_value(m, first) ==> forall|kk: int|
                    0 <= kk < k && on(m, nv@, ta as int, idx_of(ga, #[trigger] av[kk])) ==> time(
                        m,
                        nv@,
                        ta as int,
                        idx_of(ga, av[kk]),
                    ) < time(m, nv@, tb as int, ib as int),
        decreases alts.len() - k,
    {
        assert(av[k as int] == names_view(alts@[k as int]@));
        assert(av.contains(av[k as int]));
        let oi = find_node(g, &alts[k]).unwrap();
        proof {
            lemma_first_match(ga, node_named(av[k as int]));
            assert(node_named(av[k as int])(ga[oi as int]));
            let f = first_match(ga, node_named(av[k as int]))->0;
            if f != oi as int {
                assert(ga[f].0 == ga[oi as int].0);
            }
            assert(idx_of(ga, av[k as int]) == oi);
        }
        let (on_o, time_o) = nv[ta][oi];
        assert(on_o.var < base && time_o < base);
        let ghost s0 = s@;
        let use_prec = if alts.len() == 1 {
            proof {
                lemma_diff_extends_refl(s@);
            }
            first
        } else {
            let v = s.new_bool();
            let ghost s1 = s@;
            let mut c: Vec<BLit> = Vec::new();
            c.push(neg(first));
            c.push(neg(on_o));
            c.push(v);
            let ghost cv = c@;
            s.add_clause(c);
            proof {
                lemma_diff_extends_push(s0, DiffCommandView::NewBool);
                lemma_diff_extends_push(s1, DiffCommandView::Clause { lits: cv });
                lemma_diff_extends_trans(s@, s1, s0);
                lemma_scoped_push(s0, DiffCommandView::NewBool);
                assert forall|w: int| 0 <= w < cv.len() implies (#[trigger] cv[w]).var < s1.len() by {}
                lemma_scoped_push(s1, DiffCommandView::Clause { lits: cv });
                assert forall|m: DiffModel| diff_meets(m, s@) && lit_value(m, first) && lit_value(m, on_o) implies lit_value(m, v) by {
                    lemma_diff_meets_last(m, s1, DiffCommandView::Clause { lits: cv });
                    let w = choose|w: int| 0 <= w < cv.len() && lit_value(m, #[trigger] cv[w]);
                    assert(w == 0 || w == 1 || w == 2);
                }
                assert(v.var == base + 3 * k);
                assert forall|m: DiffModel| #[trigger] hyp(m) implies diff_meets(wit(m), s@) && same_below(m, wit(m), base) by {
                    let w = wit(m);
                    assert((3 * k as int) / 3 == k) by (nonlinear_arith);
                    assert(w.bools[base + 3 * k] == (lit_value(m, first) && on(m, nv@, ta as int, idx_of(ga, av[k as int]))));
                    assert(bval(w, v.var as int) == (lit_value(m, first) && on(m, nv@, ta as int, oi as int)));
                    lemma_same_below_lit(m, w, base, first);
                    lemma_same_below_lit(m, w, base, on_o);
                    lemma_diff_meets_push(w, s0, DiffCommandView::NewBool);
                    assert(cv[0] == (BLit { var: first.var, positive: !first.positive }));
                    assert(cv[1] == (BLit { var: on_o.var, positive: !on_o.positive }));
                    assert(cv[2] == v);
                    if !lit_value(w, first) {
                        lemma_clause_holds(w, cv, 0);
                    } else if !lit_value(w, on_o) {
                        lemma_clause_holds(w, cv, 1);
                    } else {
                        lemma_clause_holds(w, cv, 2);
                    }
                    lemma_diff_meets_push(w, s1, DiffCommandView::Clause { lits: cv });
                }
            }
            v
        };
        assert(single ==> use_prec == first);
        assert(!single ==> use_prec.var == base + 3 * k && use_prec.positive);
        let ghost s2 = s@;
        let ghost dc = DiffCommandView::Diff { cond: Some(use_prec), x: time_o, y: time_b, k: -1i64 };
        s.add_diff(Some(use_prec), time_o, time_b, -1);
        proof {
            lemma_diff_extends_push(s2, dc);
            lemma_diff_extends_trans(s@, s2, s0);
            lemma_diff_extends_trans(s@, s0, old(s)@);
            lemma_scoped_push(s2, dc);
            assert forall|m: DiffModel| #[trigger] hyp(m) implies diff_meets(wit(m), s@) && same_below(m, wit(m), base) by {
                let w = wit(m);
                assert(w.ints == m.ints);
                assert(int_value(w, time_o) == int_value(m, time_o));
                assert(int_value(w, time_b) == int_value(m, time_b));
                lemma_same_below_lit(m, w, base, first);
                assert(hyp(m));
                assert(prec_ok(m, first, nv@, ta as int, ga, av, tb as int, ib as int));
                assert(time(m, nv@, ta as int, oi as int) == int_value(m, time_o));
                assert(time(m, nv@, tb as int, ib as int) == int_value(m, time_b));
                assert(idx_of(ga, av[k as int]) == oi);
                if lit_value(w, use_prec) {
                    if single {
                        assert(use_prec == first);
                    } else {
                        assert((3 * k as int) / 3 == k) by (nonlinear_arith);
                        assert(bval(w, base + 3 * k) == (lit_value(m, first) && on(m, nv@, ta as int, idx_of(ga, av[k as int]))));
                        lemma_same_below_lit(m, w, base, on_o);
                    }
                    assert(on(m, nv@, ta as int, oi as int) == lit_value(m, on_o));
                    assert(av.contains(av[k as int]));
                    assert(lit_value(m, first));
                    assert(on(m, nv@, ta as int, idx_of(ga, av[k as int])) || av.len() == 1);
                    assert(time(m, nv@, ta as int, idx_of(ga, av[k as int])) < time(m, nv@, tb as int, ib as int));
                }
                assert(diff_holds(w, dc));
                lemma_diff_meets_push(w, s2, dc);
            }
            assert forall|m: DiffModel| diff_meets(m, s@) && lit_value(m, first) implies forall|kk: int|
                0 <= kk < k + 1 && on(m, nv@, ta as int, idx_of(ga, #[trigger] av[kk])) ==> time(
                    m,
                    nv@,
                    ta as int,
                    idx_of(ga, av[kk]),
                ) < time(m, nv@, tb as int, ib as int) by {
                lemma_diff_meets_last(m, s2, dc);
                lemma_diff_meets_prefix(m, s2, s0);
                lemma_diff_meets_prefix(m, s0, old(s)@);
            }
        }
        k += 1;
    }
    proof {
        assert forall|m: DiffModel| diff_meets(m, s@) && lit_value(m, first) implies forall|o: NodeV|
            #[trigger] av.contains(o) && on(m, nv@, ta as int, idx_of(ga, o)) ==> time(m, nv@, ta as int, idx_of(ga, o)) < time(
                m,
                nv@,
                tb as int,
                ib as int,
            ) by {
            assert forall|o: NodeV| #[trigger] av.contains(o) && on(m, nv@, ta as int, idx_of(ga, o)) implies time(
                m,
                nv@,
                ta as int,
                idx_of(ga, o),
            ) < time(m, nv@, tb as int, ib as int) by {
                let w = choose|w: int| 0 <= w < av.len() && av[w] == o;
                assert(on(m, nv@, ta as int, idx_of(ga, av[w])));
            }
        }
        assert forall|m: DiffModel|
            diff_meets(m, old(s)@) && #[trigger] prec_ok(m, first, nv@, ta as int, ga, av, tb as int, ib as int)
                implies exists|m2: DiffModel| #[trigger] diff_meets(m2, s@) && same_below(m, m2, base) by {
            assert(hyp(m));
            assert(diff_meets(wit(m), s@));
        }
    }
}

/// No train in its initial node blocks the front route of another train's
/// initial node.
pub open spec fn initials_free(p: Seq<TrainView>, gs: Seq<GraphV>) -> bool {
    forall|t1: int, t2: int|
        0 <= t1 < gs.len() && 0 <= t2 < gs.len() && t1 != t2 ==> !(#[trigger] blocked_routes(p[t2], gs[t2][0].0)).contains(
            (#[trigger] gs[t1][0]).0.last(),
        )
}

/// The block map lists exactly the blocking (train, node) pairs.
pub open spec fn bmap_exact(p: Seq<TrainView>, gs: Seq<GraphV>, bm: BlockMapV) -> bool {
    &&& bmap_wf(bm)
    &&& forall|r: Seq<char>, t: usize, n: NodeV| #[trigger] listed(bm, r, t, n) == blocks(p, gs, r, t as int, n)
}

/// Adds the resolution of one conflict: two precedence literals, at least
/// one of them where both trains pass through their nodes, each ordering
/// the nodes where its train stops blocking before the other train's node.
fn add_conflict(
    s: &mut DiffInstance,
    problem: &Problem,
    graphs: &Vec<Graph>,
    bm: &BlockMap,
    nv: &NodeVars,
    t1: usize,
    i1: usize,
    t2: usize,
    n2: &Vec<String>,
)
    requires
        graphs_ok(problem@, graphs_view(graphs@)),
        vars_shape(graphs_view(graphs@), nv@),
        bmap_exact(problem@, graphs_view(graphs@), bmap_view(bm@)),
        initials_free(problem@, graphs_view(graphs@)),
        conflict(graphs_view(graphs@), bmap_view(bm@), t1 as int, i1 as int, t2 as int, names_view(n2@)),
        scoped(old(s)@),
        node_vars_below(nv@, old(s)@.len() as int),
    ensures
        diff_extends(final(s)@, old(s)@),
        scoped(final(s)@),
        forall|m: DiffModel, r: DiffModel|
            diff_meets(m, old(s)@) && #[trigger] agree_nodes(m, r, nv@) && tidy(r, nv@) && ordered(
                r,
                problem@,
                graphs_view(graphs@),
                bmap_view(bm@),
                nv@,
                t1 as int,
                i1 as int,
                t2 as int,
                names_view(n2@),
            ) ==> exists|m2: DiffModel| #[trigger] diff_meets(m2, final(s)@) && same_below(m, m2, old(s)@.len() as int),
        forall|m: DiffModel|
            diff_meets(m, final(s)@) ==> ordered(
                m,
                problem@,
                graphs_view(graphs@),
                bmap_view(bm@),
                nv@,
                t1 as int,
                i1 as int,
                t2 as int,
                names_view(n2@),
            ),
{
    let ghost p = problem@;
    let ghost gs = graphs_view(graphs@);
    let ghost bmv = bmap_view(bm@);
    let ghost n2v = names_view(n2@);
    let g1 = &graphs[t1];
    assert(gs[t1 as int] == graph_view(g1@));
    let ghost n1v = gs[t1 as int][i1 as int].0;
    assert(n1v == names_view(g1@[i1 as int].0@));
    let e1 = &g1[i1].0[g1[i1].0.len() - 1];
    assert(e1@ == n1v.last());
    assert(blocks(p, gs, n1v.last(), t2 as int, n2v));
    assert(t2 < graphs@.len());
    let g2 = &graphs[t2];
    assert(gs[t2 as int] == graph_view(g2@));
    assert(closed_graph(p, t1 as int, gs[t1 as int]));
    assert(closed_graph(p, t2 as int, gs[t2 as int]));
    let e2 = &n2[n2.len() - 1];
    assert(e2@ == n2v.last());
    proof {
        lemma_blocks_front(p[t2 as int], n2v);
        assert(blocks(p, gs, n2v.last(), t2 as int, n2v));
        assert(listed(bmv, n2v.last(), t2, n2v));
    }
    let k1 = find_entry(bm, e1).unwrap();
    let k2 = find_entry(bm, e2).unwrap();
    proof {
        lemma_blk_of(bmv, n1v.last(), k1 as int);
        lemma_blk_of(bmv, n2v.last(), k2 as int);
        assert(bmv[k1 as int].1 == pairs_view(bm@[k1 as int].1@));
        assert(bmv[k2 as int].1 == pairs_view(bm@[k2 as int].1@));
    }
    let i2 = find_node(g2, n2).unwrap();
    proof {
        lemma_idx_of(p[t2 as int], gs[t2 as int], i2 as int);
        if i1 == 0 && i2 == 0 {
            assert(gs[t2 as int][0].0 == n2v);
            assert(blocked_routes(p[t2 as int], gs[t2 as int][0].0).contains(gs[t1 as int][0].0.last()));
        }
    }
    let alts2 = advance_until_stops_blocking(problem, t2, g2, &bm[k1].1, i2);
    let alts1 = advance_until_stops_blocking(problem, t1, g1, &bm[k2].1, i1);
    proof {
        lemma_frontier_keys(p, t2 as int, gs[t2 as int], blk_of(bmv, n1v.last()), n2v, -1);
        lemma_frontier_keys(p, t1 as int, gs[t1 as int], blk_of(bmv, n2v.last()), n1v, -1);
    }
    let ghost s0 = s@;
    let ghost base = s0.len() as int;
    let t1_first = s.new_bool();
    let t2_first = s.new_bool();
    let ghost s1 = s@;
    proof {
        lemma_diff_extends_push(s0, DiffCommandView::NewBool);
        lemma_diff_extends_push(s0.push(DiffCommandView::NewBool), DiffCommandView::NewBool);
        lemma_diff_extends_trans(s1, s0.push(DiffCommandView::NewBool), s0);
        lemma_scoped_push(s0, DiffCommandView::NewBool);
        lemma_scoped_push(s0.push(DiffCommandView::NewBool), DiffCommandView::NewBool);
        assert(s1 == s0.push(DiffCommandView::NewBool).push(DiffCommandView::NewBool));
    }
    if i1 == 0 {
        let mut c: Vec<BLit> = Vec::new();
        c.push(neg(t2_first));
        let ghost cv = c@;
        s.add_clause(c);
        proof {
            lemma_diff_extends_push(s1, DiffCommandView::Clause { lits: cv });
            assert forall|w: int| 0 <= w < cv.len() implies (#[trigger] cv[w]).var < s1.len() by {}
            lemma_scoped_push(s1, DiffCommandView::Clause { lits: cv });
            assert forall|m: DiffModel| diff_meets(m, s@) implies !lit_value(m, t2_first) by {
                lemma_diff_meets_last(m, s1, DiffCommandView::Clause { lits: cv });
                let w = choose|w: int| 0 <= w < cv.len() && lit_value(m, #[trigger] cv[w]);
                assert(w == 0);
            }
        }
    } else if i2 == 0 {
        let mut c: Vec<BLit> = Vec::new();
        c.push(neg(t1_first));
        let ghost cv = c@;
        s.add_clause(c);
        proof {
            lemma_diff_extends_push(s1, DiffCommandView::Clause { lits: cv });
            assert forall|w: int| 0 <= w < cv.len() implies (#[trigger] cv[w]).var < s1.len() by {}
            lemma_scoped_push(s1, DiffCommandView::Clause { lits: cv });
            assert forall|m: DiffModel| diff_meets(m, s@) implies !lit_value(m, t1_first) by {
                lemma_diff_meets_last(m, s1, DiffCommandView::Clause { lits: cv });
                let w = choose|w: int| 0 <= w < cv.len() && lit_value(m, #[trigger] cv[w]);
                assert(w == 0);
            }
        }
    } else {
        proof {
            lemma_diff_extends_refl(s@);
        }
    }
    let ghost s2 = s@;
    proof {
        assert forall|i: int, j: int| 0 <= i < j < gs[t2 as int].len() implies (#[trigger] gs[t2 as int][i]).0 != (#[trigger] gs[t2 as int][j]).0 by {}
        assert forall|i: int, j: int| 0 <= i < j < gs[t1 as int].len() implies (#[trigger] gs[t1 as int][i]).0 != (#[trigger] gs[t1 as int][j]).0 by {}
        assert(nv@[t1 as int]@.len() == gs[t1 as int].len());
        assert(nv@[t2 as int]@.len() == gs[t2 as int].len());
        lemma_node_vars_below_mono(nv@, base, s2.len() as int);
    }
    add_precedence(s, graphs, nv, t2, &alts2, t2_first, t1, i1);
    let ghost s3 = s@;
    proof {
        lemma_node_vars_below_mono(nv@, base, s3.len() as int);
    }
    add_precedence(s, graphs, nv, t1, &alts1, t1_first, t2, i2);
    let ghost s4 = s@;
    let (on1, _x1) = nv[t1][i1];
    let (on2, _x2) = nv[t2][i2];
    let mut c: Vec<BLit> = Vec::new();
    c.push(neg(on1));
    c.push(neg(on2));
    c.push(t1_first);
    c.push(t2_first);
    let ghost cv = c@;
    s.add_clause(c);
    proof {
        lemma_diff_extends_push(s4, DiffCommandView::Clause { lits: cv });
        assert forall|w: int| 0 <= w < cv.len() implies (#[trigger] cv[w]).var < s4.len() by {}
        lemma_scoped_push(s4, DiffCommandView::Clause { lits: cv });
        lemma_diff_extends_trans(s4, s3, s2);
        lemma_diff_extends_trans(s@, s4, s2);
        lemma_diff_extends_trans(s2, s1, s0);
        lemma_diff_extends_trans(s@, s2, s0);
        assert forall|m: DiffModel| diff_meets(m, s@) implies ordered(m, p, gs, bmv, nv@, t1 as int, i1 as int, t2 as int, n2v) by {
            lemma_diff_meets_last(m, s4, DiffCommandView::Clause { lits: cv });
            lemma_diff_meets_prefix(m, s4, s3);
            lemma_diff_meets_prefix(m, s3, s2);
            lemma_diff_meets_prefix(m, s2, s1);
            assert(idx_of(gs[t2 as int], n2v) == i2);
            let t2f = goes_first(m, p, gs, bmv, nv@, t2 as int, n1v.last(), n2v, t1 as int, i1 as int);
            let t1f = goes_first(m, p, gs, bmv, nv@, t1 as int, n2v.last(), n1v, t2 as int, i2 as int);
            if lit_value(m, t2_first) {
                assert forall|o: NodeV| #[trigger] frontier(p, t2 as int, gs[t2 as int], blk_of(bmv, n1v.last()), n2v).contains(o) && on(
                    m, nv@, t2 as int, idx_of(gs[t2 as int], o)) implies time(m, nv@, t2 as int, idx_of(gs[t2 as int], o)) < time(
                    m, nv@, t1 as int, i1 as int) by {
                    assert(nodes_view(alts2@).contains(o));
                }
                assert(t2f);
            }
            if lit_value(m, t1_first) {
                assert forall|o: NodeV| #[trigger] frontier(p, t1 as int, gs[t1 as int], blk_of(bmv, n2v.last()), n1v).contains(o) && on(
                    m, nv@, t1 as int, idx_of(gs[t1 as int], o)) implies time(m, nv@, t1 as int, idx_of(gs[t1 as int], o)) < time(
                    m, nv@, t2 as int, i2 as int) by {
                    assert(nodes_view(alts1@).contains(o));
                }
                assert(t1f);
            }
            if on(m, nv@, t1 as int, i1 as int) && on(m, nv@, t2 as int, i2 as int) {
                let w = choose|w: int| 0 <= w < cv.len() && lit_value(m, #[trigger] cv[w]);
                assert(w == 0 || w == 1 || w == 2 || w == 3);
            }
        }
    }
    proof {
        let ghost fin = s@;
        assert forall|m: DiffModel, r: DiffModel|
            diff_meets(m, s0) && #[trigger] agree_nodes(m, r, nv@) && tidy(r, nv@) && ordered(r, p, gs, bmv, nv@, t1 as int, i1 as int, t2 as int, n2v)
                implies exists|m2: DiffModel| #[trigger] diff_meets(m2, fin) && same_below(m, m2, base) by {
            let i2i = i2 as int;
            assert(idx_of(gs[t2 as int], n2v) == i2i);
            let on1r = on(r, nv@, t1 as int, i1 as int);
            let on2r = on(r, nv@, t2 as int, i2i);
            let t2f = goes_first(r, p, gs, bmv, nv@, t2 as int, n1v.last(), n2v, t1 as int, i1 as int);
            let t1f = goes_first(r, p, gs, bmv, nv@, t1 as int, n2v.last(), n1v, t2 as int, i2i);
            let v1 = on1r && on2r && t1f && !(i2 == 0 && i1 != 0);
            let v2 = on1r && on2r && t2f && i1 != 0;
            let ma0 = with_bool(m, base, v1);
            let ma = with_bool(ma0, base + 1, v2);
            lemma_with_bool(m, base, v1);
            lemma_with_bool(ma0, base + 1, v2);
            lemma_same_below_weaken(ma0, ma, base + 1, base);
            lemma_same_below_trans(m, ma0, ma, base);
            assert(bval(ma, base) == v1);
            assert(bval(ma, base + 1) == v2);
            lemma_same_below_meets(m, ma, s0);
            lemma_diff_meets_push(ma, s0, DiffCommandView::NewBool);
            lemma_diff_meets_push(ma, s0.push(DiffCommandView::NewBool), DiffCommandView::NewBool);
            assert(diff_meets(ma, s1));
            assert(lit_value(ma, t1_first) == v1);
            assert(lit_value(ma, t2_first) == v2);
            // the unit clause, where there is one
            if i1 == 0 {
                let cv = seq![BLit { var: t2_first.var, positive: !t2_first.positive }];
                assert(s2 == s1.push(DiffCommandView::Clause { lits: cv }));
                lemma_clause_holds(ma, cv, 0);
                lemma_diff_meets_push(ma, s1, DiffCommandView::Clause { lits: cv });
            } else if i2 == 0 {
                let cv = seq![BLit { var: t1_first.var, positive: !t1_first.positive }];
                assert(s2 == s1.push(DiffCommandView::Clause { lits: cv }));
                lemma_clause_holds(ma, cv, 0);
                lemma_diff_meets_push(ma, s1, DiffCommandView::Clause { lits: cv });
            } else {
                assert(s2 == s1);
            }
            assert(diff_meets(ma, s2));
            lemma_agree_step(m, ma, r, nv@, base);
            // the precedence of train t2 over train t1
            let a2 = nodes_view(alts2@);
            let g2v = gs[t2 as int];
            assert forall|o: NodeV| lit_value(ma, t2_first) && #[trigger] a2.contains(o) && (on(ma, nv@, t2 as int, idx_of(g2v, o)) || a2.len() == 1)
                implies time(ma, nv@, t2 as int, idx_of(g2v, o)) < time(ma, nv@, t1 as int, i1 as int) by {
                assert(nv@[t2 as int]@.len() == gs[t2 as int].len() && nv@[t1 as int]@.len() == gs[t1 as int].len());
                {
                    assert(frontier(p, t2 as int, gs[t2 as int], blk_of(bmv, n1v.last()), n2v).contains(o));
                    assert(key_in(g2v, o));
                    lemma_idx_in(g2v, o);
                    let io = idx_of(g2v, o);
                    assert(on(ma, nv@, t2 as int, io) == on(r, nv@, t2 as int, io));
                    assert(on(ma, nv@, t1 as int, i1 as int) == on(r, nv@, t1 as int, i1 as int));
                    assert(time(ma, nv@, t2 as int, io) == time(r, nv@, t2 as int, io));
                    assert(time(ma, nv@, t1 as int, i1 as int) == time(r, nv@, t1 as int, i1 as int));
                    if !on(r, nv@, t2 as int, io) {
                        assert(on1r);
                    } else {
                        assert(t2f);
                    }
                }
            }
            assert(prec_ok(ma, t2_first, nv@, t2 as int, g2v, a2, t1 as int, i1 as int));
            let mb = choose|mb: DiffModel| #[trigger] diff_meets(mb, s3) && same_below(ma, mb, s2.len() as int);
            lemma_node_vars_below_mono(nv@, base, s2.len() as int);
            lemma_agree_step(ma, mb, r, nv@, s2.len() as int);
            lemma_same_below_lit(ma, mb, s2.len() as int, t1_first);
            lemma_same_below_lit(ma, mb, s2.len() as int, t2_first);
            // the precedence of train t1 over train t2
            let a1 = nodes_view(alts1@);
            let g1v = gs[t1 as int];
            assert forall|o: NodeV| lit_value(mb, t1_first) && #[trigger] a1.contains(o) && (on(mb, nv@, t1 as int, idx_of(g1v, o)) || a1.len() == 1)
                implies time(mb, nv@, t1 as int, idx_of(g1v, o)) < time(mb, nv@, t2 as int, i2i) by {
                assert(nv@[t2 as int]@.len() == gs[t2 as int].len() && nv@[t1 as int]@.len() == gs[t1 as int].len());
                {
                    assert(frontier(p, t1 as int, gs[t1 as int], blk_of(bmv, n2v.last()), n1v).contains(o));
                    assert(key_in(g1v, o));
                    lemma_idx_in(g1v, o);
                    let io = idx_of(g1v, o);
                    assert(on(mb, nv@, t1 as int, io) == on(r, nv@, t1 as int, io));
                    assert(on(mb, nv@, t2 as int, i2i) == on(r, nv@, t2 as int, i2i));
                    assert(time(mb, nv@, t1 as int, io) == time(r, nv@, t1 as int, io));
                    assert(time(mb, nv@, t2 as int, i2i) == time(r, nv@, t2 as int, i2i));
                    if !on(r, nv@, t1 as int, io) {
                        assert(on2r);
                    } else {
                        assert(t1f);
                    }
                }
            }
            assert(prec_ok(mb, t1_first, nv@, t1 as int, g1v, a1, t2 as int, i2i));
            let mc = choose|mc: DiffModel| #[trigger] diff_meets(mc, s4) && same_below(mb, mc, s3.len() as int);
            lemma_node_vars_below_mono(nv@, base, s3.len() as int);
            lemma_agree_step(mb, mc, r, nv@, s3.len() as int);
            lemma_same_below_lit(mb, mc, s3.len() as int, t1_first);
            lemma_same_below_lit(mb, mc, s3.len() as int, t2_first);
            // the final clause
            assert(cv[0] == (BLit { var: on1.var, positive: !on1.positive }));
            assert(cv[1] == (BLit { var: on2.var, positive: !on2.positive }));
            assert(cv[2] == t1_first && cv[3] == t2_first);
            assert(nv@[t2 as int]@.len() == gs[t2 as int].len() && nv@[t1 as int]@.len() == gs[t1 as int].len());
            assert(on1 == nv@[t1 as int]@[i1 as int].0 && on2 == nv@[t2 as int]@[i2i].0);
            assert(on(mc, nv@, t1 as int, i1 as int) == on1r);
            assert(on(mc, nv@, t2 as int, i2i) == on2r);
            assert(lit_value(mc, on1) == on1r);
            assert(lit_value(mc, on2) == on2r);
            if !on1r {
                lemma_clause_holds(mc, cv, 0);
            } else if !on2r {
                lemma_clause_holds(mc, cv, 1);
            } else if v1 {
                lemma_clause_holds(mc, cv, 2);
            } else {
                assert(v2);
                lemma_clause_holds(mc, cv, 3);
            }
            lemma_diff_meets_push(mc, s4, DiffCommandView::Clause { lits: cv });
            lemma_same_below_weaken(ma, mb, s2.len() as int, base);
            lemma_same_below_weaken(mb, mc, s3.len() as int, base);
            lemma_same_below_trans(m, ma, mb, base);
            lemma_same_below_trans(m, mb, mc, base);
        }
    }
}

/// In schedule `r`, every conflict between trains is resolved.
pub open spec fn all_ordered(r: DiffModel, p: Seq<TrainView>, gs: Seq<GraphV>, bm: BlockMapV, nv: Seq<Vec<(BLit, usize)>>) -> bool {
    forall|t1: int, i1: int, t2: int, n2: NodeV| conflict(gs, bm, t1, i1, t2, n2) ==> #[trigger] ordered(r, p, gs, bm, nv, t1, i1, t2, n2)
}

/// Adds the resolution of every conflict between trains.
fn add_conflicts(s: &mut DiffInstance, problem: &Problem, graphs: &Vec<Graph>, bm: &BlockMap, nv: &NodeVars)
    requires
        graphs_ok(problem@, graphs_view(graphs@)),
        vars_shape(graphs_view(graphs@), nv@),
        bmap_exact(problem@, graphs_view(graphs@), bmap_view(bm@)),
        initials_free(problem@, graphs_view(graphs@)),
        scoped(old(s)@),
        node_vars_below(nv@, old(s)@.len() as int),
    ensures
        diff_extends(final(s)@, old(s)@),
        scoped(final(s)@),
        extends_ordering(old(s)@, final(s)@, problem@, graphs_view(graphs@), bmap_view(bm@), nv@),
        forall|m: DiffModel|
            diff_meets(m, final(s)@) ==> forall|t1: int, i1: int, t2: int, n2: NodeV|
                conflict(graphs_view(graphs@), bmap_view(bm@), t1, i1, t2, n2) ==> #[trigger] ordered(
                    m,
                    problem@,
                    graphs_view(graphs@),
                    bmap_view(bm@),
                    nv@,
                    t1,
                    i1,
                    t2,
                    n2,
                ),
{
    let ghost p = problem@;
    let ghost gs = graphs_view(graphs@);
    let ghost bmv = bmap_view(bm@);
    proof {
        lemma_diff_extends_refl(s@);
    }
    let mut t1: usize = 0;
    while t1 < graphs.len()
        invariant
            t1 <= graphs.len(),
            p == problem@,
            gs == graphs_view(graphs@),
            bmv == bmap_view(bm@),
            graphs_ok(p, gs),
            vars_shape(gs, nv@),
            bmap_exact(p, gs, bmv),
            initials_free(p, gs),
            diff_extends(s@, old(s)@),
            scoped(s@),
            node_vars_below(nv@, old(s)@.len() as int),
            forall|m: DiffModel, r: DiffModel|
                diff_meets(m, old(s)@) && #[trigger] agree_nodes(m, r, nv@) && tidy(r, nv@) && all_ordered(r, p, gs, bmv, nv@)
                    ==> exists|m2: DiffModel| #[trigger] diff_meets(m2, s@) && same_below(m, m2, old(s)@.len() as int),
            forall|m: DiffModel|
                diff_meets(m, s@) ==> forall|u1: int, i1: int, t2: int, n2: NodeV|
                    u1 < t1 && conflict(gs, bmv, u1, i1, t2, n2) ==> #[trigger] ordered(m, p, gs, bmv, nv@, u1, i1, t2, n2),
        decreases graphs.len() - t1,
    {
        let g1 = &graphs[t1];
        assert(gs[t1 as int] == graph_view(g1@));
        let mut i1: usize = 0;
        while i1 < g1.len()
            invariant
                t1 < graphs.len(),
                i1 <= g1@.len(),
                g1 == graphs@[t1 as int],
                p == problem@,
                gs == graphs_view(graphs@),
                gs[t1 as int] == graph_view(g1@),
                bmv == bmap_view(bm@),
                graphs_ok(p, gs),
                vars_shape(gs, nv@),
                bmap_exact(p, gs, bmv),
                initials_free(p, gs),
                diff_extends(s@, old(s)@),
                scoped(s@),
                node_vars_below(nv@, old(s)@.len() as int),
                forall|m: DiffModel, r: DiffModel|
                    diff_meets(m, old(s)@) && #[trigger] agree_nodes(m, r, nv@) && tidy(r, nv@) && all_ordered(r, p, gs, bmv, nv@)
                        ==> exists|m2: DiffModel| #[trigger] diff_meets(m2, s@) && same_below(m, m2, old(s)@.len() as int),
                forall|m: DiffModel|
                    diff_meets(m, s@) ==> forall|u1: int, k1: int, t2: int, n2: NodeV|
                        (u1 < t1 || (u1 == t1 && k1 < i1)) && conflict(gs, bmv, u1, k1, t2, n2) ==> #[trigger] ordered(
                            m,
                            p,
                            gs,
                            bmv,
                            nv@,
                            u1,
                            k1,
                            t2,
                            n2,
                        ),
            decreases g1@.len() - i1,
        {
            let ghost si = s@;
            let ghost n1v = gs[t1 as int][i1 as int].0;
            assert(n1v == names_view(g1@[i1 as int].0@));
            if g1[i1].0.len() > 0 {
                let e1 = &g1[i1].0[g1[i1].0.len() - 1];
                assert(e1@ == n1v.last());
                match find_entry(bm, e1) {
                    Some(k) => {
                        proof {
                            lemma_blk_of(bmv, n1v.last(), k as int);
                        }
                        let ghost blk = bmv[k as int].1;
                        assert(blk == pairs_view(bm@[k as int].1@));
                        let mut j: usize = 0;
                        while j < bm[k].1.len()
                            invariant
                                t1 < graphs.len(),
                                i1 < g1@.len(),
                                k < bm@.len(),
                                j <= bm@[k as int].1@.len(),
                                blk == pairs_view(bm@[k as int].1@),
                                blk == blk_of(bmv, n1v.last()),
                                g1 == graphs@[t1 as int],
                                gs[t1 as int] == graph_view(g1@),
                                n1v == gs[t1 as int][i1 as int].0,
                                n1v.len() > 0,
                                p == problem@,
                                gs == graphs_view(graphs@),
                                bmv == bmap_view(bm@),
                                graphs_ok(p, gs),
                                vars_shape(gs, nv@),
                                bmap_exact(p, gs, bmv),
                                initials_free(p, gs),
                                diff_extends(s@, si),
                                diff_extends(si, old(s)@),
                            scoped(s@),
                            node_vars_below(nv@, old(s)@.len() as int),
                            forall|m: DiffModel, r: DiffModel|
                                diff_meets(m, old(s)@) && #[trigger] agree_nodes(m, r, nv@) && tidy(r, nv@) && all_ordered(r, p, gs, bmv, nv@)
                                    ==> exists|m2: DiffModel| #[trigger] diff_meets(m2, s@) && same_below(m, m2, old(s)@.len() as int),

                                forall|t2: usize, n2: NodeV| #[trigger] listed(bmv, n1v.last(), t2, n2) == blk.contains((t2, n2)),
                                forall|m: DiffModel|
                                    diff_meets(m, s@) ==> forall|jj: int|
                                        0 <= jj < j && blk[jj].0 != t1 ==> #[trigger] ordered(
                                            m,
                                            p,
                                            gs,
                                            bmv,
                                            nv@,
                                            t1 as int,
                                            i1 as int,
                                            blk[jj].0 as int,
                                            blk[jj].1,
                                        ),
                            decreases bm@[k as int].1@.len() - j,
                        {
                            let ghost sj = s@;
                            assert(blk[j as int] == pair_view(bm@[k as int].1@[j as int]));
                            let t2 = bm[k].1[j].0;
                            if t2 != t1 {
                                assert(blk.contains(blk[j as int]));
                                assert(listed(bmv, n1v.last(), t2, blk[j as int].1));
                                assert(blocks(p, gs, n1v.last(), t2 as int, blk[j as int].1));
                                proof {
                                    lemma_node_vars_below_mono(nv@, old(s)@.len() as int, sj.len() as int);
                                }
                                add_conflict(s, problem, graphs, bm, nv, t1, i1, t2, &bm[k].1[j].1);
                                proof {
                                    let n2v = names_view(bm@[k as int].1@[j as int].1@);
                                    assert(blk[j as int].1 == n2v);
                                    assert(conflict(gs, bmv, t1 as int, i1 as int, t2 as int, n2v));
                                    assert forall|m: DiffModel, r: DiffModel|
                                        diff_meets(m, old(s)@) && #[trigger] agree_nodes(m, r, nv@) && tidy(r, nv@) && all_ordered(r, p, gs, bmv, nv@)
                                            implies exists|m2: DiffModel| #[trigger] diff_meets(m2, s@) && same_below(m, m2, old(s)@.len() as int) by {
                                        let n0 = old(s)@.len() as int;
                                        let m1 = choose|m1: DiffModel| #[trigger] diff_meets(m1, sj) && same_below(m, m1, n0);
                                        lemma_agree_step(m, m1, r, nv@, n0);
                                        assert(ordered(r, p, gs, bmv, nv@, t1 as int, i1 as int, t2 as int, n2v));
                                        let m2 = choose|m2: DiffModel| #[trigger] diff_meets(m2, s@) && same_below(m1, m2, sj.len() as int);
                                        lemma_same_below_weaken(m1, m2, sj.len() as int, n0);
                                        lemma_same_below_trans(m, m1, m2, n0);
                                    }
                                }
                            } else {
                                proof {
                                    lemma_diff_extends_refl(s@);
                                }
                            }
                            proof {
                                lemma_diff_extends_trans(s@, sj, si);
                                assert forall|m: DiffModel| diff_meets(m, s@) implies forall|jj: int|
                                    0 <= jj < j + 1 && blk[jj].0 != t1 ==> #[trigger] ordered(
                                        m,
                                        p,
                                        gs,
                                        bmv,
                                        nv@,
                                        t1 as int,
                                        i1 as int,
                                        blk[jj].0 as int,
                                        blk[jj].1,
                                    ) by {
                                    lemma_diff_meets_prefix(m, s@, sj);
                                }
                            }
                            j += 1;
                        }
                        proof {
                            assert forall|m: DiffModel| diff_meets(m, s@) implies forall|t2: int, n2: NodeV|
                                conflict(gs, bmv, t1 as int, i1 as int, t2, n2) ==> #[trigger] ordered(
                                    m, p, gs, bmv, nv@, t1 as int, i1 as int, t2, n2) by {
                                assert forall|t2: int, n2: NodeV| conflict(gs, bmv, t1 as int, i1 as int, t2, n2) implies #[trigger] ordered(
                                    m, p, gs, bmv, nv@, t1 as int, i1 as int, t2, n2) by {
                                    assert(listed(bmv, n1v.last(), t2 as usize, n2));
                                    assert(blk.contains((t2 as usize, n2)));
                                    let jj = choose|jj: int| 0 <= jj < blk.len() && blk[jj] == (t2 as usize, n2);
                                    assert(blk[jj].0 != t1);
                                    assert(ordered(m, p, gs, bmv, nv@, t1 as int, i1 as int, blk[jj].0 as int, blk[jj].1));
                                }
                            }
                        }
                    },
                    None => {
                        proof {
                            lemma_diff_extends_refl(s@);
                            assert forall|t2: int, n2: NodeV| !conflict(gs, bmv, t1 as int, i1 as int, t2, n2) by {
                                if conflict(gs, bmv, t1 as int, i1 as int, t2, n2) {
                                    let kk = choose|kk: int| 0 <= kk < bmv.len() && (#[trigger] bmv[kk]).0 == n1v.last() && bmv[kk].1.contains((t2 as usize, n2));
                                    assert(bmv[kk].0 != n1v.last());
                                }
                            }
                        }
                    },
                }
            } else {
                proof {
                    lemma_diff_extends_refl(s@);
                }
            }
            proof {
                lemma_diff_extends_trans(s@, si, old(s)@);
                assert forall|m: DiffModel| diff_meets(m, s@) implies forall|u1: int, k1: int, t2: int, n2: NodeV|
                    (u1 < t1 || (u1 == t1 && k1 < i1 + 1)) && conflict(gs, bmv, u1, k1, t2, n2) ==> #[trigger] ordered(
                        m, p, gs, bmv, nv@, u1, k1, t2, n2) by {
                    lemma_diff_meets_prefix(m, s@, si);
                }
            }
            i1 += 1;
        }
        t1 += 1;
    }
    proof {
        reveal(extends_ordering);
    }
}

/// The initial node of a train: its initial routes, rear to front.
pub open spec fn init_node(tr: TrainView) -> NodeV {
    back_chain(tr, tr.initial_routes.len()).reverse()
}

proof fn lemma_back_chain_in(tr: TrainView, k: nat)
    requires
        initial_chain_ok(tr),
        1 <= k <= tr.initial_routes.len(),
    ensures
        back_chain(tr, k).len() == k,
        forall|j: int| 0 <= j < k ==> tr.initial_routes.contains(#[trigger] back_chain(tr, k)[j]),
    decreases k,
{
    if k == 1 {
        let w = choose|i: int|
            0 <= i < tr.initial_routes.len() && !leads_into_start(tr, #[trigger] tr.initial_routes[i]) && forall|j: int|
                0 <= j < tr.initial_routes.len() && j != i ==> leads_into_start(tr, tr.initial_routes[j]);
        assert(is_front(tr)(tr.initial_routes[w]));
        lemma_first_match(tr.initial_routes, is_front(tr));
        let f = first_match(tr.initial_routes, is_front(tr))->0;
        assert(back_chain(tr, 1)[0] == tr.initial_routes[f]);
    } else {
        lemma_back_chain_in(tr, (k - 1) as nat);
        let c = back_chain(tr, (k - 1) as nat);
        assert(first_match(tr.initial_routes, leads_directly(tr, c.last())) is Some);
        lemma_first_match(tr.initial_routes, leads_directly(tr, c.last()));
        let f = first_match(tr.initial_routes, leads_directly(tr, c.last()))->0;
        assert forall|j: int| 0 <= j < k implies tr.initial_routes.contains(#[trigger] back_chain(tr, k)[j]) by {
            if j < k - 1 {
                assert(back_chain(tr, k)[j] == c[j]);
            } else {
                assert(back_chain(tr, k)[j] == tr.initial_routes[f]);
            }
        }
    }
}

/// The problems the movement-graph check handles: next routes among the
/// routes of each train and without cycles, initial routes that can be
/// ordered, switches no longer than their routes, and no train in its
/// initial node blocking the front route of another's.
pub open spec fn cycle_checkable(p: Seq<TrainView>) -> bool {
    &&& acyclic(p)
    &&& nexts_ok(p)
    &&& forall|t: int| 0 <= t < p.len() ==> initial_chain_ok(#[trigger] p[t])
    &&& forall|t: int| 0 <= t < p.len() ==> switch_ok(#[trigger] p[t])
    &&& forall|t1: int, t2: int|
        0 <= t1 < p.len() && 0 <= t2 < p.len() && t1 != t2 ==> !(#[trigger] blocked_routes(p[t2], init_node(p[t2]))).contains(
            (#[trigger] init_node(p[t1])).last(),
        )
}

/// Every model of `s1` that agrees on the nodes with a schedule in which
/// the trains move on extends to a model of `s2`.
#[verifier::opaque]
pub open spec fn extends_moving(s1: Seq<DiffCommandView>, s2: Seq<DiffCommandView>, gs: Seq<GraphV>, nv: Seq<Vec<(BLit, usize)>>) -> bool {
    forall|m: DiffModel, r: DiffModel|
        diff_meets(m, s1) && #[trigger] agree_nodes(m, r, nv) && all_move_on(r, gs, nv)
            ==> exists|m2: DiffModel| #[trigger] diff_meets(m2, s2) && same_below(m, m2, s1.len() as int)
}

/// Every model of `s2` that agrees on the nodes with a tidy schedule in
/// which every conflict is resolved extends to a model of `s3`.
#[verifier::opaque]
pub open spec fn extends_ordering(
    s2: Seq<DiffCommandView>,
    s3: Seq<DiffCommandView>,
    p: Seq<TrainView>,
    gs: Seq<GraphV>,
    bmv: BlockMapV,
    nv: Seq<Vec<(BLit, usize)>>,
) -> bool {
    forall|m: DiffModel, r: DiffModel|
        diff_meets(m, s2) && #[trigger] agree_nodes(m, r, nv) && tidy(r, nv) && all_ordered(r, p, gs, bmv, nv)
            ==> exists|m2: DiffModel| #[trigger] diff_meets(m2, s3) && same_below(m, m2, s2.len() as int)
}

/// Every tidy schedule gives the values of the nodes of some model of `inst`.
#[verifier::opaque]
pub open spec fn schedules_extend(inst: Seq<DiffCommandView>, p: Seq<TrainView>, gs: Seq<GraphV>, bmv: BlockMapV, nv: Seq<Vec<(BLit, usize)>>) -> bool {
    forall|r: DiffModel|
        #[trigger] schedule_ok(r, p, gs, bmv, nv) && tidy(r, nv) ==> exists|m: DiffModel| #[trigger] diff_meets(m, inst) && agree_nodes(m, r, nv)
}

/// `low` is below the entry time of every node that schedule `r` passes
/// through, in the graphs of the first `k` trains.
pub open spec fn below_visited(r: DiffModel, nv: Seq<Vec<(BLit, usize)>>, k: int, low: int) -> bool {
    forall|t: int, i: int| 0 <= t < k && 0 <= i < nv[t]@.len() && #[trigger] on(r, nv, t, i) ==> low < time(r, nv, t, i)
}

proof fn lemma_low_row(r: DiffModel, nv: Seq<Vec<(BLit, usize)>>, t: int, k: int, low0: int) -> (low: int)
    requires
        0 <= t < nv.len(),
        0 <= k <= nv[t]@.len(),
    ensures
        low <= low0,
        forall|i: int| 0 <= i < k && #[trigger] on(r, nv, t, i) ==> low < time(r, nv, t, i),
    decreases k,
{
    if k == 0 {
        low0
    } else {
        let l = lemma_low_row(r, nv, t, k - 1, low0);
        if time(r, nv, t, k - 1) - 1 < l {
            time(r, nv, t, k - 1) - 1
        } else {
            l
        }
    }
}

proof fn lemma_low_rows(r: DiffModel, nv: Seq<Vec<(BLit, usize)>>, k: int) -> (low: int)
    requires
        0 <= k <= nv.len(),
    ensures
        below_visited(r, nv, k, low),
    decreases k,
{
    if k == 0 {
        0
    } else {
        let l = lemma_low_rows(r, nv, k - 1);
        let l2 = lemma_low_row(r, nv, k - 1, nv[k - 1]@.len() as int, l);
        assert forall|t: int, i: int| 0 <= t < k && 0 <= i < nv[t]@.len() && #[trigger] on(r, nv, t, i) implies l2 < time(r, nv, t, i) by {
            if t < k - 1 {
                assert(l < time(r, nv, t, i));
            }
        }
        l2
    }
}

/// A time variable of a node that schedule `r` does not pass through.
pub open spec fn unvisited_time_var(r: DiffModel, nv: Seq<Vec<(BLit, usize)>>, x: int) -> bool {
    exists|t: int, i: int| 0 <= t < nv.len() && 0 <= i < nv[t]@.len() && (#[trigger] nv[t]@[i]).1 == x && !on(r, nv, t, i)
}

/// Schedule `r` with time `low` for every node it does not pass through
/// (the node variables lie below `n`).
pub open spec fn tidied(r: DiffModel, nv: Seq<Vec<(BLit, usize)>>, n: int, low: int) -> DiffModel {
    DiffModel {
        bools: r.bools,
        ints: Seq::new(
            if r.ints.len() > n { r.ints.len() } else { n as nat },
            |x: int| if unvisited_time_var(r, nv, x) { low } else { ival(r, x) },
        ),
    }
}

proof fn lemma_tidied_nodes(r: DiffModel, nv: Seq<Vec<(BLit, usize)>>, n: int, low: int)
    requires
        node_vars_below(nv, n),
        time_vars_distinct(nv),
    ensures
        forall|t: int, i: int|
            0 <= t < nv.len() && 0 <= i < nv[t]@.len() ==> #[trigger] on(tidied(r, nv, n, low), nv, t, i) == on(r, nv, t, i) && time(
                tidied(r, nv, n, low),
                nv,
                t,
                i,
            ) == if on(r, nv, t, i) {
                time(r, nv, t, i)
            } else {
                low
            },
{
    let q = tidied(r, nv, n, low);
    assert forall|t: int, i: int| 0 <= t < nv.len() && 0 <= i < nv[t]@.len() implies #[trigger] on(q, nv, t, i) == on(r, nv, t, i)
        && time(q, nv, t, i) == if on(r, nv, t, i) {
        time(r, nv, t, i)
    } else {
        low
    } by {
        let x = nv[t]@[i].1 as int;
        assert(x < n);
        if on(r, nv, t, i) {
            if unvisited_time_var(r, nv, x) {
                let (u, j) = choose|u: int, j: int| 0 <= u < nv.len() && 0 <= j < nv[u]@.len() && (#[trigger] nv[u]@[j]).1 == x && !on(r, nv, u, j);
                assert(u != t || j != i);
            }
        } else {
            assert(nv[t]@[i].1 == x);
            assert(unvisited_time_var(r, nv, x));
        }
    }
}

/// Under a visited node `(tb, ib)`, `goes_first` does not change when the
/// times of the nodes not passed through change.
proof fn lemma_goes_first_tidied(
    r: DiffModel,
    q: DiffModel,
    p: Seq<TrainView>,
    gs: Seq<GraphV>,
    bm: BlockMapV,
    nv: Seq<Vec<(BLit, usize)>>,
    ta: int,
    rt: Seq<char>,
    start: NodeV,
    tb: int,
    ib: int,
)
    requires
        0 <= ta < gs.len(),
        closed_graph(p, ta, gs[ta]),
        key_in(gs[ta], start),
        vars_shape(gs, nv),
        0 <= tb < gs.len(),
        0 <= ib < gs[tb].len(),
        on(r, nv, tb, ib),
        goes_first(r, p, gs, bm, nv, ta, rt, start, tb, ib),
        forall|t: int, i: int|
            0 <= t < nv.len() && 0 <= i < nv[t]@.len() ==> #[trigger] on(q, nv, t, i) == on(r, nv, t, i) && (on(r, nv, t, i)
                ==> time(q, nv, t, i) == time(r, nv, t, i)),
    ensures
        goes_first(q, p, gs, bm, nv, ta, rt, start, tb, ib),
{
    lemma_frontier_keys(p, ta, gs[ta], blk_of(bm, rt), start, -1);
    assert(on(q, nv, tb, ib));
    assert forall|o: NodeV|
        #[trigger] frontier(p, ta, gs[ta], blk_of(bm, rt), start).contains(o) && on(q, nv, ta, idx_of(gs[ta], o)) implies time(
            q,
            nv,
            ta,
            idx_of(gs[ta], o),
        ) < time(q, nv, tb, ib) by {
        assert(key_in(gs[ta], o));
        lemma_idx_in(gs[ta], o);
        let io = idx_of(gs[ta], o);
        assert(on(q, nv, ta, io) == on(r, nv, ta, io));
    }
}

/// Every schedule can be made tidy: the nodes not passed through get an
/// early time, and the schedule stays a schedule.
proof fn lemma_tidy_schedule(r: DiffModel, p: Seq<TrainView>, gs: Seq<GraphV>, bm: BlockMapV, nv: Seq<Vec<(BLit, usize)>>, n: int) -> (q: DiffModel)
    requires
        schedule_ok(r, p, gs, bm, nv),
        graphs_ok(p, gs),
        vars_shape(gs, nv),
        node_vars_below(nv, n),
        time_vars_distinct(nv),
        bmap_exact(p, gs, bm),
        gs.len() <= usize::MAX,
    ensures
        schedule_ok(q, p, gs, bm, nv),
        tidy(q, nv),
        forall|t: int, i: int|
            0 <= t < nv.len() && 0 <= i < nv[t]@.len() ==> #[trigger] on(q, nv, t, i) == on(r, nv, t, i) && (on(r, nv, t, i)
                ==> time(q, nv, t, i) == time(r, nv, t, i)),
{
    let low = lemma_low_rows(r, nv, nv.len() as int);
    let q = tidied(r, nv, n, low);
    lemma_tidied_nodes(r, nv, n, low);
    assert forall|t: int| 0 <= t < gs.len() implies #[trigger] on(q, nv, t, 0) by {
        assert(on(r, nv, t, 0));
        assert(closed_graph(p, t, gs[t]));
    }
    assert forall|t: int, i: int| 0 <= t < gs.len() && 0 <= i < gs[t].len() implies #[trigger] moves_on(q, gs, nv, t, i) by {
        assert(moves_on(r, gs, nv, t, i));
        assert(on(q, nv, t, i) == on(r, nv, t, i));
        if gs[t][i].0.len() > 0 && on(q, nv, t, i) {
            let j = choose|j: int|
                0 <= j < gs[t][i].1.len() && on(r, nv, t, idx_of(gs[t], (#[trigger] gs[t][i].1[j]).0)) && time(r, nv, t, i) < time(
                    r,
                    nv,
                    t,
                    idx_of(gs[t], gs[t][i].1[j].0),
                );
            assert(closed_graph(p, t, gs[t]));
            assert(done(gs[t], i));
            assert(key_in(gs[t], gs[t][i].1[j].0));
            lemma_idx_in(gs[t], gs[t][i].1[j].0);
            let k = idx_of(gs[t], gs[t][i].1[j].0);
            assert(on(q, nv, t, k) == on(r, nv, t, k));
        }
    }
    assert forall|t1: int, i1: int, t2: int, n2: NodeV| conflict(gs, bm, t1, i1, t2, n2) implies #[trigger] ordered(
        q,
        p,
        gs,
        bm,
        nv,
        t1,
        i1,
        t2,
        n2,
    ) by {
        assert(ordered(r, p, gs, bm, nv, t1, i1, t2, n2));
        let n1 = gs[t1][i1].0;
        assert(listed(bm, n1.last(), t2 as usize, n2));
        assert((t2 as usize) as int == t2);
        assert(blocks(p, gs, n1.last(), t2, n2));
        lemma_idx_in(gs[t2], n2);
        let i2 = idx_of(gs[t2], n2);
        assert(key_in(gs[t1], n1));
        assert(closed_graph(p, t1, gs[t1]));
        assert(closed_graph(p, t2, gs[t2]));
        assert(on(q, nv, t1, i1) == on(r, nv, t1, i1));
        assert(on(q, nv, t2, i2) == on(r, nv, t2, i2));
        if on(r, nv, t1, i1) && on(r, nv, t2, i2) {
            if goes_first(r, p, gs, bm, nv, t2, n1.last(), n2, t1, i1) {
                lemma_goes_first_tidied(r, q, p, gs, bm, nv, t2, n1.last(), n2, t1, i1);
            }
            if goes_first(r, p, gs, bm, nv, t1, n2.last(), n1, t2, i2) {
                lemma_goes_first_tidied(r, q, p, gs, bm, nv, t1, n2.last(), n1, t2, i2);
            }
        }
    }
    assert(tidy(q, nv)) by {
        assert forall|t: int, i: int, u: int, j: int|
            0 <= t < nv.len() && 0 <= i < nv[t]@.len() && 0 <= u < nv.len() && 0 <= j < nv[u]@.len() && !#[trigger] on(q, nv, t, i)
                && #[trigger] on(q, nv, u, j) implies time(q, nv, t, i) < time(q, nv, u, j) by {
            assert(on(r, nv, u, j));
            assert(low < time(r, nv, u, j));
        }
    }
    q
}

/// Every schedule gives the activity of every node, and the time of every
/// node passed through, of some model of `inst`.
#[verifier::opaque]
pub open spec fn schedules_realized(
    inst: Seq<DiffCommandView>,
    p: Seq<TrainView>,
    gs: Seq<GraphV>,
    bmv: BlockMapV,
    nv: Seq<Vec<(BLit, usize)>>,
) -> bool {
    forall|r: DiffModel|
        #[trigger] schedule_ok(r, p, gs, bmv, nv) ==> exists|m: DiffModel|
            #[trigger] diff_meets(m, inst) && forall|t: int, i: int|
                0 <= t < nv.len() && 0 <= i < nv[t]@.len() ==> #[trigger] on(m, nv, t, i) == on(r, nv, t, i) && (on(r, nv, t, i)
                    ==> time(m, nv, t, i) == time(r, nv, t, i))
}

/// What `schedules_realized` says: every schedule (every train passes
/// through its initial node, moves on from every node it passes through,
/// and every conflict is resolved) is, on the nodes passed through, a model
/// of the instance.
pub proof fn lemma_schedules_realized(
    inst: Seq<DiffCommandView>,
    p: Seq<TrainView>,
    gs: Seq<GraphV>,
    bmv: BlockMapV,
    nv: Seq<Vec<(BLit, usize)>>,
    r: DiffModel,
)
    requires
        schedules_realized(inst, p, gs, bmv, nv),
        schedule_ok(r, p, gs, bmv, nv),
    ensures
        exists|m: DiffModel|
            #[trigger] diff_meets(m, inst) && forall|t: int, i: int|
                0 <= t < nv.len() && 0 <= i < nv[t]@.len() ==> #[trigger] on(m, nv, t, i) == on(r, nv, t, i) && (on(r, nv, t, i)
                    ==> time(m, nv, t, i) == time(r, nv, t, i)),
{
    reveal(schedules_realized);
}

proof fn lemma_realize(inst: Seq<DiffCommandView>, p: Seq<TrainView>, gs: Seq<GraphV>, bmv: BlockMapV, nv: Seq<Vec<(BLit, usize)>>, n: int)
    requires
        schedules_extend(inst, p, gs, bmv, nv),
        graphs_ok(p, gs),
        vars_shape(gs, nv),
        node_vars_below(nv, n),
        time_vars_distinct(nv),
        bmap_exact(p, gs, bmv),
        gs.len() <= usize::MAX,
    ensures
        schedules_realized(inst, p, gs, bmv, nv),
{
    reveal(schedules_realized);
    assert forall|r: DiffModel| #[trigger] schedule_ok(r, p, gs, bmv, nv) implies exists|m: DiffModel|
        #[trigger] diff_meets(m, inst) && forall|t: int, i: int|
            0 <= t < nv.len() && 0 <= i < nv[t]@.len() ==> #[trigger] on(m, nv, t, i) == on(r, nv, t, i) && (on(r, nv, t, i)
                ==> time(m, nv, t, i) == time(r, nv, t, i)) by {
        let q = lemma_tidy_schedule(r, p, gs, bmv, nv, n);
        lemma_schedules_extend(inst, p, gs, bmv, nv);
        assert(schedule_ok(q, p, gs, bmv, nv));
        let m = choose|m: DiffModel| #[trigger] diff_meets(m, inst) && agree_nodes(m, q, nv);
        assert forall|t: int, i: int| 0 <= t < nv.len() && 0 <= i < nv[t]@.len() implies #[trigger] on(m, nv, t, i) == on(r, nv, t, i)
            && (on(r, nv, t, i) ==> time(m, nv, t, i) == time(r, nv, t, i)) by {
            assert(on(m, nv, t, i) == on(q, nv, t, i));
            assert(on(q, nv, t, i) == on(r, nv, t, i));
        }
    }
}

/// The movement-graph instance has a model exactly when the trains have a
/// schedule: every model of the instance is a schedule, and every schedule
/// is, on the nodes passed through, a model. So the solver finds no model
/// exactly when no schedule exists.
pub proof fn lemma_model_iff_schedule(
    inst: Seq<DiffCommandView>,
    p: Seq<TrainView>,
    gs: Seq<GraphV>,
    bmv: BlockMapV,
    nv: Seq<Vec<(BLit, usize)>>,
)
    requires
        forall|m: DiffModel| diff_meets(m, inst) ==> schedule_ok(m, p, gs, bmv, nv),
        schedules_realized(inst, p, gs, bmv, nv),
    ensures
        (exists|m: DiffModel| #[trigger] diff_meets(m, inst)) == (exists|r: DiffModel| #[trigger] schedule_ok(r, p, gs, bmv, nv)),
{
    if exists|r: DiffModel| #[trigger] schedule_ok(r, p, gs, bmv, nv) {
        let r = choose|r: DiffModel| #[trigger] schedule_ok(r, p, gs, bmv, nv);
        lemma_schedules_realized(inst, p, gs, bmv, nv, r);
    }
    if exists|m: DiffModel| #[trigger] diff_meets(m, inst) {
        let m = choose|m: DiffModel| #[trigger] diff_meets(m, inst);
        assert(schedule_ok(m, p, gs, bmv, nv));
    }
}

/// What `schedules_extend` says: every tidy schedule gives the activity and
/// times of the nodes of some model of the instance.
proof fn lemma_schedules_extend(inst: Seq<DiffCommandView>, p: Seq<TrainView>, gs: Seq<GraphV>, bmv: BlockMapV, nv: Seq<Vec<(BLit, usize)>>)
    requires
        schedules_extend(inst, p, gs, bmv, nv),
    ensures
        forall|r: DiffModel|
            #[trigger] schedule_ok(r, p, gs, bmv, nv) && tidy(r, nv) ==> exists|m: DiffModel| #[trigger] diff_meets(m, inst) && agree_nodes(m, r, nv),
{
    reveal(schedules_extend);
}

/// Every tidy schedule extends to a model of the instance built from the
/// node variables (`s1`), the flows (`s2`) and the conflict orders (`s3`).
proof fn lemma_schedules_extend_all(
    p: Seq<TrainView>,
    gs: Seq<GraphV>,
    bmv: BlockMapV,
    nv: Seq<Vec<(BLit, usize)>>,
    s0: Seq<DiffCommandView>,
    s1: Seq<DiffCommandView>,
    s2: Seq<DiffCommandView>,
    s3: Seq<DiffCommandView>,
)
    requires
        s0.len() == 0,
        forall|m: DiffModel| diff_meets(m, s0) ==> diff_meets(m, s1),
        node_vars_below(nv, s1.len() as int),
        s1.len() <= s2.len(),
        extends_moving(s1, s2, gs, nv),
        extends_ordering(s2, s3, p, gs, bmv, nv),
    ensures
        schedules_extend(s3, p, gs, bmv, nv),
{
    reveal(schedules_extend);
    assert forall|r: DiffModel| #[trigger] schedule_ok(r, p, gs, bmv, nv) && tidy(r, nv) implies exists|m: DiffModel|
        #[trigger] diff_meets(m, s3) && agree_nodes(m, r, nv) by {
        assert(diff_meets(r, s0));
        lemma_schedule_extends(r, p, gs, bmv, nv, s1, s2, s3);
    }
}

/// The clause "train `t` passes through its initial node" keeps every tidy
/// schedule extendable.
proof fn lemma_schedules_extend_initial(
    sb: Seq<DiffCommandView>,
    cv: Seq<BLit>,
    p: Seq<TrainView>,
    gs: Seq<GraphV>,
    bmv: BlockMapV,
    nv: Seq<Vec<(BLit, usize)>>,
    t: int,
)
    requires
        schedules_extend(sb, p, gs, bmv, nv),
        0 <= t < gs.len(),
        vars_shape(gs, nv),
        gs[t].len() >= 1,
        cv.len() == 1,
        cv[0] == nv[t]@[0].0,
    ensures
        schedules_extend(sb.push(DiffCommandView::Clause { lits: cv }), p, gs, bmv, nv),
{
    reveal(schedules_extend);
    assert forall|r: DiffModel| #[trigger] schedule_ok(r, p, gs, bmv, nv) && tidy(r, nv) implies exists|m: DiffModel|
        #[trigger] diff_meets(m, sb.push(DiffCommandView::Clause { lits: cv })) && agree_nodes(m, r, nv) by {
        let m = choose|m: DiffModel| #[trigger] diff_meets(m, sb) && agree_nodes(m, r, nv);
        assert(on(r, nv, t, 0));
        assert(on(m, nv, t, 0));
        lemma_clause_holds(m, cv, 0);
        lemma_diff_meets_push(m, sb, DiffCommandView::Clause { lits: cv });
    }
}

/// A tidy schedule that meets the node variables' commands extends, through
/// the flows and the conflict orders, to a model of the whole instance.
proof fn lemma_schedule_extends(
    r: DiffModel,
    p: Seq<TrainView>,
    gs: Seq<GraphV>,
    bmv: BlockMapV,
    nv: Seq<Vec<(BLit, usize)>>,
    s1: Seq<DiffCommandView>,
    s2: Seq<DiffCommandView>,
    s3: Seq<DiffCommandView>,
)
    requires
        schedule_ok(r, p, gs, bmv, nv),
        tidy(r, nv),
        diff_meets(r, s1),
        node_vars_below(nv, s1.len() as int),
        s1.len() <= s2.len(),
        extends_moving(s1, s2, gs, nv),
        extends_ordering(s2, s3, p, gs, bmv, nv),
    ensures
        exists|m: DiffModel| #[trigger] diff_meets(m, s3) && agree_nodes(m, r, nv),
{
    reveal(extends_moving);
    reveal(extends_ordering);
    assert(agree_nodes(r, r, nv));
    assert(all_move_on(r, gs, nv));
    let m2 = choose|m2: DiffModel| #[trigger] diff_meets(m2, s2) && same_below(r, m2, s1.len() as int);
    lemma_agree_step(r, m2, r, nv, s1.len() as int);
    assert(all_ordered(r, p, gs, bmv, nv));
    lemma_node_vars_below_mono(nv, s1.len() as int, s2.len() as int);
    let m3 = choose|m3: DiffModel| #[trigger] diff_meets(m3, s3) && same_below(m2, m3, s2.len() as int);
    lemma_agree_step(m2, m3, r, nv, s2.len() as int);
}

/// The movement-graph check of a problem: the initial node and movement
/// graph of each train, the block map, the node variables, and the
/// difference-logic instance whose models are the movement schedules.
pub struct CycleCheck {
    pub initial_nodes: Vec<Vec<String>>,
    pub graphs: Vec<Graph>,
    pub blocks: BlockMap,
    pub node_vars: NodeVars,
    pub instance: DiffInstance,
}

/// In model `m`, every train passes through its initial node, moves on from
/// every non-empty node it passes through, and every conflict between
/// trains is resolved.
pub open spec fn schedule_ok(m: DiffModel, p: Seq<TrainView>, gs: Seq<GraphV>, bm: BlockMapV, nv: Seq<Vec<(BLit, usize)>>) -> bool {
    &&& forall|t: int| 0 <= t < gs.len() ==> #[trigger] on(m, nv, t, 0)
    &&& forall|t: int, i: int| 0 <= t < gs.len() && 0 <= i < gs[t].len() ==> #[trigger] moves_on(m, gs, nv, t, i)
    &&& forall|t1: int, i1: int, t2: int, n2: NodeV|
        conflict(gs, bm, t1, i1, t2, n2) ==> #[trigger] ordered(m, p, gs, bm, nv, t1, i1, t2, n2)
}

/// Builds the movement-graph check of a problem: for each train its initial
/// node and movement graph, the routes each node blocks, and the
/// difference-logic instance: a path of moves per train from its initial
/// node, with increasing times, and an order for every conflict. Its models
/// are schedules, and every schedule is (on the nodes passed through) one
/// of its models, so it has a model exactly when a schedule exists (see
/// `lemma_model_iff_schedule`).
pub fn solve(problem: &Problem) -> (check: CycleCheck)
    requires
        cycle_checkable(problem@),
    ensures
        check.initial_nodes@.len() == problem@.len(),
        forall|t: int| 0 <= t < problem@.len() ==> names_view((#[trigger] check.initial_nodes@[t])@) == init_node(problem@[t]),
        graphs_ok(problem@, graphs_view(check.graphs@)),
        forall|t: int| 0 <= t < problem@.len() ==> (#[trigger] graphs_view(check.graphs@)[t])[0].0 == init_node(problem@[t]),
        forall|t: int, i: int|
            0 <= t < problem@.len() && 1 <= i < graphs_view(check.graphs@)[t].len() ==> is_target(
                graphs_view(check.graphs@)[t],
                (#[trigger] graphs_view(check.graphs@)[t][i]).0,
            ),
        bmap_exact(problem@, graphs_view(check.graphs@), bmap_view(check.blocks@)),
        vars_shape(graphs_view(check.graphs@), check.node_vars@),
        forall|m: DiffModel|
            diff_meets(m, check.instance@) ==> schedule_ok(
                m,
                problem@,
                graphs_view(check.graphs@),
                bmap_view(check.blocks@),
                check.node_vars@,
            ),
        schedules_realized(check.instance@, problem@, graphs_view(check.graphs@), bmap_view(check.blocks@), check.node_vars@),
{
    let ghost p = problem@;
    let mut initial_nodes: Vec<Vec<String>> = Vec::new();
    let mut graphs: Vec<Graph> = Vec::new();
    let mut t: usize = 0;
    assert(p.len() == problem.trains.len());
    while t < problem.trains.len()
        invariant
            t <= problem.trains.len(),
            p == problem@,
            p.len() == problem.trains.len(),
            cycle_checkable(p),
            initial_nodes@.len() == t,
            graphs@.len() == t,
            forall|u: int| 0 <= u < t ==> names_view((#[trigger] initial_nodes@[u])@) == init_node(p[u]),
            forall|u: int| 0 <= u < t ==> closed_graph(p, u, #[trigger] graphs_view(graphs@)[u]),
            forall|u: int| 0 <= u < t ==> (#[trigger] graphs_view(graphs@)[u])[0].0 == init_node(p[u]),
            forall|u: int| 0 <= u < t ==> (#[trigger] graphs_view(graphs@)[u]).len() >= 1,
            forall|u: int, i: int|
                0 <= u < t && 1 <= i < graphs_view(graphs@)[u].len() ==> is_target(
                    graphs_view(graphs@)[u],
                    (#[trigger] graphs_view(graphs@)[u][i]).0,
                ),
        decreases problem.trains.len() - t,
    {
        let train = &problem.trains[t];
        assert(p[t as int] == train@);
        assert(initial_chain_ok(p[t as int]));
        let init = initial_node(train);
        let g = movement_graph(problem, t, &init);
        let ghost gsb = graphs_view(graphs@);
        graphs.push(g);
        initial_nodes.push(init);
        proof {
            let gs2 = graphs_view(graphs@);
            assert(gs2.len() == t + 1);
            assert forall|u: int| 0 <= u < t implies #[trigger] gs2[u] == gsb[u] by {}
            assert(gs2[t as int] == graph_view(graphs@[t as int]@));
        }
        t += 1;
    }
    let ghost gs = graphs_view(graphs@);
    proof {
        assert forall|u: int| 0 <= u < graphs@.len() implies graph_wf(p[u], #[trigger] gs[u]) by {
            assert(closed_graph(p, u, gs[u]));
        }
    }
    let blocks = build_block_map(problem, &graphs);
    let ghost bmv = bmap_view(blocks@);
    proof {
        assert(bmap_exact(p, gs, bmv));
        assert forall|t1: int, t2: int| 0 <= t1 < gs.len() && 0 <= t2 < gs.len() && t1 != t2 implies !(#[trigger] blocked_routes(
            p[t2],
            gs[t2][0].0,
        )).contains((#[trigger] gs[t1][0]).0.last()) by {
            assert(gs[t2][0].0 == init_node(p[t2]));
            assert(gs[t1][0].0 == init_node(p[t1]));
        }
        assert(initials_free(p, gs));
    }
    let mut instance = DiffInstance::new();
    let ghost s0 = instance@;
    let node_vars = make_node_vars(&mut instance, &graphs);
    let ghost s1 = instance@;
    let ghost nvv = node_vars@;
    add_flows(&mut instance, problem, &graphs, &node_vars);
    let ghost s2 = instance@;
    proof {
        lemma_node_vars_below_mono(nvv, s1.len() as int, s2.len() as int);
    }
    add_conflicts(&mut instance, problem, &graphs, &blocks, &node_vars);
    let ghost s3 = instance@;
    proof {
        lemma_schedules_extend_all(p, gs, bmv, nvv, s0, s1, s2, s3);
    }
    let mut t: usize = 0;
    proof {
        lemma_diff_extends_refl(instance@);
    }
    while t < graphs.len()
        invariant
            t <= graphs.len(),
            gs == graphs_view(graphs@),
            vars_shape(gs, node_vars@),
            forall|u: int| 0 <= u < graphs@.len() ==> closed_graph(p, u, #[trigger] gs[u]),
            forall|u: int| 0 <= u < graphs@.len() ==> (#[trigger] gs[u])[0].0 == init_node(p[u]),
            forall|u: int| 0 <= u < graphs@.len() ==> (#[trigger] gs[u]).len() >= 1,
            diff_extends(instance@, s3),
            forall|m: DiffModel| diff_meets(m, instance@) ==> forall|u: int| 0 <= u < t ==> #[trigger] on(m, node_vars@, u, 0),
            nvv == node_vars@,
            bmv == bmap_view(blocks@),
            schedules_extend(instance@, p, gs, bmv, nvv),
        decreases graphs.len() - t,
    {
        assert(gs[t as int] == graph_view(graphs@[t as int]@));
        assert(closed_graph(p, t as int, gs[t as int]));
        assert(node_vars@[t as int]@.len() == gs[t as int].len());
        assert(gs[t as int].len() >= 1);
        let mut c: Vec<BLit> = Vec::new();
        c.push(node_vars[t][0].0);
        let ghost cv = c@;
        let ghost sb = instance@;
        instance.add_clause(c);
        proof {
            lemma_diff_extends_push(sb, DiffCommandView::Clause { lits: cv });
            lemma_diff_extends_trans(instance@, sb, s3);
            assert(cv[0] == nvv[t as int]@[0].0);
            lemma_schedules_extend_initial(sb, cv, p, gs, bmv, nvv, t as int);
            assert forall|m: DiffModel| diff_meets(m, instance@) implies forall|u: int| 0 <= u < t + 1 ==> #[trigger] on(m, node_vars@, u, 0) by {
                lemma_diff_meets_last(m, sb, DiffCommandView::Clause { lits: cv });
                let w = choose|w: int| 0 <= w < cv.len() && lit_value(m, #[trigger] cv[w]);
                assert(w == 0);
            }
        }
        t += 1;
    }
    proof {
        assert(graphs_ok(p, gs));
        lemma_realize(instance@, p, gs, bmv, nvv, s1.len() as int);
        lemma_diff_extends_trans(s3, s2, s1);
        lemma_diff_extends_trans(instance@, s3, s1);
        assert forall|m: DiffModel| diff_meets(m, instance@) implies schedule_ok(m, p, gs, bmv, node_vars@) by {
            lemma_diff_meets_prefix(m, instance@, s3);
            lemma_diff_meets_prefix(m, s3, s2);
        }
    }
    CycleCheck { initial_nodes, graphs, blocks, node_vars, instance }
}

/// The verdict of the movement-graph check: live (with no steps to show)
/// where the solver found a schedule, else deadlocked.
pub fn verdict(schedule_found: bool) -> (res: DeadlockResult)
    ensures
        schedule_found ==> (res matches DeadlockResult::Live(plan) && plan@.len() == 0),
        !schedule_found ==> res is Deadlocked,
{
    if schedule_found {
        let plan = Plan { steps: Vec::new() };
        assert(plan@ =~= Seq::<crate::plan::StepView>::empty());
        DeadlockResult::Live(plan)
    } else {
        DeadlockResult::Deadlocked(())
    }
}

} // verus!
