use deadlockrail::diff_logic::{DiffCommand, DiffInstance};
use deadlockrail::plan::DeadlockResult;
use deadlockrail::problem::{Problem, Train, TrainRoute};
use deadlockrail::solver_cycles::{
    initial_chain_check, initial_nodes_clear, movement_graph, solve, sorted_initial_routes, switch_check, verdict,
};

fn s(x: &str) -> String {
    x.to_string()
}

fn rt(nexts: Option<Vec<&str>>, uncond: Vec<&str>) -> TrainRoute {
    TrainRoute {
        train_length: 1,
        route_length: 1,
        switch_length: 0,
        unconditional_conflicts: uncond.iter().map(|c| s(c)).collect(),
        allocation_conflicts: vec![],
        next_routes: nexts.map(|v| v.iter().map(|n| s(n)).collect()),
    }
}

#[test]
fn sorted_initial_routes_orders_rear_to_front() {
    let train = Train {
        name: s("t"),
        initial_routes: vec![s("x"), s("y")],
        routes: vec![
            (s("x"), rt(Some(vec!["z"]), vec![])),
            (s("y"), rt(Some(vec!["x"]), vec![])),
            (s("z"), rt(None, vec![])),
        ],
    };
    let rs = sorted_initial_routes(&train);
    assert_eq!(rs, vec![&s("y"), &s("x")]);
}

#[test]
fn sorted_initial_routes_single_route() {
    let train = Train {
        name: s("t"),
        initial_routes: vec![s("a")],
        routes: vec![(s("a"), rt(Some(vec!["b"]), vec![])), (s("b"), rt(None, vec![]))],
    };
    assert_eq!(sorted_initial_routes(&train), vec![&s("a")]);
}

fn one_train() -> Problem {
    Problem {
        trains: vec![Train {
            name: s("t"),
            initial_routes: vec![s("a")],
            routes: vec![(s("a"), rt(Some(vec!["b"]), vec![])), (s("b"), rt(None, vec![]))],
        }],
    }
}

#[test]
fn movement_graph_of_a_two_route_line() {
    let p = one_train();
    let g = movement_graph(&p, 0, &vec![s("a")]);
    assert_eq!(g.len(), 3);
    assert_eq!(g[0].0, vec![s("a")]);
    assert_eq!(g[0].1, vec![(vec![s("b")], vec![s("a")])]);
    assert_eq!(g[1].0, vec![s("b")]);
    assert_eq!(g[1].1, vec![(vec![], vec![s("b")])]);
    assert_eq!(g[2].0, Vec::<String>::new());
    assert!(g[2].1.is_empty());
}

#[test]
fn movement_graph_keeps_routes_covering_a_long_train() {
    let mut long = rt(None, vec![]);
    long.train_length = 2;
    let p = Problem {
        trains: vec![Train {
            name: s("t"),
            initial_routes: vec![s("a")],
            routes: vec![(s("a"), rt(Some(vec!["b"]), vec![])), (s("b"), long)],
        }],
    };
    let g = movement_graph(&p, 0, &vec![s("a")]);
    assert_eq!(g[0].1, vec![(vec![s("a"), s("b")], vec![])]);
}

#[test]
fn cycle_check_of_one_train() {
    let p = one_train();
    let check = solve(&p);
    assert_eq!(check.initial_nodes, vec![vec![s("a")]]);
    assert_eq!(check.graphs.len(), 1);
    assert_eq!(check.node_vars.len(), 1);
    assert_eq!(check.node_vars[0].len(), 3);
    // The block map lists the train in `a` under `a`, and in `b` under `b`.
    let names: Vec<String> = check.blocks.iter().map(|e| e.0.clone()).collect();
    assert!(names.contains(&s("a")));
    assert!(names.contains(&s("b")));
    // The last command starts the train in its initial node.
    match check.instance.commands.last().unwrap() {
        DiffCommand::Clause { lits } => {
            assert_eq!(lits.len(), 1);
            assert_eq!(lits[0], check.node_vars[0][0].0);
        }
        _ => panic!("expected a clause"),
    }
}

#[test]
fn cycle_check_model_of_one_train() {
    let p = one_train();
    let check = solve(&p);
    let n = check.instance.commands.len();
    // Pass through all nodes, take all moves, times 0, 1, 2.
    let bools = vec![true; n];
    let mut ints = vec![0i64; n];
    for (i, (_, x)) in check.node_vars[0].iter().enumerate() {
        ints[*x] = i as i64;
    }
    assert!(check.instance.is_model(&bools, &ints));
    // Equal times break the moves' ordering.
    let flat = vec![0i64; n];
    assert!(!check.instance.is_model(&bools, &flat));
}

#[test]
fn verdict_of_the_cycle_check() {
    match verdict(true) {
        DeadlockResult::Live(plan) => assert!(plan.steps.is_empty()),
        _ => panic!("expected live"),
    }
    assert!(matches!(verdict(false), DeadlockResult::Deadlocked(())));
}

#[test]
fn diff_instance_checks_models() {
    let mut d = DiffInstance::new();
    let b = d.new_bool();
    let x = d.new_int();
    let y = d.new_int();
    d.add_clause(vec![b]);
    d.add_diff(Some(b), x, y, -1);
    let bools = vec![true, false, false];
    assert!(d.is_model(&bools, &vec![0, 0, 5]));
    assert!(!d.is_model(&bools, &vec![0, 5, 5]));
    assert!(!d.is_model(&vec![false, false, false], &vec![0, 0, 5]));
}

#[test]
fn a_train_on_a_free_line_has_a_schedule() {
    let p = Problem {
        trains: vec![Train {
            name: s("A"),
            initial_routes: vec![s("1")],
            routes: vec![
                (s("1"), rt(Some(vec!["2"]), vec![])),
                (s("2"), rt(Some(vec!["3"]), vec![])),
                (s("3"), rt(Some(vec!["eE"]), vec![])),
                (s("eE"), rt(None, vec![])),
            ],
        }],
    };
    let check = solve(&p);
    let n = check.instance.commands.len();
    // The train passes through its nodes in the order of its graph.
    let bools = vec![true; n];
    let mut ints = vec![0i64; n];
    for (i, (_, x)) in check.node_vars[0].iter().enumerate() {
        ints[*x] = i as i64;
    }
    assert!(check.instance.is_model(&bools, &ints));
    assert!(matches!(verdict(check.instance.is_model(&bools, &ints)), DeadlockResult::Live(_)));
}

#[test]
fn initial_chain_check_accepts_a_chain() {
    let train = Train {
        name: s("t"),
        initial_routes: vec![s("x"), s("y")],
        routes: vec![
            (s("x"), rt(Some(vec!["z"]), vec![])),
            (s("y"), rt(Some(vec!["x"]), vec![])),
            (s("z"), rt(None, vec![])),
        ],
    };
    assert!(initial_chain_check(&train));
}

#[test]
fn initial_chain_check_rejects_two_fronts() {
    let train = Train {
        name: s("t"),
        initial_routes: vec![s("x"), s("y")],
        routes: vec![
            (s("x"), rt(Some(vec!["z"]), vec![])),
            (s("y"), rt(Some(vec!["z"]), vec![])),
            (s("z"), rt(None, vec![])),
        ],
    };
    assert!(!initial_chain_check(&train));
}

#[test]
fn initial_chain_check_rejects_a_start_leading_out() {
    let train = Train {
        name: s("t"),
        initial_routes: vec![s("z")],
        routes: vec![(s("z"), rt(None, vec![]))],
    };
    assert!(!initial_chain_check(&train));
}

#[test]
fn switch_check_compares_switch_and_route_lengths() {
    let mut train = one_train().trains.remove(0);
    assert!(switch_check(&train));
    train.routes[0].1.switch_length = 2;
    assert!(!switch_check(&train));
}

fn two_trains(conflict: bool) -> Problem {
    let uncond = if conflict { vec!["c"] } else { vec![] };
    Problem {
        trains: vec![
            Train {
                name: s("t0"),
                initial_routes: vec![s("a")],
                routes: vec![(s("a"), rt(Some(vec!["b"]), uncond)), (s("b"), rt(None, vec![]))],
            },
            Train {
                name: s("t1"),
                initial_routes: vec![s("c")],
                routes: vec![(s("c"), rt(Some(vec!["d"]), vec![])), (s("d"), rt(None, vec![]))],
            },
        ],
    }
}

#[test]
fn initial_nodes_clear_sees_trains_starting_in_conflict() {
    assert!(initial_nodes_clear(&two_trains(false)));
    assert!(!initial_nodes_clear(&two_trains(true)));
}
