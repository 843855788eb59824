use deadlockrail::plan::DeadlockResult;
use deadlockrail::problem::{Problem, Train, TrainRoute};
use deadlockrail::sat::{Bool, Command, Lit, SatInstance};
use deadlockrail::solver_statespace::{
    solve_1_using_num_states_bound, solve_2_using_global_progress, Action, Answer, Phase, Query,
};
use deadlockrail::state::{goal_condition, initial_state, mk_state, ub_steps, StateConstraintSettings};

fn s(x: &str) -> String {
    x.to_string()
}

fn rt(nexts: Option<Vec<&str>>) -> TrainRoute {
    TrainRoute {
        train_length: 1,
        route_length: 1,
        switch_length: 0,
        unconditional_conflicts: vec![],
        allocation_conflicts: vec![],
        next_routes: nexts.map(|v| v.iter().map(|n| s(n)).collect()),
    }
}

/// Train 0 stands on `a` and can move on to `b`, which leads out; train 1
/// stands on `c`, which leads out.
fn small_problem() -> Problem {
    Problem {
        trains: vec![
            Train { name: s("t0"), initial_routes: vec![s("a")], routes: vec![(s("a"), rt(Some(vec!["b"]))), (s("b"), rt(None))] },
            Train { name: s("t1"), initial_routes: vec![s("c")], routes: vec![(s("c"), rt(None))] },
        ],
    }
}

fn lit_value(model: &Vec<Vec<bool>>, l: &Lit) -> bool {
    let v = l.cmd < model.len() && l.slot < model[l.cmd].len() && model[l.cmd][l.slot];
    if l.positive { v } else { !v }
}

fn bool_value(model: &Vec<Vec<bool>>, b: &Bool) -> bool {
    match b {
        Bool::Const(c) => *c,
        Bool::Lit(l) => lit_value(model, l),
    }
}

/// Tries every choice of finite-domain values and free variables, computing
/// the defined variables, and returns a model of the instance under which
/// all `assumptions` hold.
fn brute_force(inst: &SatInstance, assumptions: &[Bool]) -> Option<Vec<Vec<bool>>> {
    let mut choices: Vec<usize> = Vec::new();
    for c in inst.commands.iter() {
        match c {
            Command::FinSet { domain } => choices.push(domain.len()),
            Command::NewVar => choices.push(2),
            _ => {}
        }
    }
    let total: usize = choices.iter().product();
    for mut code in 0..total {
        let mut model: Vec<Vec<bool>> = Vec::new();
        for c in inst.commands.iter() {
            let row = match c {
                Command::FinSet { domain } => {
                    let k = code % domain.len();
                    code /= domain.len();
                    (0..domain.len()).map(|i| i == k).collect()
                }
                Command::NewVar => {
                    let v = code % 2 == 1;
                    code /= 2;
                    vec![v]
                }
                Command::Or { inputs } => vec![inputs.iter().any(|b| bool_value(&model, b))],
                Command::And { inputs } => vec![inputs.iter().all(|b| bool_value(&model, b))],
                Command::Clause { .. } | Command::AtMostOne { .. } => vec![],
            };
            model.push(row);
        }
        if inst.is_model(&model) && assumptions.iter().all(|b| bool_value(&model, b)) {
            return Some(model);
        }
    }
    None
}

#[test]
fn ub_steps_sums_longest_ways_out() {
    assert_eq!(ub_steps(&small_problem()), 1);
}

#[test]
fn initial_state_is_constant_and_not_goal() {
    let p = small_problem();
    let mut inst = SatInstance::new();
    let st = initial_state(&mut inst, &p);
    assert_eq!(inst.len(), 0);
    assert_eq!(st.trains_finished, vec![Bool::Const(false), Bool::Const(true)]);
    assert!(goal_condition(&st).is_none());
}

#[test]
fn mk_state_adds_variables_and_goal_literals() {
    let p = small_problem();
    let mut inst = SatInstance::new();
    let init = initial_state(&mut inst, &p);
    let settings = StateConstraintSettings { global_progress_constraint: false, local_early_progress_constraint: false };
    let st = mk_state(&mut inst, &init, &p, 1, settings);
    assert!(inst.len() > 0);
    assert_eq!(st.routes.len(), 3);
    assert_eq!(st.trains_finished.len(), 2);
    let goal = goal_condition(&st).unwrap();
    assert_eq!(goal.len(), 2);
}

#[test]
fn search_finds_live_plan_for_small_problem() {
    let p = small_problem();
    let (mut search, mut action) = solve_1_using_num_states_bound(&p);
    assert_eq!(search.ub, 1);
    let mut rounds = 0;
    loop {
        rounds += 1;
        assert!(rounds < 10);
        match action {
            Action::Ask(Query::SolveWithAssumptions(goal)) => {
                let answer = match brute_force(&search.instance, &goal) {
                    Some(m) => Answer::Sat(m),
                    None => Answer::Unsat,
                };
                action = search.step(&p, answer);
            }
            Action::Ask(Query::Solve) => {
                let answer = match brute_force(&search.instance, &[]) {
                    Some(m) => Answer::Sat(m),
                    None => Answer::Unsat,
                };
                action = search.step(&p, answer);
            }
            Action::Done(DeadlockResult::Live(plan)) => {
                assert_eq!(
                    plan.steps,
                    vec![
                        vec![(s("a"), Some(0)), (s("b"), None), (s("c"), Some(1))],
                        vec![(s("a"), Some(0)), (s("b"), Some(0)), (s("c"), None)],
                    ]
                );
                break;
            }
            Action::Done(DeadlockResult::Deadlocked(_)) => panic!("expected a live verdict"),
        }
    }
    assert!(search.phase == Phase::Finished);
}

#[test]
fn unconditional_unsat_means_deadlock() {
    let p = small_problem();
    let (mut search, action) = solve_2_using_global_progress(&p);
    assert!(matches!(action, Action::Ask(Query::Solve)));
    let verdict = search.step(&p, Answer::Unsat);
    assert!(matches!(verdict, Action::Done(DeadlockResult::Deadlocked(_))));
}

#[test]
fn a_finishing_run_meets_the_goal_query() {
    let p = small_problem();
    let mut inst = SatInstance::new();
    let init = initial_state(&mut inst, &p);
    let settings = StateConstraintSettings { global_progress_constraint: true, local_early_progress_constraint: true };
    let st = mk_state(&mut inst, &init, &p, 1, settings);
    let goal = goal_condition(&st).unwrap();
    let model = brute_force(&inst, &goal);
    assert!(model.is_some());
    assert!(inst.is_model(&model.unwrap()));
}
