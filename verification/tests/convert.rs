use deadlockrail::problem::convert_raw2021;
use deadlockrail::raw_problem::{Problem, Route, RouteLengthExclusion, Train, TrainRoute};

fn s(x: &str) -> String {
    x.to_string()
}

fn train(id: &str, dummy: bool, initial: &[&str]) -> Train {
    Train {
        name: format!("name-{}", id),
        id: s(id),
        is_dummy: dummy,
        initial_routes: initial.iter().map(|r| s(r)).collect(),
        final_routes: vec![],
        crossing_trains: vec![],
        follower_trains: vec![],
        is_safe_place_bound: false,
        safe_place_route: s(""),
    }
}

fn route(id: &str) -> Route {
    Route {
        name: s(id),
        id: s(id),
        is_multi_train: false,
        station_or_track_id: s("st"),
        is_final_point_in_station: false,
        is_siding: false,
        is_unusable: false,
    }
}

fn train_route(t: &str, r: &str, length: u64, black_hole: bool, nexts: &[&str]) -> TrainRoute {
    TrainRoute {
        train: s(t),
        route: s(r),
        length,
        is_potential_safe_place: false,
        is_black_hole: black_hole,
        next_routes: nexts.iter().map(|n| s(n)).collect(),
    }
}

fn exclusion(r: &str, length: u64, conflicts: &[&str]) -> RouteLengthExclusion {
    RouteLengthExclusion { route: s(r), length, conflicts: conflicts.iter().map(|c| s(c)).collect() }
}

fn sample() -> Problem {
    Problem {
        trains: vec![train("2", false, &["r1"]), train("9", true, &[]), train("1", false, &["r2"])],
        routes: vec![route("r1"), route("r2"), route("r3")],
        train_routes: vec![
            train_route("2", "r1", 10, false, &["r3"]),
            train_route("2", "r3", 10, true, &[]),
            train_route("1", "r2", 3, false, &["r3"]),
            train_route("9", "r1", 5, false, &["r2"]),
        ],
        conflicts: vec![
            exclusion("r1", 4, &["r1", "r2"]),
            exclusion("r1", 5, &["r1", "r3"]),
            exclusion("r2", 4, &["r1"]),
            exclusion("r2", 5, &["r2", "r3"]),
            exclusion("r3", 7, &["r2"]),
            exclusion("r3", 8, &["r1"]),
        ],
    }
}

#[test]
fn convert_skips_dummy_trains_and_sorts_by_id() {
    let p = convert_raw2021(&sample());
    assert_eq!(p.trains.len(), 2);
    assert_eq!(p.trains[0].name, "1");
    assert_eq!(p.trains[1].name, "2");
    assert_eq!(p.trains[0].initial_routes, vec![s("r2")]);
}

#[test]
fn convert_splits_conflicts_by_length() {
    let p = convert_raw2021(&sample());
    let t2 = &p.trains[1];
    assert_eq!(t2.routes.len(), 2);
    let (name, r1) = &t2.routes[0];
    assert_eq!(name, "r1");
    assert_eq!(r1.train_length, 10);
    assert_eq!(r1.route_length, 5);
    assert_eq!(r1.switch_length, 1);
    assert_eq!(r1.unconditional_conflicts, vec![s("r2")]);
    assert_eq!(r1.allocation_conflicts, vec![s("r3")]);
    assert_eq!(r1.next_routes, Some(vec![s("r3")]));
}

#[test]
fn convert_short_train_has_no_allocation_conflicts() {
    let p = convert_raw2021(&sample());
    let t1 = &p.trains[0];
    let (name, r2) = &t1.routes[0];
    assert_eq!(name, "r2");
    assert_eq!(r2.train_length, 3);
    assert_eq!(r2.unconditional_conflicts, vec![s("r1")]);
    assert!(r2.allocation_conflicts.is_empty());
}

#[test]
fn convert_black_hole_has_no_next_routes() {
    let p = convert_raw2021(&sample());
    let (name, r3) = &p.trains[1].routes[1];
    assert_eq!(name, "r3");
    assert_eq!(r3.next_routes, None);
    assert_eq!(r3.unconditional_conflicts, vec![s("r2")]);
    assert_eq!(r3.allocation_conflicts, vec![s("r1")]);
}

#[test]
fn adding_dummy_trains_leaves_the_problem_unchanged() {
    let base = sample();
    let mut more = sample();
    more.trains.push(train("7", true, &["r3"]));
    more.train_routes.push(train_route("7", "r3", 2, true, &[]));
    let a = convert_raw2021(&base);
    let b = convert_raw2021(&more);
    assert_eq!(format!("{:?}", a), format!("{:?}", b));
}
