use deadlockrail::plan::Plan;
use deadlockrail::plot::{Coord, RoutePlot};

fn two_cells() -> RoutePlot {
    RoutePlot {
        routes: vec![
            ("a".to_string(), Coord { x: 0, y: 0 }),
            ("b".to_string(), Coord { x: 1, y: 0 }),
        ],
        dir: vec![false, true],
    }
}

fn one_step(entries: Vec<(&str, Option<usize>)>) -> Plan {
    Plan { steps: vec![entries.into_iter().map(|(r, t)| (r.to_string(), t)).collect()] }
}

#[test]
fn boxes_with_labels_in_both_directions() {
    let plan = one_step(vec![("a", Some(0)), ("b", Some(1))]);
    assert_eq!(
        two_cells().plot_string(&plan),
        "Step 0\n+------------+------------+\n|0@a->       |<-1@b       |\n+------------+------------+"
    );
}

#[test]
fn boxes_stack_with_the_largest_y_on_top() {
    let plot = RoutePlot {
        routes: vec![
            ("low".to_string(), Coord { x: 0, y: 0 }),
            ("high".to_string(), Coord { x: 0, y: 1 }),
        ],
        dir: vec![false],
    };
    let plan = one_step(vec![("low", None), ("high", Some(0))]);
    assert_eq!(
        plot.plot_string(&plan),
        "Step 0\n+------------+\n|0@high->    |\n+------------+\n|            |\n+------------+"
    );
}

#[test]
fn a_box_keeps_the_train_put_there_first() {
    let plot = RoutePlot {
        routes: vec![
            ("abcdefg".to_string(), Coord { x: 0, y: 0 }),
            ("b".to_string(), Coord { x: 0, y: 0 }),
            ("c".to_string(), Coord { x: 0, y: 0 }),
        ],
        dir: vec![false, false],
    };
    let plan = one_step(vec![("abcdefg", Some(0)), ("b", Some(0)), ("c", Some(1))]);
    assert_eq!(
        plot.plot_string(&plan),
        "Step 0\n+------------+\n|0@b->defg-> |\n+------------+"
    );
}

#[test]
fn box_labels_are_cut_to_the_box() {
    let plot = RoutePlot {
        routes: vec![("longroutename".to_string(), Coord { x: 0, y: 0 })],
        dir: vec![true],
    };
    let plan = one_step(vec![("longroutename", Some(0))]);
    assert_eq!(plot.plot_string(&plan), "Step 0\n+------------+\n|<-0@longrout|\n+------------+");
}

#[test]
fn box_pictures_of_steps_are_joined() {
    let plan = Plan {
        steps: vec![
            vec![("a".to_string(), Some(0)), ("b".to_string(), None)],
            vec![("a".to_string(), None), ("b".to_string(), None)],
        ],
    };
    assert_eq!(
        two_cells().plot_string(&plan),
        "Step 0\n+------------+------------+\n|0@a->       |            |\n+------------+------------+\n\
         Step 1\n+------------+------------+\n|            |            |\n+------------+------------+"
    );
}

#[test]
fn stations_put_each_train_in_its_line() {
    let plan = one_step(vec![("a", Some(0)), ("b", Some(1))]);
    assert_eq!(
        two_cells().plot_string2(&plan),
        "Step 0\n|0@a->       |             \n|            |<-1@b        "
    );
}

#[test]
fn station_labels_are_cut_to_the_cell() {
    let plot = RoutePlot {
        routes: vec![("longroutename".to_string(), Coord { x: 0, y: 0 })],
        dir: vec![false],
    };
    let plan = one_step(vec![("longroutename", Some(0))]);
    assert_eq!(plot.plot_string2(&plan), "Step 0\n|0@longrouten ");
}

#[test]
fn station_pictures_of_steps_are_joined() {
    let plan = Plan {
        steps: vec![
            vec![("a".to_string(), None), ("b".to_string(), Some(1))],
            vec![("a".to_string(), Some(0)), ("b".to_string(), None)],
        ],
    };
    assert_eq!(
        two_cells().plot_string2(&plan),
        "Step 0\n|            |             \n|            |<-1@b        \nStep 1\n|0@a->       |             "
    );
}

#[test]
fn an_empty_plan_draws_nothing_even_without_positions() {
    let plot = RoutePlot { routes: vec![], dir: vec![] };
    let plan = Plan { steps: vec![] };
    assert_eq!(plot.plot_string(&plan), "");
    assert_eq!(plot.plot_string2(&plan), "");
}
