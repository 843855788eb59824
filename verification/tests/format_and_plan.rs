use deadlockrail::plan::{print_plan, Plan};
use deadlockrail::FileFormat;
use std::str::FromStr;

#[test]
fn parses_known_formats() {
    assert_eq!(FileFormat::parse("raw2021"), Ok(FileFormat::Raw2021Problem));
    assert_eq!(FileFormat::parse("raw"), Ok(FileFormat::Raw2021Problem));
    assert_eq!(FileFormat::parse("raw2023"), Ok(FileFormat::Raw2023Problem));
    assert_eq!(FileFormat::parse("trains"), Ok(FileFormat::TrainsFormat));
}

#[test]
fn rejects_unknown_format() {
    assert_eq!(FileFormat::parse("raw2022"), Err("Could not parse file format type."));
    assert_eq!(FileFormat::parse(""), Err("Could not parse file format type."));
}

#[test]
fn from_str_matches_parse() {
    assert_eq!(FileFormat::from_str("trains"), Ok(FileFormat::TrainsFormat));
    assert!(FileFormat::from_str("Trains").is_err());
}

fn two_step_plan() -> Plan {
    Plan {
        steps: vec![
            vec![("a".to_string(), Some(0)), ("b".to_string(), None)],
            vec![("a".to_string(), Some(0)), ("b".to_string(), Some(1))],
        ],
    }
}

#[test]
fn print_plan_summary_marks_holders() {
    let (summary, _) = print_plan(&two_step_plan());
    assert_eq!(
        summary,
        "Step 0:       ra *0        rb ___\nStep 1:       ra .0        rb *1 \n"
    );
}

#[test]
fn print_plan_commands_only_new_allocations() {
    let (_, commands) = print_plan(&two_step_plan());
    assert_eq!(commands, "t0 ra\n\nt1 rb");
}

#[test]
fn print_plan_empty_plan() {
    let (summary, commands) = print_plan(&Plan { steps: vec![] });
    assert_eq!(summary, "");
    assert_eq!(commands, "");
}

#[test]
fn print_plan_pads_long_names_and_numbers() {
    let plan = Plan {
        steps: vec![vec![("longroute1".to_string(), Some(12))]],
    };
    let (summary, commands) = print_plan(&plan);
    assert_eq!(summary, "Step 0: rlongroute1 *12\n");
    assert_eq!(commands, "t12 rlongroute1");
}

#[test]
fn print_plan_step_without_new_train_has_empty_command_block() {
    let plan = Plan {
        steps: vec![
            vec![("x".to_string(), Some(3))],
            vec![("x".to_string(), Some(3))],
            vec![("x".to_string(), None)],
        ],
    };
    let (summary, commands) = print_plan(&plan);
    assert_eq!(
        summary,
        "Step 0:       rx *3 \nStep 1:       rx .3 \nStep 2:       rx ___\n"
    );
    assert_eq!(commands, "t3 rx\n\n\n\n");
}
