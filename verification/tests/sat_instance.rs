use deadlockrail::sat::{any_holds, all_hold, eval_model, not, Bool, Lit, SatInstance};

#[test]
fn instance_commands_and_models() {
    let mut inst = SatInstance::new();
    let a = inst.new_var();
    let b = inst.new_var();
    let o = inst.or_literal(vec![a, b]);
    let n = inst.and_literal(vec![a, not(b)]);
    inst.add_clause(vec![o]);
    assert_eq!(inst.len(), 5);
    assert_eq!(a, Bool::Lit(Lit { cmd: 0, slot: 0, positive: true }));
    assert_eq!(o, Bool::Lit(Lit { cmd: 2, slot: 0, positive: true }));
    // a = true, b = false: the or holds, the and holds.
    let good = vec![vec![true], vec![false], vec![true], vec![true], vec![]];
    assert!(inst.is_model(&good));
    // A wrong value for a defined variable is refused.
    let bad_def = vec![vec![true], vec![false], vec![false], vec![true], vec![]];
    assert!(!inst.is_model(&bad_def));
    // Both false violates the clause.
    let bad_clause = vec![vec![false], vec![false], vec![false], vec![false], vec![]];
    assert!(!inst.is_model(&bad_clause));
    // Too few rows.
    assert!(!inst.is_model(&vec![vec![true]]));
    let _ = n;
}

#[test]
fn finite_domain_and_at_most_one() {
    let mut inst = SatInstance::new();
    inst.push_finset(vec![None, Some(0), Some(1)]);
    let x = Bool::Lit(Lit { cmd: 0, slot: 1, positive: true });
    let y = Bool::Lit(Lit { cmd: 0, slot: 2, positive: true });
    inst.assert_at_most_one(vec![x, y]);
    assert!(inst.is_model(&vec![vec![false, true, false], vec![]]));
    assert!(!inst.is_model(&vec![vec![false, false, false], vec![]]));
    assert!(!inst.is_model(&vec![vec![false, true, true], vec![]]));
}

#[test]
fn evaluating_formulas() {
    let model = vec![vec![true, false]];
    let t = Bool::Lit(Lit { cmd: 0, slot: 0, positive: true });
    let f = Bool::Lit(Lit { cmd: 0, slot: 1, positive: true });
    let missing = Bool::Lit(Lit { cmd: 3, slot: 0, positive: true });
    assert!(eval_model(&model, t));
    assert!(!eval_model(&model, f));
    assert!(eval_model(&model, not(f)));
    assert!(!eval_model(&model, missing));
    assert!(eval_model(&model, not(missing)));
    assert!(any_holds(&model, &vec![f, t]));
    assert!(!any_holds(&model, &vec![]));
    assert!(all_hold(&model, &vec![]));
    assert!(!all_hold(&model, &vec![t, f]));
    assert!(all_hold(&model, &vec![t, Bool::Const(true)]));
}
