//! A propositional instance built step by step, as plain data: each command
//! introduces variables or constraints. A SAT back end replays the commands
//! (finite-domain variables, Tseitin definitions, clauses) and reports a
//! model, one row of values per command.
use vstd::prelude::*;

verus! {

/// A variable, given by the command that introduced it and its slot there,
/// with a polarity.
#[derive(Debug, Clone, Copy, PartialEq, Eq, Structural)]
pub struct Lit {
    pub cmd: usize,
    pub slot: usize,
    pub positive: bool,
}

/// A formula of the instance: a constant or a literal.
#[derive(Debug, Clone, Copy, PartialEq, Eq, Structural)]
pub enum Bool {
    Const(bool),
    Lit(Lit),
}

/// A command of the instance.
#[derive(Debug)]
pub enum Command {
    /// One variable per value of `domain`, of which exactly one is true.
    FinSet { domain: Vec<Option<usize>> },
    /// One unconstrained variable.
    NewVar,
    /// One variable, true exactly when one of `inputs` is.
    Or { inputs: Vec<Bool> },
    /// One variable, true exactly when all of `inputs` are.
    And { inputs: Vec<Bool> },
    /// At least one of the formulas is true.
    Clause { lits: Vec<Bool> },
    /// At most one of the formulas is true.
    AtMostOne { lits: Vec<Bool> },
}

/// The model of a command.
pub enum CommandView {
    FinSet { domain: Seq<Option<usize>> },
    NewVar,
    Or { inputs: Seq<Bool> },
    And { inputs: Seq<Bool> },
    Clause { lits: Seq<Bool> },
    AtMostOne { lits: Seq<Bool> },
}

impl View for Command {
    type V = CommandView;

    open spec fn view(&self) -> CommandView {
        match self {
            Command::FinSet { domain } => CommandView::FinSet { domain: domain@ },
            Command::NewVar => CommandView::NewVar,
            Command::Or { inputs } => CommandView::Or { inputs: inputs@ },
            Command::And { inputs } => CommandView::And { inputs: inputs@ },
            Command::Clause { lits } => CommandView::Clause { lits: lits@ },
            Command::AtMostOne { lits } => CommandView::AtMostOne { lits: lits@ },
        }
    }
}

/// A propositional instance: its commands in order.
pub struct SatInstance {
    pub commands: Vec<Command>,
}

impl View for SatInstance {
    type V = Seq<CommandView>;

    open spec fn view(&self) -> Seq<CommandView> {
        self.commands@.map_values(|c: Command| c@)
    }
}

/// An assignment: for each command, the values of the variables it introduced.
pub type Model = Seq<Seq<bool>>;

/// The value of a formula under a model.
pub open spec fn eval(m: Model, b: Bool) -> bool {
    match b {
        Bool::Const(c) => c,
        Bool::Lit(l) => if l.positive {
            slot_value(m, l.cmd as int, l.slot as int)
        } else {
            !slot_value(m, l.cmd as int, l.slot as int)
        },
    }
}

/// The value a model gives to a variable; false for one it holds no value for.
pub open spec fn slot_value(m: Model, k: int, i: int) -> bool {
    0 <= k < m.len() && 0 <= i < m[k].len() && m[k][i]
}

/// The negation of a formula.
pub open spec fn negation(b: Bool) -> Bool {
    match b {
        Bool::Const(c) => Bool::Const(!c),
        Bool::Lit(l) => Bool::Lit(Lit { cmd: l.cmd, slot: l.slot, positive: !l.positive }),
    }
}

/// Whether some formula of `bs` is true.
pub open spec fn any_true(m: Model, bs: Seq<Bool>) -> bool {
    exists|i: int| 0 <= i < bs.len() && eval(m, #[trigger] bs[i])
}

/// Whether all formulas of `bs` are true.
pub open spec fn all_true(m: Model, bs: Seq<Bool>) -> bool {
    forall|i: int| 0 <= i < bs.len() ==> eval(m, #[trigger] bs[i])
}

/// Whether at most one formula of `bs` is true.
pub open spec fn at_most_one_true(m: Model, bs: Seq<Bool>) -> bool {
    forall|i: int, j: int| 0 <= i < j < bs.len() ==> !(eval(m, #[trigger] bs[i]) && eval(m, #[trigger] bs[j]))
}

/// Whether the values a model gives to command `k` meet the command.
pub open spec fn holds(m: Model, k: int, c: CommandView) -> bool {
    match c {
        CommandView::FinSet { domain } => {
            &&& m[k].len() == domain.len()
            &&& exists|i: int| 0 <= i < domain.len() && #[trigger] m[k][i]
            &&& forall|i: int, j: int| 0 <= i < j < domain.len() ==> !(#[trigger] m[k][i] && #[trigger] m[k][j])
        },
        CommandView::NewVar => m[k].len() == 1,
        CommandView::Or { inputs } => m[k].len() == 1 && m[k][0] == any_true(m, inputs),
        CommandView::And { inputs } => m[k].len() == 1 && m[k][0] == all_true(m, inputs),
        CommandView::Clause { lits } => m[k].len() == 0 && any_true(m, lits),
        CommandView::AtMostOne { lits } => m[k].len() == 0 && at_most_one_true(m, lits),
    }
}

/// An instance that extends another keeps its commands.
#[verifier::opaque]
pub open spec fn extends(later: Seq<CommandView>, earlier: Seq<CommandView>) -> bool {
    earlier.len() <= later.len() && later.subrange(0, earlier.len() as int) == earlier
}

/// The negation of a formula: true exactly where the formula is false.
pub fn not(b: Bool) -> (res: Bool)
    ensures
        res == negation(b),
        forall|m: Model| eval(m, res) == !eval(m, b),
{
    match b {
        Bool::Const(c) => Bool::Const(!c),
        Bool::Lit(l) => Bool::Lit(Lit { cmd: l.cmd, slot: l.slot, positive: !l.positive }),
    }
}

impl SatInstance {
    /// An instance without commands.
    pub fn new() -> (res: SatInstance)
        ensures
            res@ == Seq::<CommandView>::empty(),
    {
        let res = SatInstance { commands: Vec::new() };
        assert(res@ =~= Seq::<CommandView>::empty());
        res
    }

    /// The number of commands.
    pub fn len(&self) -> (res: usize)
        ensures
            res == self@.len(),
    {
        self.commands.len()
    }

    fn push(&mut self, c: Command)
        ensures
            final(self)@ == old(self)@.push(c@),
    {
        let ghost cv = c@;
        self.commands.push(c);
        assert(self@ =~= old(self)@.push(cv));
    }

    /// A finite-domain variable over `domain`: one variable per value, exactly
    /// one of them true.
    pub fn push_finset(&mut self, domain: Vec<Option<usize>>)
        ensures
            final(self)@ == old(self)@.push(CommandView::FinSet { domain: domain@ }),
    {
        self.push(Command::FinSet { domain });
    }

    /// A fresh variable.
    pub fn new_var(&mut self) -> (res: Bool)
        ensures
            final(self)@ == old(self)@.push(CommandView::NewVar),
            res == Bool::Lit(Lit { cmd: old(self)@.len() as usize, slot: 0, positive: true }),
            old(self)@.len() <= usize::MAX,
    {
        let k = self.commands.len();
        self.push(Command::NewVar);
        Bool::Lit(Lit { cmd: k, slot: 0, positive: true })
    }

    /// Requires at least one of `lits` to be true.
    pub fn add_clause(&mut self, lits: Vec<Bool>)
        ensures
            final(self)@ == old(self)@.push(CommandView::Clause { lits: lits@ }),
    {
        self.push(Command::Clause { lits });
    }

    /// Requires at most one of `lits` to be true.
    pub fn assert_at_most_one(&mut self, lits: Vec<Bool>)
        ensures
            final(self)@ == old(self)@.push(CommandView::AtMostOne { lits: lits@ }),
    {
        self.push(Command::AtMostOne { lits });
    }

    /// A formula that is true exactly when one of `inputs` is.
    pub fn or_literal(&mut self, inputs: Vec<Bool>) -> (res: Bool)
        ensures
            final(self)@ == old(self)@.push(CommandView::Or { inputs: inputs@ }),
            res == Bool::Lit(Lit { cmd: old(self)@.len() as usize, slot: 0, positive: true }),
    {
        let k = self.commands.len();
        self.push(Command::Or { inputs });
        Bool::Lit(Lit { cmd: k, slot: 0, positive: true })
    }

    /// A formula that is true exactly when all of `inputs` are.
    pub fn and_literal(&mut self, inputs: Vec<Bool>) -> (res: Bool)
        ensures
            final(self)@ == old(self)@.push(CommandView::And { inputs: inputs@ }),
            res == Bool::Lit(Lit { cmd: old(self)@.len() as usize, slot: 0, positive: true }),
    {
        let k = self.commands.len();
        self.push(Command::And { inputs });
        Bool::Lit(Lit { cmd: k, slot: 0, positive: true })
    }
}


/// Whether a model meets each command of an instance (it may hold values
/// for more commands).
#[verifier::opaque]
pub open spec fn meets(m: Model, inst: Seq<CommandView>) -> bool {
    &&& inst.len() <= m.len()
    &&& forall|k: int| 0 <= k < inst.len() ==> holds(m, k, #[trigger] inst[k])
}

/// A model that meets an instance meets each instance it extends.
pub proof fn lemma_meets_prefix(m: Model, later: Seq<CommandView>, earlier: Seq<CommandView>)
    requires
        meets(m, later),
        extends(later, earlier),
    ensures
        meets(m, earlier),
{
    reveal(meets);
    reveal(extends);
    assert forall|k: int| 0 <= k < earlier.len() implies holds(m, k, #[trigger] earlier[k]) by {
        assert(earlier[k] == later.subrange(0, earlier.len() as int)[k]);
        assert(holds(m, k, later[k]));
    }
}

pub proof fn lemma_extends_trans(a: Seq<CommandView>, b: Seq<CommandView>, c: Seq<CommandView>)
    requires
        extends(a, b),
        extends(b, c),
    ensures
        extends(a, c),
{
    reveal(meets);
    reveal(extends);
    assert(a.subrange(0, c.len() as int) =~= b.subrange(0, c.len() as int));
}

pub proof fn lemma_extends_push(a: Seq<CommandView>, c: CommandView)
    ensures
        extends(a.push(c), a),
{
    reveal(meets);
    reveal(extends);
    assert(a.push(c).subrange(0, a.len() as int) =~= a);
}

pub proof fn lemma_extends_refl(a: Seq<CommandView>)
    ensures
        extends(a, a),
{
    reveal(meets);
    reveal(extends);
    assert(a.subrange(0, a.len() as int) =~= a);
}

/// The last command of an instance holds in each model that meets it.
pub proof fn lemma_meets_last(m: Model, inst: Seq<CommandView>, c: CommandView)
    requires
        meets(m, inst.push(c)),
    ensures
        meets(m, inst),
        holds(m, inst.len() as int, c),
        inst.len() < m.len(),
{
    reveal(meets);
    reveal(extends);
    lemma_extends_push(inst, c);
    lemma_meets_prefix(m, inst.push(c), inst);
    assert(inst.push(c)[inst.len() as int] == c);
}


/// The formula reads only commands below `n`.
pub open spec fn bool_below(b: Bool, n: int) -> bool {
    match b {
        Bool::Const(_) => true,
        Bool::Lit(l) => l.cmd < n,
    }
}

/// All the formulas read only commands below `n`.
pub open spec fn bools_below(bs: Seq<Bool>, n: int) -> bool {
    forall|i: int| 0 <= i < bs.len() ==> bool_below(#[trigger] bs[i], n)
}

/// The command reads only commands below `n`.
pub open spec fn cmd_below(c: CommandView, n: int) -> bool {
    match c {
        CommandView::FinSet { .. } => true,
        CommandView::NewVar => true,
        CommandView::Or { inputs } => bools_below(inputs, n),
        CommandView::And { inputs } => bools_below(inputs, n),
        CommandView::Clause { lits } => bools_below(lits, n),
        CommandView::AtMostOne { lits } => bools_below(lits, n),
    }
}

/// Every command reads only the commands before it.
pub open spec fn sat_scoped(inst: Seq<CommandView>) -> bool {
    forall|k: int| 0 <= k < inst.len() ==> cmd_below(#[trigger] inst[k], k)
}

/// A constraint: a command that introduces no variable.
pub open spec fn is_constraint(c: CommandView) -> bool {
    c is Clause || c is AtMostOne
}

/// From command `from` on, every command that introduces variables holds in
/// `m`: the variables of a definition take their defined values.
pub open spec fn defs_ok(m: Model, inst: Seq<CommandView>, from: int) -> bool {
    &&& inst.len() <= m.len()
    &&& forall|k: int| from <= k < inst.len() && !is_constraint(#[trigger] inst[k]) ==> holds(m, k, inst[k])
    &&& forall|k: int| from <= k < inst.len() && is_constraint(#[trigger] inst[k]) ==> m[k].len() == 0
}

pub proof fn lemma_bools_below_mono(bs: Seq<Bool>, n: int, k: int)
    requires
        bools_below(bs, n),
        n <= k,
    ensures
        bools_below(bs, k),
{
    assert forall|i: int| 0 <= i < bs.len() implies bool_below(#[trigger] bs[i], k) by {
        assert(bool_below(bs[i], n));
    }
}

/// A scoped instance with one more command that reads only earlier commands
/// is scoped.
pub proof fn lemma_scoped_push(inst: Seq<CommandView>, c: CommandView)
    requires
        sat_scoped(inst),
        cmd_below(c, inst.len() as int),
    ensures
        sat_scoped(inst.push(c)),
{
    assert forall|k: int| 0 <= k < inst.push(c).len() implies cmd_below(#[trigger] inst.push(c)[k], k) by {
        if k < inst.len() {
            assert(inst.push(c)[k] == inst[k]);
        }
    }
}

/// `defs_ok` of a longer instance gives `defs_ok` of each instance it extends.
pub proof fn lemma_defs_prefix(m: Model, later: Seq<CommandView>, earlier: Seq<CommandView>, from: int)
    requires
        defs_ok(m, later, from),
        extends(later, earlier),
        0 <= from,
    ensures
        defs_ok(m, earlier, from),
{
    reveal(extends);
    assert forall|k: int| from <= k < earlier.len() && !is_constraint(#[trigger] earlier[k]) implies holds(m, k, earlier[k]) by {
        assert(earlier[k] == later.subrange(0, earlier.len() as int)[k]);
        assert(later[k] == earlier[k]);
    }
    assert forall|k: int| from <= k < earlier.len() && is_constraint(#[trigger] earlier[k]) implies m[k].len() == 0 by {
        assert(earlier[k] == later.subrange(0, earlier.len() as int)[k]);
        assert(later[k] == earlier[k]);
    }
}

pub proof fn lemma_defs_from_mono(m: Model, inst: Seq<CommandView>, from: int, later_from: int)
    requires
        defs_ok(m, inst, from),
        from <= later_from,
    ensures
        defs_ok(m, inst, later_from),
{
}

/// A model that meets an instance, with `defs_ok` for one more clause one
/// of whose formulas is true, meets the longer instance.
pub proof fn lemma_meets_push_clause(m: Model, inst: Seq<CommandView>, lits: Seq<Bool>, i: int, from: int)
    requires
        meets(m, inst),
        defs_ok(m, inst.push(CommandView::Clause { lits }), from),
        0 <= from <= inst.len(),
        0 <= i < lits.len(),
        eval(m, lits[i]),
    ensures
        meets(m, inst.push(CommandView::Clause { lits })),
{
    let c = CommandView::Clause { lits };
    assert(inst.push(c)[inst.len() as int] == c);
    assert(is_constraint(c));
    assert(m[inst.len() as int].len() == 0);
    lemma_clause_holds(m, inst.len() as int, lits, i);
    lemma_meets_push_con(m, inst, c);
}

/// Likewise for an at-most-one constraint that holds.
pub proof fn lemma_meets_push_amo(m: Model, inst: Seq<CommandView>, lits: Seq<Bool>, from: int)
    requires
        meets(m, inst),
        defs_ok(m, inst.push(CommandView::AtMostOne { lits }), from),
        0 <= from <= inst.len(),
        at_most_one_true(m, lits),
    ensures
        meets(m, inst.push(CommandView::AtMostOne { lits })),
{
    let c = CommandView::AtMostOne { lits };
    assert(inst.push(c)[inst.len() as int] == c);
    assert(is_constraint(c));
    assert(m[inst.len() as int].len() == 0);
    lemma_meets_push_con(m, inst, c);
}

/// A model that meets an instance, and whose values for a further
/// definition are the defined ones, meets the longer instance.
pub proof fn lemma_meets_push_def(m: Model, inst: Seq<CommandView>, c: CommandView, from: int)
    requires
        meets(m, inst),
        defs_ok(m, inst.push(c), from),
        from <= inst.len(),
        !is_constraint(c),
    ensures
        meets(m, inst.push(c)),
{
    reveal(meets);
    assert(inst.push(c)[inst.len() as int] == c);
    assert(holds(m, inst.len() as int, c));
    assert forall|k: int| 0 <= k < inst.push(c).len() implies holds(m, k, #[trigger] inst.push(c)[k]) by {
        if k < inst.len() {
            assert(inst.push(c)[k] == inst[k]);
        }
    }
}

/// A model that meets an instance and a further constraint meets the longer
/// instance.
pub proof fn lemma_meets_push_con(m: Model, inst: Seq<CommandView>, c: CommandView)
    requires
        meets(m, inst),
        holds(m, inst.len() as int, c),
        inst.len() < m.len(),
    ensures
        meets(m, inst.push(c)),
{
    reveal(meets);
    assert forall|k: int| 0 <= k < inst.push(c).len() implies holds(m, k, #[trigger] inst.push(c)[k]) by {
        if k < inst.len() {
            assert(inst.push(c)[k] == inst[k]);
        }
    }
}

/// A model meets a clause exactly when one of its formulas is true (its row
/// being empty).
pub proof fn lemma_clause_holds(m: Model, k: int, lits: Seq<Bool>, i: int)
    requires
        0 <= i < lits.len(),
        eval(m, lits[i]),
        0 <= k < m.len(),
        m[k].len() == 0,
    ensures
        holds(m, k, CommandView::Clause { lits }),
{
    let c = CommandView::Clause { lits };
    match c {
        CommandView::Clause { lits: l } => {
            assert(eval(m, l[i]));
        },
        _ => {},
    }
}

/// The values of command `k` in the canonical extension of `m1` from
/// command `from` on: those of `m1` for an earlier command or one that
/// introduces free variables, the defined value for a definition (over the
/// values `pre` of the commands before), none for a constraint.
pub open spec fn canon_row(m1: Model, inst: Seq<CommandView>, from: int, pre: Model, k: int) -> Seq<bool> {
    if k < from || k >= inst.len() {
        if 0 <= k < m1.len() {
            m1[k]
        } else {
            Seq::empty()
        }
    } else {
        match inst[k] {
            CommandView::Or { inputs } => seq![any_true(pre, inputs)],
            CommandView::And { inputs } => seq![all_true(pre, inputs)],
            CommandView::Clause { .. } => Seq::empty(),
            CommandView::AtMostOne { .. } => Seq::empty(),
            CommandView::FinSet { domain } => Seq::new(domain.len(), |i: int| slot_value(m1, k, i)),
            CommandView::NewVar => seq![slot_value(m1, k, 0)],
        }
    }
}

/// The first `k` rows of the canonical extension of `m1` from `from` on.
pub open spec fn canon(m1: Model, inst: Seq<CommandView>, from: int, k: nat) -> Model
    decreases k,
{
    if k == 0 {
        Seq::empty()
    } else {
        let pre = canon(m1, inst, from, (k - 1) as nat);
        pre.push(canon_row(m1, inst, from, pre, k - 1))
    }
}

/// Two models have the same rows below `n`.
pub open spec fn rows_agree(a: Model, b: Model, n: int) -> bool {
    forall|j: int| 0 <= j < n ==> (j < a.len() <==> j < b.len()) && (j < a.len() ==> #[trigger] a[j] == b[j])
}

pub proof fn lemma_canon_len(m1: Model, inst: Seq<CommandView>, from: int, k: nat)
    ensures
        canon(m1, inst, from, k).len() == k,
    decreases k,
{
    if k > 0 {
        lemma_canon_len(m1, inst, from, (k - 1) as nat);
    }
}

/// Row `i` of the canonical extension does not change as rows are added.
pub proof fn lemma_canon_stable(m1: Model, inst: Seq<CommandView>, from: int, k: nat, i: int)
    requires
        0 <= i < k,
    ensures
        canon(m1, inst, from, k)[i] == canon_row(m1, inst, from, canon(m1, inst, from, i as nat), i),
    decreases k,
{
    lemma_canon_len(m1, inst, from, (k - 1) as nat);
    if i < k - 1 {
        lemma_canon_stable(m1, inst, from, (k - 1) as nat, i);
    }
}

pub proof fn lemma_canon_prefix(m1: Model, inst: Seq<CommandView>, from: int, k: nat, j: nat)
    requires
        j <= k,
    ensures
        canon(m1, inst, from, k).len() == k,
        rows_agree(canon(m1, inst, from, k), canon(m1, inst, from, j), j as int),
{
    lemma_canon_len(m1, inst, from, k);
    lemma_canon_len(m1, inst, from, j);
    assert forall|i: int| 0 <= i < j implies (i < canon(m1, inst, from, k).len() <==> i < canon(m1, inst, from, j).len())
        && (i < canon(m1, inst, from, k).len() ==> #[trigger] canon(m1, inst, from, k)[i] == canon(m1, inst, from, j)[i]) by {
        lemma_canon_stable(m1, inst, from, k, i);
        lemma_canon_stable(m1, inst, from, j, i);
    }
}

/// Formulas over the rows where two models agree take the same value.
pub proof fn lemma_eval_agree(a: Model, b: Model, n: int, x: Bool)
    requires
        rows_agree(a, b, n),
        bool_below(x, n),
    ensures
        eval(a, x) == eval(b, x),
{
    if let Bool::Lit(l) = x {
        if l.cmd < a.len() {
            assert(a[l.cmd as int] == b[l.cmd as int]);
        }
    }
}

pub proof fn lemma_any_all_agree(a: Model, b: Model, n: int, xs: Seq<Bool>)
    requires
        rows_agree(a, b, n),
        bools_below(xs, n),
    ensures
        any_true(a, xs) == any_true(b, xs),
        all_true(a, xs) == all_true(b, xs),
        at_most_one_true(a, xs) == at_most_one_true(b, xs),
{
    assert forall|i: int| 0 <= i < xs.len() implies eval(a, #[trigger] xs[i]) == eval(b, xs[i]) by {
        lemma_eval_agree(a, b, n, xs[i]);
    }
    if any_true(a, xs) {
        let i = choose|i: int| 0 <= i < xs.len() && eval(a, #[trigger] xs[i]);
        assert(eval(b, xs[i]));
    }
    if any_true(b, xs) {
        let i = choose|i: int| 0 <= i < xs.len() && eval(b, #[trigger] xs[i]);
        assert(eval(a, xs[i]));
    }
}

/// A command over the rows where two models agree, including its own,
/// holds in both or in neither.
pub proof fn lemma_holds_agree(a: Model, b: Model, k: int, c: CommandView)
    requires
        0 <= k,
        rows_agree(a, b, k + 1),
        k < a.len(),
        cmd_below(c, k),
    ensures
        holds(a, k, c) == holds(b, k, c),
{
    assert(a[k] == b[k]);
    match c {
        CommandView::Or { inputs } => {
            lemma_any_all_agree(a, b, k + 1, inputs);
            lemma_bools_below_mono(inputs, k, k + 1);
        },
        CommandView::And { inputs } => {
            lemma_bools_below_mono(inputs, k, k + 1);
            lemma_any_all_agree(a, b, k + 1, inputs);
        },
        CommandView::Clause { lits } => {
            lemma_bools_below_mono(lits, k, k + 1);
            lemma_any_all_agree(a, b, k + 1, lits);
        },
        CommandView::AtMostOne { lits } => {
            lemma_bools_below_mono(lits, k, k + 1);
            lemma_any_all_agree(a, b, k + 1, lits);
        },
        _ => {},
    }
}

/// Models that agree on the rows of a scoped instance both meet it or
/// neither does.
pub proof fn lemma_meets_agree(a: Model, b: Model, inst: Seq<CommandView>)
    requires
        sat_scoped(inst),
        rows_agree(a, b, inst.len() as int),
        meets(a, inst),
    ensures
        meets(b, inst),
{
    reveal(meets);
    if inst.len() > 0 {
        let j = inst.len() - 1;
        assert(j < a.len());
        assert(a[j] == b[j]);
    }
    assert forall|k: int| 0 <= k < inst.len() implies holds(b, k, #[trigger] inst[k]) by {
        assert(cmd_below(inst[k], k));
        assert forall|j: int| 0 <= j < k + 1 implies (j < a.len() <==> j < b.len()) && (j < a.len() ==> #[trigger] a[j] == b[j]) by {
            assert(a[j] == b[j]);
        }
        lemma_holds_agree(a, b, k, inst[k]);
    }
}

/// In `m`, exactly one of the first `n` variables of command `k` is true.
pub open spec fn one_hot(m: Model, k: int, n: nat) -> bool {
    &&& exists|i: int| 0 <= i < n && slot_value(m, k, i)
    &&& forall|i: int, j: int| 0 <= i < j < n ==> !(#[trigger] slot_value(m, k, i) && #[trigger] slot_value(m, k, j))
}

/// The canonical extension of `m1`: the free variables as `m1` has them,
/// every definition at its defined value.
pub open spec fn canonical(m1: Model, inst: Seq<CommandView>, from: int) -> Model {
    canon(m1, inst, from, if m1.len() > inst.len() { m1.len() } else { inst.len() })
}

/// Where the free variables of `m1` meet their commands, the canonical
/// extension keeps the rows of `m1` below `from` and those of the free
/// variables, and gives every definition its defined value.
pub proof fn lemma_canonical(m1: Model, inst: Seq<CommandView>, from: int)
    requires
        sat_scoped(inst),
        0 <= from <= inst.len(),
        inst.len() <= m1.len(),
        forall|k: int| from <= k < inst.len() && (#[trigger] inst[k] is FinSet) ==> one_hot(m1, k, inst[k]->domain.len()),
    ensures
        canonical(m1, inst, from).len() == m1.len(),
        rows_agree(m1, canonical(m1, inst, from), from),
        forall|k: int, i: int|
            from <= k < inst.len() && (#[trigger] inst[k] is FinSet) && 0 <= i < inst[k]->domain.len() ==> #[trigger] slot_value(
                canonical(m1, inst, from),
                k,
                i,
            ) == slot_value(m1, k, i),
        forall|k: int| from <= k < inst.len() && (#[trigger] inst[k] is NewVar) ==> slot_value(canonical(m1, inst, from), k, 0) == slot_value(m1, k, 0),
        defs_ok(canonical(m1, inst, from), inst, from),
{
    let n = m1.len();
    let m2 = canonical(m1, inst, from);
    lemma_canon_prefix(m1, inst, from, n, n);
    assert forall|k: int| 0 <= k < n implies #[trigger] m2[k] == canon_row(m1, inst, from, canon(m1, inst, from, k as nat), k) by {
        lemma_canon_stable(m1, inst, from, n, k);
    }
    assert forall|j: int| 0 <= j < from implies (j < m1.len() <==> j < m2.len()) && (j < m1.len() ==> #[trigger] m1[j] == m2[j]) by {
        assert(m2[j] == canon_row(m1, inst, from, canon(m1, inst, from, j as nat), j));
    }
    assert forall|k: int| from <= k < inst.len() && is_constraint(#[trigger] inst[k]) implies m2[k].len() == 0 by {
        assert(m2[k] == canon_row(m1, inst, from, canon(m1, inst, from, k as nat), k));
    }
    assert forall|k: int| from <= k < inst.len() && !is_constraint(#[trigger] inst[k]) implies holds(m2, k, inst[k]) by {
        let pre = canon(m1, inst, from, k as nat);
        assert(m2[k] == canon_row(m1, inst, from, pre, k));
        lemma_canon_prefix(m1, inst, from, n, k as nat);
        assert(cmd_below(inst[k], k));
        match inst[k] {
            CommandView::Or { inputs } => {
                lemma_any_all_agree(m2, pre, k, inputs);
            },
            CommandView::And { inputs } => {
                lemma_any_all_agree(m2, pre, k, inputs);
            },
            CommandView::FinSet { domain } => {
                assert(one_hot(m1, k, domain.len()));
                let w = choose|w: int| 0 <= w < domain.len() && slot_value(m1, k, w);
                assert(m2[k][w]);
                assert forall|a: int, b: int| 0 <= a < b < domain.len() implies !(#[trigger] m2[k][a] && #[trigger] m2[k][b]) by {
                    assert(!(slot_value(m1, k, a) && slot_value(m1, k, b)));
                }
            },
            _ => {},
        }
    }
    assert forall|k: int, i: int|
        from <= k < inst.len() && (#[trigger] inst[k] is FinSet) && 0 <= i < inst[k]->domain.len() implies #[trigger] slot_value(m2, k, i)
            == slot_value(m1, k, i) by {
        assert(m2[k] == canon_row(m1, inst, from, canon(m1, inst, from, k as nat), k));
    }
    assert forall|k: int| from <= k < inst.len() && (#[trigger] inst[k] is NewVar) implies slot_value(m2, k, 0) == slot_value(m1, k, 0) by {
        assert(m2[k] == canon_row(m1, inst, from, canon(m1, inst, from, k as nat), k));
    }
}

pub proof fn lemma_extends_len(a: Seq<CommandView>, b: Seq<CommandView>)
    requires
        extends(a, b),
    ensures
        b.len() <= a.len(),
{
    reveal(extends);
}

/// From command `from` on, the instance has only commands that introduce
/// variables.
pub open spec fn no_constraints_from(inst: Seq<CommandView>, from: int) -> bool {
    forall|k: int| from <= k < inst.len() ==> !is_constraint(#[trigger] inst[k])
}

/// A model of an instance whose further commands are all definitions at
/// their defined values meets the longer instance.
pub proof fn lemma_meets_defs(m: Model, later: Seq<CommandView>, earlier: Seq<CommandView>)
    requires
        meets(m, earlier),
        extends(later, earlier),
        defs_ok(m, later, earlier.len() as int),
        no_constraints_from(later, earlier.len() as int),
    ensures
        meets(m, later),
{
    reveal(meets);
    reveal(extends);
    assert forall|k: int| 0 <= k < later.len() implies holds(m, k, #[trigger] later[k]) by {
        if k < earlier.len() {
            assert(later[k] == later.subrange(0, earlier.len() as int)[k]);
            assert(holds(m, k, earlier[k]));
        } else {
            assert(!is_constraint(later[k]));
        }
    }
}

pub proof fn lemma_no_constraints_push(inst: Seq<CommandView>, from: int, c: CommandView)
    requires
        no_constraints_from(inst, from),
        !is_constraint(c),
        0 <= from,
    ensures
        no_constraints_from(inst.push(c), from),
{
    assert forall|k: int| from <= k < inst.push(c).len() implies !is_constraint(#[trigger] inst.push(c)[k]) by {
        if k < inst.len() {
            assert(inst.push(c)[k] == inst[k]);
        }
    }
}

pub proof fn lemma_no_constraints_trans(a: Seq<CommandView>, b: Seq<CommandView>, from: int)
    requires
        no_constraints_from(b, from),
        no_constraints_from(a, b.len() as int),
        extends(a, b),
        from <= b.len(),
        0 <= from,
    ensures
        no_constraints_from(a, from),
{
    reveal(extends);
    assert forall|k: int| from <= k < a.len() implies !is_constraint(#[trigger] a[k]) by {
        if k < b.len() {
            assert(a[k] == a.subrange(0, b.len() as int)[k]);
            assert(!is_constraint(b[k]));
        }
    }
}

/// From command `from` on, the instance has only definitions: `Or` and
/// `And` commands.
pub open spec fn defs_only_from(inst: Seq<CommandView>, from: int) -> bool {
    forall|k: int| from <= k < inst.len() ==> (#[trigger] inst[k] is Or) || inst[k] is And
}

pub proof fn lemma_defs_only_push(inst: Seq<CommandView>, from: int, c: CommandView)
    requires
        defs_only_from(inst, from),
        c is Or || c is And,
        0 <= from,
    ensures
        defs_only_from(inst.push(c), from),
{
    assert forall|k: int| from <= k < inst.push(c).len() implies (#[trigger] inst.push(c)[k] is Or) || inst.push(c)[k] is And by {
        if k < inst.len() {
            assert(inst.push(c)[k] == inst[k]);
        }
    }
}

pub proof fn lemma_defs_only_trans(a: Seq<CommandView>, b: Seq<CommandView>, from: int)
    requires
        defs_only_from(b, from),
        defs_only_from(a, b.len() as int),
        extends(a, b),
        0 <= from <= b.len(),
    ensures
        defs_only_from(a, from),
{
    reveal(extends);
    assert forall|k: int| from <= k < a.len() implies (#[trigger] a[k] is Or) || a[k] is And by {
        if k < b.len() {
            assert(a[k] == a.subrange(0, b.len() as int)[k]);
        }
    }
}

/// Commands that only define variables over earlier ones restrict nothing:
/// every model of an instance extends to a model of the longer instance
/// that agrees with it on the earlier commands.
pub proof fn lemma_definitions_extend(m: Model, later: Seq<CommandView>, earlier: Seq<CommandView>) -> (m2: Model)
    requires
        meets(m, earlier),
        extends(later, earlier),
        sat_scoped(later),
        defs_only_from(later, earlier.len() as int),
    ensures
        meets(m2, later),
        rows_agree(m, m2, earlier.len() as int),
{
    reveal(meets);
    lemma_extends_len(later, earlier);
    let n = earlier.len() as int;
    let m1 = if m.len() >= later.len() {
        m
    } else {
        m + Seq::new((later.len() - m.len()) as nat, |i: int| Seq::<bool>::empty())
    };
    assert(rows_agree(m, m1, n)) by {
        assert forall|j: int| 0 <= j < n implies (j < m.len() <==> j < m1.len()) && (j < m.len() ==> #[trigger] m[j] == m1[j]) by {}
    }
    lemma_canonical(m1, later, n);
    let m2 = canonical(m1, later, n);
    assert(rows_agree(m, m2, n)) by {
        assert forall|j: int| 0 <= j < n implies (j < m.len() <==> j < m2.len()) && (j < m.len() ==> #[trigger] m[j] == m2[j]) by {
            assert(m[j] == m1[j]);
            assert(m1[j] == m2[j]);
        }
    }
    lemma_scoped_extends(later, earlier);
    lemma_meets_agree(m, m2, earlier);
    assert(no_constraints_from(later, n));
    lemma_meets_defs(m2, later, earlier);
    m2
}

pub proof fn lemma_scoped_extends(a: Seq<CommandView>, b: Seq<CommandView>)
    requires
        extends(a, b),
        sat_scoped(a),
    ensures
        sat_scoped(b),
{
    reveal(extends);
    assert forall|k: int| 0 <= k < b.len() implies cmd_below(#[trigger] b[k], k) by {
        assert(b[k] == a.subrange(0, b.len() as int)[k]);
        assert(cmd_below(a[k], k));
    }
}

/// A model that meets an instance ending in an `Or` command gives that
/// command's formula the value "one of the inputs is true".
pub proof fn lemma_meets_or(m: Model, inst: Seq<CommandView>, inputs: Seq<Bool>, k: usize)
    requires
        k == inst.len(),
        meets(m, inst.push(CommandView::Or { inputs })),
    ensures
        meets(m, inst),
        eval(m, Bool::Lit(Lit { cmd: k, slot: 0, positive: true })) == any_true(m, inputs),
{
    lemma_meets_last(m, inst, CommandView::Or { inputs });
}

/// Likewise for an `And` command: "all inputs are true".
pub proof fn lemma_meets_and(m: Model, inst: Seq<CommandView>, inputs: Seq<Bool>, k: usize)
    requires
        k == inst.len(),
        meets(m, inst.push(CommandView::And { inputs })),
    ensures
        meets(m, inst),
        eval(m, Bool::Lit(Lit { cmd: k, slot: 0, positive: true })) == all_true(m, inputs),
{
    lemma_meets_last(m, inst, CommandView::And { inputs });
}

/// A model that meets an instance ending in a clause makes one of its formulas true.
pub proof fn lemma_meets_clause(m: Model, inst: Seq<CommandView>, lits: Seq<Bool>)
    requires
        meets(m, inst.push(CommandView::Clause { lits })),
    ensures
        meets(m, inst),
        any_true(m, lits),
{
    lemma_meets_last(m, inst, CommandView::Clause { lits });
}

/// A model that meets an instance ending in an at-most-one constraint makes
/// at most one of its formulas true.
pub proof fn lemma_meets_at_most_one(m: Model, inst: Seq<CommandView>, lits: Seq<Bool>)
    requires
        meets(m, inst.push(CommandView::AtMostOne { lits })),
    ensures
        meets(m, inst),
        at_most_one_true(m, lits),
{
    lemma_meets_last(m, inst, CommandView::AtMostOne { lits });
}

/// A model that meets an instance ending in a fresh variable meets the rest.
pub proof fn lemma_meets_new_var(m: Model, inst: Seq<CommandView>)
    requires
        meets(m, inst.push(CommandView::NewVar)),
    ensures
        meets(m, inst),
{
    lemma_meets_last(m, inst, CommandView::NewVar);
}


/// A model that meets an instance ending in a `FinSet` command sets exactly
/// one of its variables.
pub proof fn lemma_meets_finset(m: Model, inst: Seq<CommandView>, domain: Seq<Option<usize>>, k: usize)
    requires
        meets(m, inst.push(CommandView::FinSet { domain })),
        k == inst.len(),
    ensures
        meets(m, inst),
        k < m.len(),
        m[k as int].len() == domain.len(),
        exists|i: int| 0 <= i < domain.len() && #[trigger] m[k as int][i],
        forall|i: int, j: int| 0 <= i < j < domain.len() ==> !(#[trigger] m[k as int][i] && #[trigger] m[k as int][j]),
{
    lemma_meets_last(m, inst, CommandView::FinSet { domain });
}

/// The model held in rows of values, one row per command.
pub open spec fn model_view(rows: Seq<Vec<bool>>) -> Model {
    rows.map_values(|r: Vec<bool>| r@)
}

/// The value of a formula under a model given as rows of values.
pub fn eval_model(model: &Vec<Vec<bool>>, b: Bool) -> (res: bool)
    ensures
        res == eval(model_view(model@), b),
{
    match b {
        Bool::Const(c) => c,
        Bool::Lit(l) => {
            let v = if l.cmd < model.len() && l.slot < model[l.cmd].len() {
                model[l.cmd][l.slot]
            } else {
                false
            };
            assert(v == slot_value(model_view(model@), l.cmd as int, l.slot as int));
            if l.positive {
                v
            } else {
                !v
            }
        },
    }
}

/// Whether some formula of `lits` is true in the model.
pub fn any_holds(model: &Vec<Vec<bool>>, lits: &Vec<Bool>) -> (res: bool)
    ensures
        res == any_true(model_view(model@), lits@),
{
    let ghost m = model_view(model@);
    let mut i: usize = 0;
    while i < lits.len()
        invariant
            i <= lits.len(),
            m == model_view(model@),
            forall|j: int| 0 <= j < i ==> !eval(m, #[trigger] lits@[j]),
        decreases lits.len() - i,
    {
        if eval_model(model, lits[i]) {
            return true;
        }
        i += 1;
    }
    false
}

/// Whether all formulas of `lits` are true in the model.
pub fn all_hold(model: &Vec<Vec<bool>>, lits: &Vec<Bool>) -> (res: bool)
    ensures
        res == all_true(model_view(model@), lits@),
{
    let ghost m = model_view(model@);
    let mut i: usize = 0;
    while i < lits.len()
        invariant
            i <= lits.len(),
            m == model_view(model@),
            forall|j: int| 0 <= j < i ==> eval(m, #[trigger] lits@[j]),
        decreases lits.len() - i,
    {
        if !eval_model(model, lits[i]) {
            return false;
        }
        i += 1;
    }
    true
}

/// Whether at most one formula of `lits` is true in the model.
fn at_most_one_holds(model: &Vec<Vec<bool>>, lits: &Vec<Bool>) -> (res: bool)
    ensures
        res == at_most_one_true(model_view(model@), lits@),
{
    let ghost m = model_view(model@);
    let mut seen: Option<usize> = None;
    let mut i: usize = 0;
    while i < lits.len()
        invariant
            i <= lits.len(),
            m == model_view(model@),
            forall|a: int, b: int| 0 <= a < b < i ==> !(eval(m, #[trigger] lits@[a]) && eval(m, #[trigger] lits@[b])),
            match seen {
                Some(w) => w < i && eval(m, lits@[w as int]),
                None => forall|j: int| 0 <= j < i ==> !eval(m, #[trigger] lits@[j]),
            },
        decreases lits.len() - i,
    {
        if eval_model(model, lits[i]) {
            match seen {
                Some(w) => {
                    assert(!(eval(m, lits@[w as int]) && eval(m, lits@[i as int])) == false);
                    return false;
                },
                None => {
                    seen = Some(i);
                },
            }
        }
        i += 1;
    }
    true
}

/// Whether exactly one value of a row is true, for a row of length `n`.
fn one_of_row(row: &Vec<bool>, n: usize) -> (res: bool)
    ensures
        res == (row@.len() == n && (exists|i: int| 0 <= i < n && #[trigger] row@[i]) && forall|i: int, j: int|
            0 <= i < j < n ==> !(#[trigger] row@[i] && #[trigger] row@[j])),
{
    if row.len() != n {
        return false;
    }
    let mut seen: Option<usize> = None;
    let mut i: usize = 0;
    while i < n
        invariant
            i <= n,
            row@.len() == n,
            forall|a: int, b: int| 0 <= a < b < i ==> !(#[trigger] row@[a] && #[trigger] row@[b]),
            match seen {
                Some(w) => w < i && row@[w as int],
                None => forall|j: int| 0 <= j < i ==> !#[trigger] row@[j],
            },
        decreases n - i,
    {
        if row[i] {
            match seen {
                Some(w) => {
                    assert(row@[w as int] && row@[i as int]);
                    return false;
                },
                None => {
                    seen = Some(i);
                },
            }
        }
        i += 1;
    }
    match seen {
        Some(w) => {
            assert(row@[w as int]);
            true
        },
        None => false,
    }
}

/// Whether the values the model gives to command `k` meet it.
fn holds_at(model: &Vec<Vec<bool>>, k: usize, c: &Command) -> (res: bool)
    requires
        k < model.len(),
    ensures
        res == holds(model_view(model@), k as int, c@),
{
    let ghost m = model_view(model@);
    assert(m[k as int] == model@[k as int]@);
    let row = &model[k];
    match c {
        Command::FinSet { domain } => one_of_row(row, domain.len()),
        Command::NewVar => row.len() == 1,
        Command::Or { inputs } => row.len() == 1 && row[0] == any_holds(model, inputs),
        Command::And { inputs } => row.len() == 1 && row[0] == all_hold(model, inputs),
        Command::Clause { lits } => row.len() == 0 && any_holds(model, lits),
        Command::AtMostOne { lits } => row.len() == 0 && at_most_one_holds(model, lits),
    }
}

impl SatInstance {
    /// Whether a model, one row of values per command, meets every command.
    pub fn is_model(&self, model: &Vec<Vec<bool>>) -> (res: bool)
        ensures
            res == meets(model_view(model@), self@),
    {
        reveal(meets);
        let ghost m = model_view(model@);
        if self.commands.len() > model.len() {
            return false;
        }
        let mut k: usize = 0;
        while k < self.commands.len()
            invariant
                k <= self.commands.len(),
                self.commands.len() <= model.len(),
                m == model_view(model@),
                forall|j: int| 0 <= j < k ==> holds(m, j, #[trigger] self@[j]),
            decreases self.commands.len() - k,
        {
            assert(self@[k as int] == self.commands@[k as int]@);
            if !holds_at(model, k, &self.commands[k]) {
                proof {
                    reveal(meets);
                    assert(!holds(m, k as int, self@[k as int]));
                }
                return false;
            }
            k += 1;
        }
        true
    }
}

} // verus!
