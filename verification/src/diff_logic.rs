//! A difference-logic instance built step by step, as plain data: commands
//! that introduce Boolean and integer variables (each named by the index of
//! its command), clauses over the Boolean ones, and difference constraints
//! `x - y <= k` that hold where a literal is true. A back end replays the
//! commands and reports a model.
use vstd::prelude::*;

verus! {

/// A Boolean variable with a polarity.
#[derive(Debug, Clone, Copy, PartialEq, Eq, Structural)]
pub struct BLit {
    pub var: usize,
    pub positive: bool,
}

/// A command of the instance.
#[derive(Debug)]
pub enum DiffCommand {
    /// A Boolean variable.
    NewBool,
    /// An integer variable.
    NewInt,
    /// At least one of the literals is true.
    Clause { lits: Vec<BLit> },
    /// Where `cond` is true (always, for `None`): `x - y <= k`.
    Diff { cond: Option<BLit>, x: usize, y: usize, k: i64 },
}

/// The model of a constraint.
pub enum DiffCommandView {
    NewBool,
    NewInt,
    Clause { lits: Seq<BLit> },
    Diff { cond: Option<BLit>, x: usize, y: usize, k: i64 },
}

impl View for DiffCommand {
    type V = DiffCommandView;

    open spec fn view(&self) -> DiffCommandView {
        match self {
            DiffCommand::NewBool => DiffCommandView::NewBool,
            DiffCommand::NewInt => DiffCommandView::NewInt,
            DiffCommand::Clause { lits } => DiffCommandView::Clause { lits: lits@ },
            DiffCommand::Diff { cond, x, y, k } => DiffCommandView::Diff { cond: *cond, x: *x, y: *y, k: *k },
        }
    }
}

/// A difference-logic instance: its commands in order.
pub struct DiffInstance {
    pub commands: Vec<DiffCommand>,
}

impl View for DiffInstance {
    type V = Seq<DiffCommandView>;

    open spec fn view(&self) -> Seq<DiffCommandView> {
        self.commands@.map_values(|c: DiffCommand| c@)
    }
}

/// An assignment: a value per Boolean variable and per integer variable,
/// each at the index of the command that introduced it.
pub struct DiffModel {
    pub bools: Seq<bool>,
    pub ints: Seq<int>,
}

/// The value of a literal (a variable without a value counts as false).
pub open spec fn lit_value(m: DiffModel, l: BLit) -> bool {
    let v = l.var < m.bools.len() && m.bools[l.var as int];
    if l.positive {
        v
    } else {
        !v
    }
}

/// The value of an integer variable (0 for one without a value).
pub open spec fn int_value(m: DiffModel, x: usize) -> int {
    if x < m.ints.len() {
        m.ints[x as int]
    } else {
        0
    }
}

/// Whether a model meets a constraint.
pub open spec fn diff_holds(m: DiffModel, c: DiffCommandView) -> bool {
    match c {
        DiffCommandView::NewBool => true,
        DiffCommandView::NewInt => true,
        DiffCommandView::Clause { lits } => exists|i: int| 0 <= i < lits.len() && lit_value(m, #[trigger] lits[i]),
        DiffCommandView::Diff { cond, x, y, k } => (match cond {
            Some(l) => lit_value(m, l),
            None => true,
        }) ==> int_value(m, x) - int_value(m, y) <= k,
    }
}

/// Whether a model meets every constraint.
pub open spec fn diff_meets(m: DiffModel, cs: Seq<DiffCommandView>) -> bool {
    forall|i: int| 0 <= i < cs.len() ==> diff_holds(m, #[trigger] cs[i])
}

/// The commands of `later` begin with those of `earlier`.
pub open spec fn diff_extends(later: Seq<DiffCommandView>, earlier: Seq<DiffCommandView>) -> bool {
    &&& earlier.len() <= later.len()
    &&& forall|i: int| 0 <= i < earlier.len() ==> #[trigger] later[i] == earlier[i]
}

pub proof fn lemma_diff_extends_refl(a: Seq<DiffCommandView>)
    ensures
        diff_extends(a, a),
{
}

pub proof fn lemma_diff_extends_trans(a: Seq<DiffCommandView>, b: Seq<DiffCommandView>, c: Seq<DiffCommandView>)
    requires
        diff_extends(a, b),
        diff_extends(b, c),
    ensures
        diff_extends(a, c),
{
    assert forall|i: int| 0 <= i < c.len() implies #[trigger] a[i] == c[i] by {
        assert(a[i] == b[i]);
    }
}

pub proof fn lemma_diff_extends_push(a: Seq<DiffCommandView>, c: DiffCommandView)
    ensures
        diff_extends(a.push(c), a),
{
    assert forall|i: int| 0 <= i < a.len() implies #[trigger] a.push(c)[i] == a[i] by {}
}

/// A model that meets an instance meets each instance it extends.
pub proof fn lemma_diff_meets_prefix(m: DiffModel, later: Seq<DiffCommandView>, earlier: Seq<DiffCommandView>)
    requires
        diff_meets(m, later),
        diff_extends(later, earlier),
    ensures
        diff_meets(m, earlier),
{
    assert forall|i: int| 0 <= i < earlier.len() implies diff_holds(m, #[trigger] earlier[i]) by {
        assert(later[i] == earlier[i]);
    }
}

/// A model that meets an instance ending in `c` meets `c`.
pub proof fn lemma_diff_meets_last(m: DiffModel, inst: Seq<DiffCommandView>, c: DiffCommandView)
    requires
        diff_meets(m, inst.push(c)),
    ensures
        diff_meets(m, inst),
        diff_holds(m, c),
{
    lemma_diff_extends_push(inst, c);
    lemma_diff_meets_prefix(m, inst.push(c), inst);
    assert(inst.push(c)[inst.len() as int] == c);
}

/// The value of Boolean variable `v` (false where the model holds none).
pub open spec fn bval(m: DiffModel, v: int) -> bool {
    0 <= v < m.bools.len() && m.bools[v]
}

/// The value of integer variable `v` (0 where the model holds none).
pub open spec fn ival(m: DiffModel, v: int) -> int {
    if 0 <= v < m.ints.len() {
        m.ints[v]
    } else {
        0
    }
}

/// Two models give the same values to every variable below `n`.
pub open spec fn same_below(a: DiffModel, b: DiffModel, n: int) -> bool {
    &&& forall|v: int| 0 <= v < n ==> #[trigger] bval(a, v) == bval(b, v)
    &&& forall|v: int| 0 <= v < n ==> #[trigger] ival(a, v) == ival(b, v)
}

/// A command reads only variables below `n`.
pub open spec fn refs_below(c: DiffCommandView, n: int) -> bool {
    match c {
        DiffCommandView::NewBool => true,
        DiffCommandView::NewInt => true,
        DiffCommandView::Clause { lits } => forall|i: int| 0 <= i < lits.len() ==> (#[trigger] lits[i]).var < n,
        DiffCommandView::Diff { cond, x, y, k } => (match cond {
            Some(l) => l.var < n,
            None => true,
        }) && x < n && y < n,
    }
}

/// Every command reads only variables introduced before it.
pub open spec fn scoped(inst: Seq<DiffCommandView>) -> bool {
    forall|i: int| 0 <= i < inst.len() ==> refs_below(#[trigger] inst[i], i)
}

/// A model that takes `a`'s values and `b` for Boolean variable `v`.
pub open spec fn with_bool(a: DiffModel, v: int, b: bool) -> DiffModel {
    DiffModel {
        bools: Seq::new(if a.bools.len() > v + 1 { a.bools.len() } else { (v + 1) as nat }, |i: int| if i == v { b } else { bval(a, i) }),
        ints: a.ints,
    }
}

pub proof fn lemma_with_bool(a: DiffModel, v: int, b: bool)
    requires
        0 <= v,
    ensures
        bval(with_bool(a, v, b), v) == b,
        forall|i: int| i != v ==> #[trigger] bval(with_bool(a, v, b), i) == bval(a, i),
        forall|i: int| #[trigger] ival(with_bool(a, v, b), i) == ival(a, i),
        same_below(a, with_bool(a, v, b), v),
{
}

pub proof fn lemma_same_below_lit(a: DiffModel, b: DiffModel, n: int, l: BLit)
    requires
        same_below(a, b, n),
        l.var < n,
    ensures
        lit_value(a, l) == lit_value(b, l),
{
    assert(bval(a, l.var as int) == bval(b, l.var as int));
}

pub proof fn lemma_same_below_int(a: DiffModel, b: DiffModel, n: int, x: usize)
    requires
        same_below(a, b, n),
        x < n,
    ensures
        int_value(a, x) == int_value(b, x),
{
    assert(ival(a, x as int) == ival(b, x as int));
}

pub proof fn lemma_same_below_weaken(a: DiffModel, b: DiffModel, n: int, k: int)
    requires
        same_below(a, b, n),
        k <= n,
    ensures
        same_below(a, b, k),
{
}

pub proof fn lemma_same_below_trans(a: DiffModel, b: DiffModel, c: DiffModel, n: int)
    requires
        same_below(a, b, n),
        same_below(b, c, n),
    ensures
        same_below(a, c, n),
{
    assert forall|v: int| 0 <= v < n implies #[trigger] bval(a, v) == bval(c, v) by {
        assert(bval(a, v) == bval(b, v));
    }
    assert forall|v: int| 0 <= v < n implies #[trigger] ival(a, v) == ival(c, v) by {
        assert(ival(a, v) == ival(b, v));
    }
}

/// Models that agree below `n` agree on each command that reads only
/// variables below `n`.
pub proof fn lemma_same_below_holds(a: DiffModel, b: DiffModel, n: int, c: DiffCommandView)
    requires
        same_below(a, b, n),
        refs_below(c, n),
    ensures
        diff_holds(a, c) == diff_holds(b, c),
{
    match c {
        DiffCommandView::Clause { lits } => {
            assert forall|i: int| 0 <= i < lits.len() implies lit_value(a, #[trigger] lits[i]) == lit_value(b, lits[i]) by {
                lemma_same_below_lit(a, b, n, lits[i]);
            }
        },
        DiffCommandView::Diff { cond, x, y, k } => {
            lemma_same_below_int(a, b, n, x);
            lemma_same_below_int(a, b, n, y);
            if let Some(l) = cond {
                lemma_same_below_lit(a, b, n, l);
            }
        },
        _ => {},
    }
}

/// Models that agree on the variables of a scoped instance both meet it or both do not.
pub proof fn lemma_same_below_meets(a: DiffModel, b: DiffModel, inst: Seq<DiffCommandView>)
    requires
        scoped(inst),
        same_below(a, b, inst.len() as int),
        diff_meets(a, inst),
    ensures
        diff_meets(b, inst),
{
    assert forall|i: int| 0 <= i < inst.len() implies diff_holds(b, #[trigger] inst[i]) by {
        assert(refs_below(inst[i], i));
        lemma_refs_below_mono(inst[i], i, inst.len() as int);
        lemma_same_below_holds(a, b, inst.len() as int, inst[i]);
    }
}

pub proof fn lemma_refs_below_mono(c: DiffCommandView, n: int, k: int)
    requires
        refs_below(c, n),
        n <= k,
    ensures
        refs_below(c, k),
{
}

/// A model meets an instance with one more command when it meets the
/// instance and the command.
pub proof fn lemma_diff_meets_push(m: DiffModel, inst: Seq<DiffCommandView>, c: DiffCommandView)
    requires
        diff_meets(m, inst),
        diff_holds(m, c),
    ensures
        diff_meets(m, inst.push(c)),
{
    assert forall|i: int| 0 <= i < inst.push(c).len() implies diff_holds(m, #[trigger] inst.push(c)[i]) by {
        if i < inst.len() {
            assert(inst.push(c)[i] == inst[i]);
        }
    }
}

/// An instance with one more command is scoped when the command reads only
/// variables introduced before it.
pub proof fn lemma_scoped_push(inst: Seq<DiffCommandView>, c: DiffCommandView)
    requires
        scoped(inst),
        refs_below(c, inst.len() as int),
    ensures
        scoped(inst.push(c)),
{
    assert forall|i: int| 0 <= i < inst.push(c).len() implies refs_below(#[trigger] inst.push(c)[i], i) by {
        if i < inst.len() {
            assert(inst.push(c)[i] == inst[i]);
        }
    }
}

/// A clause holds in a model where one of its literals is true.
pub proof fn lemma_clause_holds(m: DiffModel, cl: Seq<BLit>, k: int)
    requires
        0 <= k < cl.len(),
        lit_value(m, cl[k]),
    ensures
        diff_holds(m, DiffCommandView::Clause { lits: cl }),
{
    let c = DiffCommandView::Clause { lits: cl };
    match c {
        DiffCommandView::Clause { lits } => {
            assert(lit_value(m, lits[k]));
        },
        _ => {},
    }
}

impl DiffInstance {
    /// An instance without commands.
    pub fn new() -> (res: DiffInstance)
        ensures
            res@ == Seq::<DiffCommandView>::empty(),
    {
        let res = DiffInstance { commands: Vec::new() };
        assert(res@ =~= Seq::<DiffCommandView>::empty());
        res
    }

    fn push(&mut self, c: DiffCommand)
        ensures
            final(self)@ == old(self)@.push(c@),
    {
        let ghost cv = c@;
        self.commands.push(c);
        assert(self@ =~= old(self)@.push(cv));
    }

    /// A fresh Boolean variable, as a positive literal.
    pub fn new_bool(&mut self) -> (res: BLit)
        ensures
            final(self)@ == old(self)@.push(DiffCommandView::NewBool),
            res.var == old(self)@.len(),
            res.positive,
    {
        let k = self.commands.len();
        self.push(DiffCommand::NewBool);
        BLit { var: k, positive: true }
    }

    /// A fresh integer variable.
    pub fn new_int(&mut self) -> (res: usize)
        ensures
            final(self)@ == old(self)@.push(DiffCommandView::NewInt),
            res == old(self)@.len(),
    {
        let k = self.commands.len();
        self.push(DiffCommand::NewInt);
        k
    }

    /// Requires at least one of `lits` to be true.
    pub fn add_clause(&mut self, lits: Vec<BLit>)
        ensures
            final(self)@ == old(self)@.push(DiffCommandView::Clause { lits: lits@ }),
    {
        self.push(DiffCommand::Clause { lits });
    }

    /// Requires `x - y <= k` where `cond` is true (always, for `None`).
    pub fn add_diff(&mut self, cond: Option<BLit>, x: usize, y: usize, k: i64)
        ensures
            final(self)@ == old(self)@.push(DiffCommandView::Diff { cond, x, y, k }),
    {
        self.push(DiffCommand::Diff { cond, x, y, k });
    }
}

/// The negation of a literal.
pub fn neg(l: BLit) -> (res: BLit)
    ensures
        res == (BLit { var: l.var, positive: !l.positive }),
        forall|m: DiffModel| lit_value(m, res) == !lit_value(m, l),
{
    BLit { var: l.var, positive: !l.positive }
}

/// The model held in two lists of values.
pub open spec fn diff_model(bools: Seq<bool>, ints: Seq<i64>) -> DiffModel {
    DiffModel { bools, ints: ints.map_values(|v: i64| v as int) }
}

/// The value of a literal in a model given as lists of values.
fn lit_value_exec(bools: &Vec<bool>, l: BLit) -> (res: bool)
    ensures
        forall|ints: Seq<i64>| res == lit_value(diff_model(bools@, ints), l),
{
    let v = l.var < bools.len() && bools[l.var];
    if l.positive {
        v
    } else {
        !v
    }
}

/// The value of an integer variable in a model given as lists of values.
fn int_value_exec(ints: &Vec<i64>, x: usize) -> (res: i64)
    ensures
        forall|bools: Seq<bool>| res as int == int_value(diff_model(bools, ints@), x),
{
    if x < ints.len() {
        ints[x]
    } else {
        0
    }
}

impl DiffInstance {
    /// Whether a model, given as lists of values, meets every constraint.
    pub fn is_model(&self, bools: &Vec<bool>, ints: &Vec<i64>) -> (res: bool)
        ensures
            res == diff_meets(diff_model(bools@, ints@), self@),
    {
        let ghost m = diff_model(bools@, ints@);
        let mut i: usize = 0;
        while i < self.commands.len()
            invariant
                i <= self.commands.len(),
                m == diff_model(bools@, ints@),
                forall|j: int| 0 <= j < i ==> diff_holds(m, #[trigger] self@[j]),
            decreases self.commands.len() - i,
        {
            assert(self@[i as int] == self.commands@[i as int]@);
            let ok = match &self.commands[i] {
                DiffCommand::NewBool => true,
                DiffCommand::NewInt => true,
                DiffCommand::Clause { lits } => {
                    let mut found = false;
                    let mut j: usize = 0;
                    while j < lits.len()
                        invariant
                            j <= lits.len(),
                            m == diff_model(bools@, ints@),
                            !found ==> forall|jj: int| 0 <= jj < j ==> !lit_value(m, #[trigger] lits@[jj]),
                            found ==> exists|jj: int| 0 <= jj < lits@.len() && lit_value(m, #[trigger] lits@[jj]),
                        decreases lits.len() - j,
                    {
                        if lit_value_exec(bools, lits[j]) {
                            found = true;
                        }
                        j += 1;
                    }
                    found
                },
                DiffCommand::Diff { cond, x, y, k } => {
                    let active = match cond {
                        Some(l) => lit_value_exec(bools, *l),
                        None => true,
                    };
                    let a = int_value_exec(ints, *x);
                    let b = int_value_exec(ints, *y);
                    !active || (a as i128) - (b as i128) <= (*k as i128)
                },
            };
            if !ok {
                assert(!diff_holds(m, self@[i as int]));
                return false;
            }
            i += 1;
        }
        true
    }
}

} // verus!
