//! Plans: for each step, which train holds each route; and their text form.
use vstd::prelude::*;
use crate::text::{decimal, join, join_strings, pad_left, pad_right, push_decimal, push_spaces};

verus! {

/// The name of a route.
pub type RouteId = String;

/// A train, by its index in the problem.
pub type TrainId = usize;

/// A movement plan: for each step, the routes with the train that holds
/// each, if any.
pub struct Plan {
    pub steps: Vec<Vec<(String, Option<TrainId>)>>,
}

/// The verdict of a deadlock check.
pub enum DeadlockResult {
    /// The trains can all leave; the plan shows how.
    Live(Plan),
    /// The trains cannot all leave.
    Deadlocked(()),
}

/// The model of one step of a plan.
pub type StepView = Seq<(Seq<char>, Option<usize>)>;

/// The model of a step.
pub open spec fn step_view(step: Seq<(String, Option<TrainId>)>) -> StepView {
    step.map_values(|e: (String, Option<TrainId>)| (e.0@, e.1))
}

impl View for Plan {
    type V = Seq<StepView>;

    open spec fn view(&self) -> Seq<StepView> {
        self.steps@.map_values(|s: Vec<(String, Option<TrainId>)>| step_view(s@))
    }
}

/// The holder of the first entry of route `r` in a step, if the step lists `r`.
pub open spec fn lookup_route(step: StepView, r: Seq<char>) -> Option<Option<usize>>
    decreases step.len(),
{
    if step.len() == 0 {
        None
    } else if step[0].0 == r {
        Some(step[0].1)
    } else {
        lookup_route(step.drop_first(), r)
    }
}

/// Whether train `t` already held route `r` in the step before step `n`.
pub open spec fn already_allocated(plan: Seq<StepView>, n: int, r: Seq<char>, t: usize) -> bool {
    n > 0 && lookup_route(plan[n - 1], r) == Some(Some(t))
}

/// A plan can be printed when every route that a train holds in a step after
/// the first one is listed in the step before.
pub open spec fn printable(plan: Seq<StepView>) -> bool {
    forall|n: int, k: int|
        1 <= n < plan.len() && 0 <= k < plan[n].len() && (#[trigger] plan[n][k]).1 is Some
            ==> lookup_route(plan[n - 1], plan[n][k].0) is Some
}

/// The command that sends train `t` into route `r`.
pub open spec fn command(t: usize, r: Seq<char>) -> Seq<char> {
    "t"@ + decimal(t as nat) + " r"@ + r
}

/// The commands of the first `k` entries of step `n`: one for each route
/// that a train holds and did not hold the step before.
pub open spec fn step_commands_upto(plan: Seq<StepView>, n: int, k: int) -> Seq<Seq<char>>
    decreases k,
{
    if k <= 0 {
        Seq::empty()
    } else {
        let before = step_commands_upto(plan, n, k - 1);
        let e = plan[n][k - 1];
        match e.1 {
            Some(t) => if already_allocated(plan, n, e.0, t) {
                before
            } else {
                before.push(command(t, e.0))
            },
            None => before,
        }
    }
}

/// The commands of step `n`.
pub open spec fn step_commands(plan: Seq<StepView>, n: int) -> Seq<Seq<char>> {
    step_commands_upto(plan, n, plan[n].len() as int)
}

/// The command text: the commands of each step one per line, the steps
/// separated by an empty line.
pub open spec fn commands_text(plan: Seq<StepView>) -> Seq<char> {
    join(Seq::new(plan.len(), |n: int| join(step_commands(plan, n), "\n"@)), "\n\n"@)
}

/// What the summary shows of the holder of an entry of step `n`: `.t` for a
/// train that held the route the step before, `*t` for one that entered it,
/// `___` for a free route.
pub open spec fn holder_mark(plan: Seq<StepView>, n: int, e: (Seq<char>, Option<usize>)) -> Seq<char> {
    match e.1 {
        Some(t) => if already_allocated(plan, n, e.0, t) {
            "."@ + decimal(t as nat)
        } else {
            "*"@ + decimal(t as nat)
        },
        None => "___"@,
    }
}

/// The summary cell of an entry: `r<route>` right-aligned in 8 columns, a
/// space, and the holder mark left-aligned in 3 columns.
pub open spec fn cell(plan: Seq<StepView>, n: int, e: (Seq<char>, Option<usize>)) -> Seq<char> {
    pad_left("r"@ + e.0, 8) + " "@ + pad_right(holder_mark(plan, n, e), 3)
}

/// The summary line of step `n`.
pub open spec fn step_line(plan: Seq<StepView>, n: int) -> Seq<char> {
    "Step "@ + decimal(n as nat) + ": "@ + join(
        Seq::new(plan[n].len(), |k: int| cell(plan, n, plan[n][k])),
        " "@,
    ) + "\n"@
}

/// The summary lines of the first `m` steps.
pub open spec fn summary_upto(plan: Seq<StepView>, m: int) -> Seq<char>
    decreases m,
{
    if m <= 0 {
        Seq::empty()
    } else {
        summary_upto(plan, m - 1) + step_line(plan, m - 1)
    }
}

/// The summary: one line per step.
pub open spec fn summary_text(plan: Seq<StepView>) -> Seq<char> {
    summary_upto(plan, plan.len() as int)
}

proof fn lemma_commands_local(plan: Seq<StepView>, n: int, k: int)
    requires
        1 <= n < plan.len(),
        0 <= k <= plan[n].len(),
    ensures
        step_commands_upto(plan, n, k) == step_commands_upto(seq![plan[n - 1], plan[n]], 1, k),
    decreases k,
{
    let two = seq![plan[n - 1], plan[n]];
    if k > 0 {
        lemma_commands_local(plan, n, k - 1);
        assert(two[1] == plan[n] && two[0] == plan[n - 1]);
    }
}

/// What printing a step says depends only on that step and the one before:
/// each step after the first gets the same commands, and each entry the
/// same holder mark, as in the two-step plan made of it and the step
/// before.
pub proof fn lemma_step_text_local(plan: Seq<StepView>, n: int)
    requires
        1 <= n < plan.len(),
    ensures
        step_commands(plan, n) == step_commands(seq![plan[n - 1], plan[n]], 1),
        forall|e: (Seq<char>, Option<usize>)| #[trigger] holder_mark(plan, n, e) == holder_mark(seq![plan[n - 1], plan[n]], 1, e),
{
    let two = seq![plan[n - 1], plan[n]];
    assert(two[1] == plan[n] && two[0] == plan[n - 1]);
    lemma_commands_local(plan, n, plan[n].len() as int);
}

/// A train holding a route it did not hold in the step before (or any
/// route in the first step) is marked as entering it and gets a command
/// for it.
pub proof fn lemma_entry_marked(plan: Seq<StepView>, n: int, k: int)
    requires
        0 <= n < plan.len(),
        0 <= k < plan[n].len(),
        plan[n][k].1 is Some,
        n == 0 || lookup_route(plan[n - 1], plan[n][k].0) != Some(plan[n][k].1),
    ensures
        holder_mark(plan, n, plan[n][k]) == "*"@ + decimal(plan[n][k].1->0 as nat),
        step_commands(plan, n).contains(command(plan[n][k].1->0, plan[n][k].0)),
{
    lemma_commands_have(plan, n, k, plan[n].len() as int);
}

proof fn lemma_commands_have(plan: Seq<StepView>, n: int, k: int, m: int)
    requires
        0 <= n < plan.len(),
        0 <= k < m <= plan[n].len(),
        plan[n][k].1 is Some,
        n == 0 || lookup_route(plan[n - 1], plan[n][k].0) != Some(plan[n][k].1),
    ensures
        step_commands_upto(plan, n, m).contains(command(plan[n][k].1->0, plan[n][k].0)),
    decreases m,
{
    let x = command(plan[n][k].1->0, plan[n][k].0);
    let before = step_commands_upto(plan, n, m - 1);
    if m - 1 == k {
        assert(step_commands_upto(plan, n, m) == before.push(x));
        assert(before.push(x)[before.len() as int] == x);
    } else {
        lemma_commands_have(plan, n, k, m - 1);
        let i = choose|i: int| 0 <= i < before.len() && before[i] == x;
        let e = plan[n][m - 1];
        if e.1 is Some && !already_allocated(plan, n, e.0, e.1->0) {
            assert(before.push(command(e.1->0, e.0))[i] == x);
        }
    }
}

/// In a step whose routes are listed once each, the holder of a listed
/// route is the one given with it.
proof fn lemma_lookup_listed(step: StepView, k: int)
    requires
        0 <= k < step.len(),
        forall|i: int, j: int| 0 <= i < j < step.len() ==> step[i].0 != step[j].0,
    ensures
        lookup_route(step, step[k].0) == Some(step[k].1),
    decreases step.len(),
{
    if k > 0 {
        let rest = step.drop_first();
        assert(step[0].0 != step[k].0);
        assert(rest[k - 1] == step[k]);
        lemma_lookup_listed(rest, k - 1);
    }
}

proof fn lemma_stay_upto(plan: Seq<StepView>, n: int, k: int)
    requires
        1 <= n < plan.len(),
        plan[n] == plan[n - 1],
        forall|i: int, j: int| 0 <= i < j < plan[n].len() ==> plan[n][i].0 != plan[n][j].0,
        0 <= k <= plan[n].len(),
    ensures
        step_commands_upto(plan, n, k).len() == 0,
    decreases k,
{
    if k > 0 {
        lemma_stay_upto(plan, n, k - 1);
        lemma_lookup_listed(plan[n], k - 1);
    }
}

/// A step that repeats the step before (each route listed once) moves no
/// train: it gets no commands, and every held route is marked as held
/// already.
pub proof fn lemma_repeated_step_is_quiet(plan: Seq<StepView>, n: int)
    requires
        1 <= n < plan.len(),
        plan[n] == plan[n - 1],
        forall|i: int, j: int| 0 <= i < j < plan[n].len() ==> plan[n][i].0 != plan[n][j].0,
    ensures
        step_commands(plan, n).len() == 0,
        forall|k: int|
            0 <= k < plan[n].len() && plan[n][k].1 is Some ==> #[trigger] holder_mark(plan, n, plan[n][k]) == "."@ + decimal(
                plan[n][k].1->0 as nat,
            ),
{
    lemma_stay_upto(plan, n, plan[n].len() as int);
    assert forall|k: int| 0 <= k < plan[n].len() && plan[n][k].1 is Some implies #[trigger] holder_mark(
        plan,
        n,
        plan[n][k],
    ) == "."@ + decimal(plan[n][k].1->0 as nat) by {
        lemma_lookup_listed(plan[n], k);
    }
}

/// The holder of the first entry of `r` in a step.
fn lookup_entry(step: &Vec<(String, Option<TrainId>)>, r: &String) -> (res: Option<Option<TrainId>>)
    ensures
        res == lookup_route(step_view(step@), r@),
{
    let ghost sv = step_view(step@);
    assert(sv.skip(0) =~= sv);
    let mut i: usize = 0;
    while i < step.len()
        invariant
            i <= step.len(),
            sv == step_view(step@),
            sv.len() == step@.len(),
            lookup_route(sv, r@) == lookup_route(sv.skip(i as int), r@),
        decreases step.len() - i,
    {
        assert(sv.skip(i as int)[0] == sv[i as int]);
        assert(sv.skip(i as int).drop_first() =~= sv.skip(i + 1));
        if step[i].0 == *r {
            return Some(step[i].1);
        }
        i += 1;
    }
    None
}

/// Appends the summary cell of an entry.
fn push_cell(summary: &mut String, r: &String, mark: &String)
    ensures
        final(summary)@ == old(summary)@ + pad_left("r"@ + r@, 8) + " "@ + pad_right(mark@, 3),
{
    proof {
        reveal_strlit("r");
        reveal_strlit(" ");
    }
    let n = r.as_str().unicode_len();
    if n < 7 {
        push_spaces(summary, 7 - n);
    }
    summary.append("r");
    summary.append(r.as_str());
    summary.append(" ");
    summary.append(mark.as_str());
    let m = mark.as_str().unicode_len();
    if m < 3 {
        push_spaces(summary, 3 - m);
    }
    assert(final(summary)@ =~= old(summary)@ + pad_left("r"@ + r@, 8) + " "@ + pad_right(mark@, 3));
}

/// Renders a plan as text: a summary with one line per step, and the
/// commands that move the trains, step by step.
pub fn print_plan(plan: &Plan) -> (res: (String, String))
    requires
        printable(plan@),
    ensures
        res.0@ == summary_text(plan@),
        res.1@ == commands_text(plan@),
{
    let ghost pv = plan@;
    let mut summary = String::new();
    let mut commands: Vec<String> = Vec::new();
    let mut step_n: usize = 0;
    while step_n < plan.steps.len()
        invariant
            step_n <= plan.steps.len(),
            pv == plan@,
            pv.len() == plan.steps@.len(),
            printable(pv),
            summary@ == summary_upto(pv, step_n as int),
            commands.deep_view() == Seq::new(step_n as nat, |n: int| join(step_commands(pv, n), "\n"@)),
        decreases plan.steps.len() - step_n,
    {
        let step = &plan.steps[step_n];
        assert(pv[step_n as int] == step_view(step@));
        let mut lines: Vec<String> = Vec::new();
        let mut cells: Vec<String> = Vec::new();
        let mut k: usize = 0;
        while k < step.len()
            invariant
                step_n < plan.steps.len(),
                step == plan.steps@[step_n as int],
                pv == plan@,
                pv[step_n as int] == step_view(step@),
                printable(pv),
                k <= step.len(),
                lines.deep_view() == step_commands_upto(pv, step_n as int, k as int),
                cells.deep_view() == Seq::new(k as nat, |j: int| cell(pv, step_n as int, pv[step_n as int][j])),
            decreases step.len() - k,
        {
            let e = &step[k];
            let ghost ev = pv[step_n as int][k as int];
            assert(ev == (e.0@, e.1));
            let mut mark = String::new();
            let ghost before_lines = lines.deep_view();
            match e.1 {
                Some(t) => {
                    let already = if step_n > 0 {
                        assert(pv[step_n - 1] == step_view(plan.steps@[step_n - 1]@));
                        let prev = lookup_entry(&plan.steps[step_n - 1], &e.0);
                        match prev {
                            Some(h) => h == Some(t),
                            None => false,
                        }
                    } else {
                        false
                    };
                    assert(already == already_allocated(pv, step_n as int, ev.0, t));
                    if !already {
                        let mut c = String::new();
                        c.append("t");
                        push_decimal(&mut c, t);
                        c.append(" r");
                        c.append(e.0.as_str());
                        lines.push(c);
                        mark.append("*");
                    } else {
                        mark.append(".");
                    }
                    push_decimal(&mut mark, t);
                },
                None => {
                    mark.append("___");
                },
            }
            assert(lines.deep_view() =~= step_commands_upto(pv, step_n as int, k + 1));
            assert(mark@ =~= holder_mark(pv, step_n as int, ev));
            let mut c = String::new();
            push_cell(&mut c, &e.0, &mark);
            assert(c@ =~= cell(pv, step_n as int, ev));
            let ghost before_cells = cells.deep_view();
            let ghost cv = c@;
            cells.push(c);
            assert(cells.deep_view() =~= before_cells.push(cv));
            assert(cells.deep_view() =~= Seq::new((k + 1) as nat, |j: int| cell(pv, step_n as int, pv[step_n as int][j])));
            k += 1;
        }
        summary.append("Step ");
        push_decimal(&mut summary, step_n);
        summary.append(": ");
        let joined = join_strings(&cells, " ");
        summary.append(joined.as_str());
        summary.append("\n");
        assert(cells.deep_view() =~= Seq::new(pv[step_n as int].len(), |j: int| cell(pv, step_n as int, pv[step_n as int][j])));
        assert(summary@ =~= summary_upto(pv, step_n + 1));
        let step_text = join_strings(&lines, "\n");
        assert(step_text@ == join(step_commands(pv, step_n as int), "\n"@));
        let ghost before_commands = commands.deep_view();
        let ghost st = step_text@;
        commands.push(step_text);
        assert(commands.deep_view() =~= before_commands.push(st));
        assert(commands.deep_view() =~= Seq::new((step_n + 1) as nat, |n: int| join(step_commands(pv, n), "\n"@)));
        step_n += 1;
    }
    let commands_joined = join_strings(&commands, "\n\n");
    assert(commands.deep_view() =~= Seq::new(pv.len(), |n: int| join(step_commands(pv, n), "\n"@)));
    (summary, commands_joined)
}

} // verus!
