//! Text pictures of a plan: the routes drawn at given grid positions, and
//! in each step the trains on them, labelled with their direction.
use vstd::prelude::*;
use crate::plan::{step_view, Plan, StepView};
use crate::seqs::{first_match, key_index, lemma_first_match, lemma_first_match_at, named};
use crate::text::{decimal, join, join_strings, push_char, push_decimal};

verus! {

/// A position of the route grid.
#[derive(Clone, Copy)]
pub struct Coord {
    pub x: u32,
    pub y: u32,
}

/// Where each route is drawn, and for each train whether it runs downwards.
/// `routes` holds each route name once.
pub struct RoutePlot {
    pub routes: Vec<(String, Coord)>,
    pub dir: Vec<bool>,
}

/// The model of the route positions.
pub open spec fn coords_view(routes: Seq<(String, Coord)>) -> Seq<(Seq<char>, Coord)> {
    routes.map_values(|e: (String, Coord)| (e.0@, e.1))
}

/// The position of route `r` (the first entry of that name).
pub open spec fn coord_of(routes: Seq<(String, Coord)>, r: Seq<char>) -> Coord {
    coords_view(routes)[key_index(coords_view(routes), r)->0].1
}

/// The label of train `t` on route `r`: `t@r->` for a train running
/// upwards, `<-t@r` for one running downwards.
pub open spec fn label(dir: Seq<bool>, t: usize, r: Seq<char>) -> Seq<char> {
    if !dir[t as int] {
        decimal(t as nat) + "@"@ + r + "->"@
    } else {
        "<-"@ + decimal(t as nat) + "@"@ + r
    }
}

/// A label cut to the width of a grid cell.
pub open spec fn cut(s: Seq<char>) -> Seq<char> {
    if s.len() > 12 {
        s.take(12)
    } else {
        s
    }
}

/// The largest x of the positions, or 0.
pub open spec fn max_x(cs: Seq<(Seq<char>, Coord)>) -> nat
    decreases cs.len(),
{
    if cs.len() == 0 {
        0
    } else {
        let m = max_x(cs.drop_last());
        if cs.last().1.x > m { cs.last().1.x as nat } else { m }
    }
}

/// The largest y of the positions, or 0.
pub open spec fn max_y(cs: Seq<(Seq<char>, Coord)>) -> nat
    decreases cs.len(),
{
    if cs.len() == 0 {
        0
    } else {
        let m = max_y(cs.drop_last());
        if cs.last().1.y > m { cs.last().1.y as nat } else { m }
    }
}

/// The largest train of a step, or 0.
pub open spec fn max_train(step: StepView) -> nat
    decreases step.len(),
{
    if step.len() == 0 {
        0
    } else {
        let m = max_train(step.drop_last());
        match step.last().1 {
            Some(t) => if t > m { t as nat } else { m },
            None => m,
        }
    }
}

/// Row `row` of a grid with `s` written from column `col` on.
pub open spec fn write_at(g: Seq<Seq<char>>, row: int, col: int, s: Seq<char>) -> Seq<Seq<char>> {
    g.update(row, g[row].take(col) + s + g[row].skip(col + s.len()))
}

/// The label of a train of a step: the label string.
fn label_exec(dir: &Vec<bool>, t: usize, r: &String) -> (res: String)
    requires
        t < dir@.len(),
    ensures
        res@ == label(dir@, t, r@),
{
    let mut s = String::new();
    if !dir[t] {
        push_decimal(&mut s, t);
        s.append("@");
        s.append(r.as_str());
        s.append("->");
        proof {
            reveal_strlit("@");
            reveal_strlit("->");
        }
    } else {
        s.append("<-");
        push_decimal(&mut s, t);
        s.append("@");
        s.append(r.as_str());
        proof {
            reveal_strlit("@");
            reveal_strlit("<-");
        }
    }
    assert(s@ =~= label(dir@, t, r@));
    s
}

/// Writes the characters of `s` into row `row` of a grid from column `col` on.
fn write_chars(g: &mut Vec<Vec<char>>, row: usize, col: usize, s: &str, n: usize)
    requires
        row < old(g)@.len(),
        n <= s@.len(),
        col + n <= old(g)@[row as int]@.len(),
    ensures
        grid_view(final(g)@) == write_at(grid_view(old(g)@), row as int, col as int, s@.take(n as int)),
{
    let ghost g0 = grid_view(g@);
    let mut line = g.remove(row);
    let ghost l0 = line@;
    let mut i: usize = 0;
    while i < n
        invariant
            i <= n,
            n <= s@.len(),
            col + n <= l0.len(),
            line@.len() == l0.len(),
            col + n <= line.len(),
            forall|j: int| 0 <= j < line@.len() ==> line@[j] == if col <= j < col + i { s@[j - col] } else { l0[j] },
        decreases n - i,
    {
        line.set(col + i, s.get_char(i));
        i += 1;
    }
    g.insert(row, line);
    proof {
        assert(line@ =~= l0.take(col as int) + s@.take(n as int) + l0.skip(col + n));
        assert(grid_view(g@) =~= write_at(g0, row as int, col as int, s@.take(n as int)));
    }
}

/// The model of a grid.
pub open spec fn grid_view(g: Seq<Vec<char>>) -> Seq<Seq<char>> {
    g.map_values(|l: Vec<char>| l@)
}

/// The text of a grid: its rows joined by line breaks, after a heading.
fn grid_text(heading: String, g: &Vec<Vec<char>>) -> (res: String)
    ensures
        res@ == join(seq![heading@] + grid_view(g@), "\n"@),
{
    let mut parts: Vec<String> = Vec::new();
    parts.push(heading);
    let mut i: usize = 0;
    while i < g.len()
        invariant
            i <= g.len(),
            parts@.len() == i + 1,
            parts.deep_view() == seq![heading@] + grid_view(g@).take(i as int),
        decreases g.len() - i,
    {
        let mut line = String::new();
        let mut j: usize = 0;
        while j < g[i].len()
            invariant
                i < g.len(),
                j <= g@[i as int]@.len(),
                line@ == g@[i as int]@.take(j as int),
            decreases g@[i as int]@.len() - j,
        {
            push_char(&mut line, g[i][j]);
            assert(g@[i as int]@.take(j + 1) =~= g@[i as int]@.take(j as int).push(g@[i as int]@[j as int]));
            j += 1;
        }
        assert(g@[i as int]@.take(j as int) =~= g@[i as int]@);
        let ghost before = parts.deep_view();
        parts.push(line);
        assert(parts.deep_view() =~= before.push(grid_view(g@)[i as int]));
        assert(grid_view(g@).take(i + 1) =~= grid_view(g@).take(i as int).push(grid_view(g@)[i as int]));
        i += 1;
    }
    assert(grid_view(g@).take(i as int) =~= grid_view(g@));
    proof {
        reveal_strlit("\n");
    }
    join_strings(&parts, "\n")
}

/// The index of the first position entry of route `r`.
fn find_coord(routes: &Vec<(String, Coord)>, r: &str) -> (res: Option<usize>)
    ensures
        match res {
            Some(i) => key_index(coords_view(routes@), r@) == Some(i as int),
            None => key_index(coords_view(routes@), r@) is None,
        },
{
    let ghost cv = coords_view(routes@);
    proof {
        lemma_first_match(cv, named::<Coord>(r@));
    }
    let mut i: usize = 0;
    while i < routes.len()
        invariant
            i <= routes.len(),
            cv == coords_view(routes@),
            forall|j: int| 0 <= j < i ==> cv[j].0 != r@,
        decreases routes.len() - i,
    {
        if crate::text::str_eq(routes[i].0.as_str(), r) {
            proof {
                crate::seqs::lemma_first_match_at(cv, named::<Coord>(r@), i as int);
            }
            return Some(i);
        }
        i += 1;
    }
    None
}

/// The largest x of the positions.
fn max_x_exec(routes: &Vec<(String, Coord)>) -> (res: u32)
    ensures
        res == max_x(coords_view(routes@)),
{
    let ghost cv = coords_view(routes@);
    let mut m: u32 = 0;
    let mut i: usize = 0;
    while i < routes.len()
        invariant
            i <= routes.len(),
            cv == coords_view(routes@),
            m == max_x(cv.take(i as int)),
        decreases routes.len() - i,
    {
        assert(cv.take(i + 1).drop_last() =~= cv.take(i as int));
        if routes[i].1.x > m {
            m = routes[i].1.x;
        }
        i += 1;
    }
    assert(cv.take(i as int) =~= cv);
    m
}

/// The largest y of the positions.
fn max_y_exec(routes: &Vec<(String, Coord)>) -> (res: u32)
    ensures
        res == max_y(coords_view(routes@)),
{
    let ghost cv = coords_view(routes@);
    let mut m: u32 = 0;
    let mut i: usize = 0;
    while i < routes.len()
        invariant
            i <= routes.len(),
            cv == coords_view(routes@),
            m == max_y(cv.take(i as int)),
        decreases routes.len() - i,
    {
        assert(cv.take(i + 1).drop_last() =~= cv.take(i as int));
        if routes[i].1.y > m {
            m = routes[i].1.y;
        }
        i += 1;
    }
    assert(cv.take(i as int) =~= cv);
    m
}

/// The largest train of a step.
fn max_train_exec(step: &Vec<(String, Option<usize>)>) -> (res: usize)
    ensures
        res == max_train(step_view(step@)),
{
    let ghost sv = step_view(step@);
    let mut m: usize = 0;
    let mut i: usize = 0;
    while i < step.len()
        invariant
            i <= step.len(),
            sv == step_view(step@),
            m == max_train(sv.take(i as int)),
        decreases step.len() - i,
    {
        assert(sv.take(i + 1).drop_last() =~= sv.take(i as int));
        match step[i].1 {
            Some(t) => {
                if t > m {
                    m = t;
                }
            },
            None => {},
        }
        i += 1;
    }
    assert(sv.take(i as int) =~= sv);
    m
}

/// The heading of the picture of step `n`.
fn heading(n: usize) -> (res: String)
    ensures
        res@ == "Step "@ + decimal(n as nat),
{
    let mut s = String::new();
    s.append("Step ");
    push_decimal(&mut s, n);
    proof {
        reveal_strlit("Step ");
    }
    s
}

/// Whether every character of `s` is ASCII.
pub open spec fn ascii(s: Seq<char>) -> bool {
    forall|i: int| 0 <= i < s.len() ==> (s[i] as u32) < 128
}

/// The grid a step of the station picture starts from: `rows` lines, each
/// with a bar at the left of every cell.
pub open spec fn bar_grid(rows: nat, nx: nat) -> Seq<Seq<char>> {
    Seq::new(rows, |y: int| bar_row(nx))
}

/// A line with a bar at the left of each of `nx` cells of 13 characters.
pub open spec fn bar_row(nx: nat) -> Seq<char> {
    Seq::new(13 * nx + 1, |i: int| if i % 13 == 0 && i < 13 * nx { '|' } else { ' ' })
}

/// The station picture after the labels of the first `k` entries of a step
/// whose route stands in column `x` of cells: each in the line of its train.
pub open spec fn station_labels(
    g: Seq<Seq<char>>,
    routes: Seq<(String, Coord)>,
    dir: Seq<bool>,
    step: StepView,
    x: nat,
    k: int,
) -> Seq<Seq<char>>
    decreases k,
{
    if k <= 0 {
        g
    } else {
        let g1 = station_labels(g, routes, dir, step, x, k - 1);
        let e = step[k - 1];
        match e.1 {
            Some(t) => if coord_of(routes, e.0).x == x {
                write_at(g1, t as int, (13 * x + 1) as int, cut(label(dir, t, e.0)))
            } else {
                g1
            },
            None => g1,
        }
    }
}

/// The station picture after the labels of the first `nx` columns of cells.
pub open spec fn stations(g: Seq<Seq<char>>, routes: Seq<(String, Coord)>, dir: Seq<bool>, step: StepView, nx: nat) -> Seq<Seq<char>>
    decreases nx,
{
    if nx == 0 {
        g
    } else {
        station_labels(stations(g, routes, dir, step, (nx - 1) as nat), routes, dir, step, (nx - 1) as nat, step.len() as int)
    }
}

/// The station picture of step `n`: a heading, then a line per train up to
/// the largest of the step, with a column of cells per x position; each
/// train's label stands in its line, in the column of its route.
pub open spec fn station_picture(routes: Seq<(String, Coord)>, dir: Seq<bool>, step: StepView, n: nat) -> Seq<char> {
    let nx = max_x(coords_view(routes)) + 1;
    let ny = max_train(step) + 1;
    join(seq!["Step "@ + decimal(n)] + stations(bar_grid(ny, nx), routes, dir, step, nx), "\n"@)
}

/// The steps of a plan can be drawn: each step holds a train, and each
/// train of a step has a direction and a route with a position, named in
/// ASCII.
pub open spec fn steps_drawable(routes: Seq<(String, Coord)>, dir: Seq<bool>, plan: Seq<StepView>) -> bool {
    forall|n: int, k: int|
        0 <= n < plan.len() && 0 <= k < plan[n].len() && (#[trigger] plan[n][k]).1 is Some ==> {
            &&& (plan[n][k].1->0 as int) < dir.len()
            &&& key_index(coords_view(routes), plan[n][k].0) is Some
            &&& ascii(plan[n][k].0)
        }
}

/// The positions fit the picture's arithmetic.
pub open spec fn coords_fit(routes: Seq<(String, Coord)>) -> bool {
    forall|i: int| 0 <= i < routes.len() ==> 13 * ((#[trigger] routes[i]).1.x + 1) + 1 <= usize::MAX && routes[i].1.x
        < u32::MAX
}

proof fn lemma_max_x_bound(cs: Seq<(Seq<char>, Coord)>)
    ensures
        forall|i: int| 0 <= i < cs.len() ==> (#[trigger] cs[i]).1.x <= max_x(cs),
        cs.len() > 0 ==> exists|i: int| 0 <= i < cs.len() && cs[i].1.x == max_x(cs),
    decreases cs.len(),
{
    if cs.len() > 0 {
        lemma_max_x_bound(cs.drop_last());
        assert forall|i: int| 0 <= i < cs.len() implies (#[trigger] cs[i]).1.x <= max_x(cs) by {
            if i < cs.len() - 1 {
                assert(cs.drop_last()[i] == cs[i]);
            }
        }
        if cs.len() > 1 && cs.last().1.x <= max_x(cs.drop_last()) {
            let i = choose|i: int| 0 <= i < cs.drop_last().len() && cs.drop_last()[i].1.x == max_x(cs.drop_last());
            assert(cs[i] == cs.drop_last()[i]);
        } else {
            assert(cs[cs.len() - 1].1.x == max_x(cs));
        }
    }
}

proof fn lemma_max_train_bound(step: StepView)
    ensures
        forall|k: int| 0 <= k < step.len() && (#[trigger] step[k]).1 is Some ==> step[k].1->0 <= max_train(step),
        max_train(step) == 0 || exists|k: int| 0 <= k < step.len() && step[k].1 is Some && step[k].1->0 == max_train(step),
    decreases step.len(),
{
    if step.len() > 0 {
        lemma_max_train_bound(step.drop_last());
        assert forall|k: int| 0 <= k < step.len() && (#[trigger] step[k]).1 is Some implies step[k].1->0 <= max_train(step) by {
            if k < step.len() - 1 {
                assert(step.drop_last()[k] == step[k]);
            }
        }
        if max_train(step) != 0 {
            if max_train(step) == max_train(step.drop_last()) {
                let k = choose|k: int| 0 <= k < step.drop_last().len() && step.drop_last()[k].1 is Some && step.drop_last()[k].1->0 == max_train(step.drop_last());
                assert(step[k] == step.drop_last()[k]);
            } else {
                assert(step[step.len() - 1].1 is Some && step[step.len() - 1].1->0 == max_train(step));
            }
        }
    }
}

/// Some entry of the step holds a train.
pub open spec fn has_train(step: StepView) -> bool {
    exists|k: int| 0 <= k < step.len() && (#[trigger] step[k]).1 is Some
}

/// A grid of `rows` lines of `width` characters.
pub open spec fn grid_dims(g: Seq<Seq<char>>, rows: nat, width: nat) -> bool {
    g.len() == rows && forall|i: int| 0 <= i < g.len() ==> (#[trigger] g[i]).len() == width
}

proof fn lemma_write_dims(g: Seq<Seq<char>>, rows: nat, width: nat, row: int, col: int, s: Seq<char>)
    requires
        grid_dims(g, rows, width),
        0 <= row < rows,
        0 <= col,
        col + s.len() <= width,
    ensures
        grid_dims(write_at(g, row, col, s), rows, width),
{
    let h = write_at(g, row, col, s);
    assert forall|i: int| 0 <= i < h.len() implies (#[trigger] h[i]).len() == width by {
        if i == row {
            assert(h[i] == g[row].take(col) + s + g[row].skip(col + s.len()));
        }
    }
}

/// A line of the station picture: a bar at the left of each of `nx` cells.
fn bar_line(nx: u32) -> (line: Vec<char>)
    requires
        13 * (nx as int) + 1 <= usize::MAX,
    ensures
        line@ == bar_row(nx as nat),
{
    let width: usize = 13 * (nx as usize) + 1;
    let mut line: Vec<char> = Vec::new();
    let mut i: usize = 0;
    while i < width
        invariant
            i <= width,
            width == 13 * (nx as int) + 1,
            line@.len() == i,
            forall|j: int| 0 <= j < i ==> line@[j] == (if j % 13 == 0 && j < 13 * nx { '|' } else { ' ' }),
        decreases width - i,
    {
        if i % 13 == 0 && i < width - 1 {
            line.push('|');
        } else {
            line.push(' ');
        }
        i += 1;
    }
    assert(line@ =~= bar_row(nx as nat));
    line
}

/// Point (`px`, `py`) of the box picture, counted from the bottom left, is
/// a corner of the box of the cell at `c`.
pub open spec fn box_corner(c: Coord, px: int, py: int) -> bool {
    (px == 13 * c.x || px == 13 * c.x + 13) && (py == 2 * c.y || py == 2 * c.y + 2)
}

/// Point (`px`, `py`) lies on the top or bottom edge of the box of `c`.
pub open spec fn box_hedge(c: Coord, px: int, py: int) -> bool {
    13 * c.x <= px < 13 * c.x + 13 && (py == 2 * c.y || py == 2 * c.y + 2)
}

/// Point (`px`, `py`) lies on the left or right edge of the box of `c`,
/// between its corners.
pub open spec fn box_vedge(c: Coord, px: int, py: int) -> bool {
    (px == 13 * c.x || px == 13 * c.x + 13) && py == 2 * c.y + 1
}

/// The character of point (`px`, `py`) when the boxes of the positions `cs`
/// are drawn: `+` at a corner of some box, `-` on a top or bottom edge,
/// `|` on a side, and a blank elsewhere.
pub open spec fn box_char(cs: Seq<(Seq<char>, Coord)>, px: int, py: int) -> char {
    if exists|i: int| 0 <= i < cs.len() && #[trigger] box_corner(cs[i].1, px, py) {
        '+'
    } else if exists|i: int| 0 <= i < cs.len() && #[trigger] box_hedge(cs[i].1, px, py) {
        '-'
    } else if exists|i: int| 0 <= i < cs.len() && #[trigger] box_vedge(cs[i].1, px, py) {
        '|'
    } else {
        ' '
    }
}

/// The boxes of the positions `cs` on a grid of `nx` by `ny` cells: `2 * ny + 1`
/// lines of `13 * nx + 1` characters, the top line first.
pub open spec fn box_grid(cs: Seq<(Seq<char>, Coord)>, nx: nat, ny: nat) -> Seq<Seq<char>> {
    Seq::new(2 * ny + 1, |r: int| Seq::new(13 * nx + 1, |px: int| box_char(cs, px, 2 * ny - r)))
}

/// The change that drawing the box of `c` makes to point (`px`, `py`) that held `old`.
pub open spec fn with_box(c: Coord, px: int, py: int, old: char) -> char {
    if box_corner(c, px, py) {
        '+'
    } else if box_hedge(c, px, py) {
        '-'
    } else if box_vedge(c, px, py) {
        '|'
    } else {
        old
    }
}

/// Drawing one more box changes each point as `with_box` says.
proof fn lemma_box_step(cs: Seq<(Seq<char>, Coord)>, i: int, px: int, py: int)
    requires
        0 <= i < cs.len(),
    ensures
        box_char(cs.take(i + 1), px, py) == with_box(cs[i].1, px, py, box_char(cs.take(i), px, py)),
{
    let a = cs.take(i);
    let b = cs.take(i + 1);
    let c = cs[i].1;
    assert(b[i].1 == c);
    assert forall|j: int| 0 <= j < i implies #[trigger] b[j] == a[j] by {}
    if box_corner(c, px, py) {
        assert(box_corner(b[i].1, px, py));
    } else if box_hedge(c, px, py) {
        assert(box_hedge(b[i].1, px, py));
        if exists|j: int| 0 <= j < b.len() && #[trigger] box_corner(b[j].1, px, py) {
            let j = choose|j: int| 0 <= j < b.len() && #[trigger] box_corner(b[j].1, px, py);
            assert(px == 13 * c.x);
        }
    } else if box_vedge(c, px, py) {
        assert(box_vedge(b[i].1, px, py));
    } else {
        if exists|j: int| 0 <= j < b.len() && #[trigger] box_corner(b[j].1, px, py) {
            let j = choose|j: int| 0 <= j < b.len() && #[trigger] box_corner(b[j].1, px, py);
            assert(box_corner(a[j].1, px, py));
        }
        if exists|j: int| 0 <= j < b.len() && #[trigger] box_hedge(b[j].1, px, py) {
            let j = choose|j: int| 0 <= j < b.len() && #[trigger] box_hedge(b[j].1, px, py);
            assert(box_hedge(a[j].1, px, py));
        }
        if exists|j: int| 0 <= j < b.len() && #[trigger] box_vedge(b[j].1, px, py) {
            let j = choose|j: int| 0 <= j < b.len() && #[trigger] box_vedge(b[j].1, px, py);
            assert(box_vedge(a[j].1, px, py));
        }
        if exists|j: int| 0 <= j < a.len() && #[trigger] box_corner(a[j].1, px, py) {
            let j = choose|j: int| 0 <= j < a.len() && #[trigger] box_corner(a[j].1, px, py);
            assert(box_corner(b[j].1, px, py));
        }
        if exists|j: int| 0 <= j < a.len() && #[trigger] box_hedge(a[j].1, px, py) {
            let j = choose|j: int| 0 <= j < a.len() && #[trigger] box_hedge(a[j].1, px, py);
            assert(box_hedge(b[j].1, px, py));
        }
        if exists|j: int| 0 <= j < a.len() && #[trigger] box_vedge(a[j].1, px, py) {
            let j = choose|j: int| 0 <= j < a.len() && #[trigger] box_vedge(a[j].1, px, py);
            assert(box_vedge(b[j].1, px, py));
        }
    }
}

/// Sets one character of a grid.
fn set_cell(g: &mut Vec<Vec<char>>, row: usize, col: usize, ch: char)
    requires
        row < grid_view(old(g)@).len(),
        col < grid_view(old(g)@)[row as int].len(),
    ensures
        grid_view(final(g)@) == grid_view(old(g)@).update(
            row as int,
            grid_view(old(g)@)[row as int].update(col as int, ch),
        ),
{
    let ghost g0 = grid_view(g@);
    let mut line = g.remove(row);
    line.set(col, ch);
    g.insert(row, line);
    assert(grid_view(g@) =~= g0.update(row as int, g0[row as int].update(col as int, ch)));
}

/// Draws the box of the cell at `c` on a grid of `2 * ny + 1` lines of
/// `width` characters, whose bottom line is point row 0.
fn draw_box(g: &mut Vec<Vec<char>>, c: Coord, ny: usize, width: usize)
    requires
        grid_dims(grid_view(old(g)@), (2 * ny + 1) as nat, width as nat),
        2 * ny + 1 <= usize::MAX,
        c.y < ny,
        13 * c.x + 13 < width,
    ensures
        grid_dims(grid_view(final(g)@), (2 * ny + 1) as nat, width as nat),
        forall|r: int, px: int|
            0 <= r < 2 * ny + 1 && 0 <= px < width ==> #[trigger] grid_view(final(g)@)[r][px] == with_box(
                c,
                px,
                2 * ny - r,
                grid_view(old(g)@)[r][px],
            ),
{
    let ghost g0 = grid_view(g@);
    let ghost rows = (2 * ny + 1) as nat;
    let x0: usize = 13 * (c.x as usize);
    let bottom: usize = 2 * ny - 2 * (c.y as usize);
    let top: usize = bottom - 2;
    // the top and bottom edges
    let mut k: usize = 0;
    while k < 13
        invariant
            k <= 13,
            x0 == 13 * c.x,
            bottom == 2 * ny - 2 * c.y,
            top + 2 == bottom,
            bottom < rows,
            13 * c.x + 13 < width,
            rows == 2 * ny + 1,
            grid_dims(grid_view(g@), rows, width as nat),
            forall|r: int, px: int|
                0 <= r < rows && 0 <= px < width ==> #[trigger] grid_view(g@)[r][px] == if (r == top || r
                    == bottom) && x0 <= px < x0 + k {
                    '-'
                } else {
                    g0[r][px]
                },
        decreases 13 - k,
    {
        let ghost before = grid_view(g@);
        set_cell(g, bottom, x0 + k, '-');
        let ghost mid = grid_view(g@);
        assert(grid_dims(mid, rows, width as nat)) by {
            assert forall|i: int| 0 <= i < mid.len() implies (#[trigger] mid[i]).len() == width by {
                assert(before[i].len() == width);
            }
        }
        set_cell(g, top, x0 + k, '-');
        let ghost after = grid_view(g@);
        assert(grid_dims(after, rows, width as nat)) by {
            assert forall|i: int| 0 <= i < after.len() implies (#[trigger] after[i]).len() == width by {
                assert(mid[i].len() == width);
            }
        }
        assert forall|r: int, px: int| 0 <= r < rows && 0 <= px < width implies #[trigger] after[r][px] == if (r
            == top || r == bottom) && x0 <= px < x0 + k + 1 {
            '-'
        } else {
            g0[r][px]
        } by {
            assert(before[r][px] == if (r == top || r == bottom) && x0 <= px < x0 + k {
                '-'
            } else {
                g0[r][px]
            });
        }
        k += 1;
    }
    let ghost h = grid_view(g@);
    // the left and right sides
    let mut side: usize = 0;
    while side < 2
        invariant
            side <= 2,
            x0 == 13 * c.x,
            bottom == 2 * ny - 2 * c.y,
            top + 2 == bottom,
            bottom < rows,
            13 * c.x + 13 < width,
            rows == 2 * ny + 1,
            grid_dims(grid_view(g@), rows, width as nat),
            forall|r: int, px: int|
                0 <= r < rows && 0 <= px < width ==> #[trigger] grid_view(g@)[r][px] == if top <= r <= bottom
                    && ((px == x0 && side >= 1) || (px == x0 + 13 && side >= 2)) {
                    if r == top || r == bottom {
                        '+'
                    } else {
                        '|'
                    }
                } else {
                    h[r][px]
                },
        decreases 2 - side,
    {
        let px: usize = if side == 0 { x0 } else { x0 + 13 };
        let ghost before = grid_view(g@);
        set_cell(g, bottom, px, '+');
        let ghost g1 = grid_view(g@);
        assert(grid_dims(g1, rows, width as nat)) by {
            assert forall|i: int| 0 <= i < g1.len() implies (#[trigger] g1[i]).len() == width by {
                assert(before[i].len() == width);
            }
        }
        set_cell(g, top + 1, px, '|');
        let ghost g2 = grid_view(g@);
        assert(grid_dims(g2, rows, width as nat)) by {
            assert forall|i: int| 0 <= i < g2.len() implies (#[trigger] g2[i]).len() == width by {
                assert(g1[i].len() == width);
            }
        }
        set_cell(g, top, px, '+');
        let ghost g3 = grid_view(g@);
        assert(grid_dims(g3, rows, width as nat)) by {
            assert forall|i: int| 0 <= i < g3.len() implies (#[trigger] g3[i]).len() == width by {
                assert(g2[i].len() == width);
            }
        }
        assert forall|r: int, q: int| 0 <= r < rows && 0 <= q < width implies #[trigger] g3[r][q] == if top <= r
            <= bottom && ((q == x0 && side + 1 >= 1) || (q == x0 + 13 && side + 1 >= 2)) {
            if r == top || r == bottom {
                '+'
            } else {
                '|'
            }
        } else {
            h[r][q]
        } by {
            assert(before[r][q] == if top <= r <= bottom && ((q == x0 && side >= 1) || (q == x0 + 13 && side
                >= 2)) {
                if r == top || r == bottom {
                    '+'
                } else {
                    '|'
                }
            } else {
                h[r][q]
            });
        }
        side += 1;
    }
    proof {
        let gf = grid_view(g@);
        assert forall|r: int, q: int| 0 <= r < 2 * ny + 1 && 0 <= q < width implies #[trigger] gf[r][q]
            == with_box(c, q, 2 * ny - r, g0[r][q]) by {
            assert(h[r][q] == if (r == top || r == bottom) && x0 <= q < x0 + 13 {
                '-'
            } else {
                g0[r][q]
            });
        }
    }
}

/// A grid of `rows` lines of `width` blanks.
fn blank_grid(rows: usize, width: usize) -> (g: Vec<Vec<char>>)
    ensures
        grid_dims(grid_view(g@), rows as nat, width as nat),
        forall|r: int, q: int| 0 <= r < rows && 0 <= q < width ==> #[trigger] grid_view(g@)[r][q] == ' ',
{
    let mut g: Vec<Vec<char>> = Vec::new();
    let mut r: usize = 0;
    while r < rows
        invariant
            r <= rows,
            g@.len() == r,
            forall|i: int| 0 <= i < r ==> (#[trigger] g@[i])@ == Seq::new(width as nat, |q: int| ' '),
        decreases rows - r,
    {
        let mut line: Vec<char> = Vec::new();
        let mut q: usize = 0;
        while q < width
            invariant
                q <= width,
                line@ == Seq::new(q as nat, |j: int| ' '),
            decreases width - q,
        {
            line.push(' ');
            assert(line@ =~= Seq::new((q + 1) as nat, |j: int| ' '));
            q += 1;
        }
        g.push(line);
        r += 1;
    }
    g
}

/// The test "the entry puts a train on a route drawn in the cell at `c`".
pub open spec fn at_cell(routes: Seq<(String, Coord)>, c: Coord) -> spec_fn((Seq<char>, Option<usize>)) -> bool {
    |e: (Seq<char>, Option<usize>)| e.1 is Some && coord_of(routes, e.0) == c
}

/// The train that the first `k` entries of a step put first in the cell at
/// `c`, if any.
pub open spec fn holder(routes: Seq<(String, Coord)>, step: StepView, k: int, c: Coord) -> Option<usize> {
    match first_match(step.take(k), at_cell(routes, c)) {
        Some(j) => step[j].1,
        None => None,
    }
}

/// The box picture after the labels of the first `k` entries of a step: each
/// train's label goes in the middle line of its route's box, unless another
/// train was put in that box first; then it is left out.
pub open spec fn box_labels(
    g: Seq<Seq<char>>,
    routes: Seq<(String, Coord)>,
    dir: Seq<bool>,
    step: StepView,
    ny: nat,
    k: int,
) -> Seq<Seq<char>>
    decreases k,
{
    if k <= 0 {
        g
    } else {
        let g1 = box_labels(g, routes, dir, step, ny, k - 1);
        let e = step[k - 1];
        match e.1 {
            Some(t) => {
                let c = coord_of(routes, e.0);
                let h = holder(routes, step, k - 1, c);
                if h is Some && h->0 != t {
                    g1
                } else {
                    write_at(g1, 2 * ny - 2 * c.y - 1, 13 * c.x + 1, cut(label(dir, t, e.0)))
                }
            },
            None => g1,
        }
    }
}

/// The box picture of step `n`: a heading, then the boxes of all route
/// positions, the top line first, with the labels of the step's trains.
pub open spec fn box_picture(routes: Seq<(String, Coord)>, dir: Seq<bool>, step: StepView, n: nat) -> Seq<char> {
    let cs = coords_view(routes);
    let ny = max_y(cs) + 1;
    join(
        seq!["Step "@ + decimal(n)] + box_labels(box_grid(cs, max_x(cs) + 1, ny), routes, dir, step, ny, step.len() as int),
        "\n"@,
    )
}

/// The positions fit the box picture's arithmetic.
pub open spec fn boxes_fit(routes: Seq<(String, Coord)>) -> bool {
    forall|i: int|
        0 <= i < routes.len() ==> 13 * (#[trigger] routes[i]).1.x + 27 <= u32::MAX && 2 * routes[i].1.y + 3
            <= u32::MAX
}

proof fn lemma_max_y_bound(cs: Seq<(Seq<char>, Coord)>)
    ensures
        forall|i: int| 0 <= i < cs.len() ==> (#[trigger] cs[i]).1.y <= max_y(cs),
        cs.len() > 0 ==> exists|i: int| 0 <= i < cs.len() && cs[i].1.y == max_y(cs),
    decreases cs.len(),
{
    if cs.len() > 0 {
        lemma_max_y_bound(cs.drop_last());
        assert forall|i: int| 0 <= i < cs.len() implies (#[trigger] cs[i]).1.y <= max_y(cs) by {
            if i < cs.len() - 1 {
                assert(cs.drop_last()[i] == cs[i]);
            }
        }
        if cs.len() > 1 && cs.last().1.y <= max_y(cs.drop_last()) {
            let i = choose|i: int| 0 <= i < cs.drop_last().len() && cs.drop_last()[i].1.y == max_y(cs.drop_last());
            assert(cs[i] == cs.drop_last()[i]);
        } else {
            assert(cs[cs.len() - 1].1.y == max_y(cs));
        }
    }
}

/// The train that the first `k` entries of a step put first in the cell at `c`.
fn find_holder(routes: &Vec<(String, Coord)>, step: &Vec<(String, Option<usize>)>, k: usize, c: Coord) -> (res: Option<usize>)
    requires
        k <= step@.len(),
        forall|j: int|
            0 <= j < step@.len() && (#[trigger] step_view(step@)[j]).1 is Some ==> key_index(
                coords_view(routes@),
                step_view(step@)[j].0,
            ) is Some,
    ensures
        res == holder(routes@, step_view(step@), k as int, c),
{
    let ghost sv = step_view(step@);
    let ghost pre = sv.take(k as int);
    let ghost f = at_cell(routes@, c);
    proof {
        lemma_first_match(pre, f);
    }
    let mut j: usize = 0;
    while j < k
        invariant
            j <= k,
            k <= step@.len(),
            sv == step_view(step@),
            pre == sv.take(k as int),
            f == at_cell(routes@, c),
            forall|i: int| 0 <= i < step@.len() && (#[trigger] sv[i]).1 is Some ==> key_index(coords_view(routes@), sv[i].0) is Some,
            forall|i: int| 0 <= i < j ==> !f(#[trigger] pre[i]),
        decreases k - j,
    {
        assert(pre[j as int] == sv[j as int]);
        assert(sv[j as int] == (step@[j as int].0@, step@[j as int].1));
        match step[j].1 {
            Some(t) => {
                proof {
                    lemma_first_match(coords_view(routes@), named::<Coord>(sv[j as int].0));
                }
                let ci = find_coord(routes, step[j].0.as_str()).unwrap();
                assert(coords_view(routes@)[ci as int] == (routes@[ci as int].0@, routes@[ci as int].1));
                assert(coord_of(routes@, sv[j as int].0) == routes@[ci as int].1);
                if routes[ci].1.x == c.x && routes[ci].1.y == c.y {
                    proof {
                        lemma_first_match_at(pre, f, j as int);
                    }
                    return Some(t);
                }
            },
            None => {},
        }
        j += 1;
    }
    None
}

impl RoutePlot {
    /// The box picture of each step of a plan, one after the other: a
    /// heading, then a box of three lines per route position (the largest y
    /// on top), and in the middle line of each box the label of the train
    /// that the step puts there first (cut to the box).
    pub fn plot_string(&self, plan: &Plan) -> (res: String)
        requires
            boxes_fit(self.routes@),
            plan@.len() > 0 ==> self.routes@.len() > 0,
            steps_drawable(self.routes@, self.dir@, plan@),
        ensures
            res@ == join(Seq::new(plan@.len(), |n: int| box_picture(self.routes@, self.dir@, plan@[n], n as nat)), "\n"@),
    {
        if plan.steps.len() == 0 {
            proof {
                assert(Seq::new(plan@.len(), |n: int| box_picture(self.routes@, self.dir@, plan@[n], n as nat)) =~= Seq::<Seq<char>>::empty());
            }
            return String::new();
        }
        let ghost routes = self.routes@;
        let ghost dir = self.dir@;
        let ghost pv = plan@;
        let ghost cv = coords_view(routes);
        proof {
            lemma_max_x_bound(cv);
            lemma_max_y_bound(cv);
            let i = choose|i: int| 0 <= i < cv.len() && cv[i].1.x == max_x(cv);
            assert(cv[i].1 == routes[i].1);
            let j = choose|j: int| 0 <= j < cv.len() && cv[j].1.y == max_y(cv);
            assert(cv[j].1 == routes[j].1);
        }
        let nx: u32 = max_x_exec(&self.routes) + 1;
        let ny: usize = (max_y_exec(&self.routes) + 1) as usize;
        let width: usize = 13 * (nx as usize) + 1;
        let rows: usize = 2 * ny + 1;
        let mut pictures: Vec<String> = Vec::new();
        let mut n: usize = 0;
        while n < plan.steps.len()
            invariant
                n <= plan.steps.len(),
                routes == self.routes@,
                dir == self.dir@,
                pv == plan@,
                cv == coords_view(routes),
                pv.len() == plan.steps@.len(),
                nx == max_x(cv) + 1,
                ny == max_y(cv) + 1,
                width == 13 * nx + 1,
                rows == 2 * ny + 1,
                13 * (nx as int) + 14 <= u32::MAX,
                2 * (ny as int) + 1 <= u32::MAX,
                boxes_fit(routes),
                steps_drawable(routes, dir, pv),
                pictures.deep_view() == Seq::new(n as nat, |m: int| box_picture(routes, dir, pv[m], m as nat)),
            decreases plan.steps.len() - n,
        {
            let step = &plan.steps[n];
            let ghost sv = step_view(step@);
            assert(sv == pv[n as int]);
            let mut grid = blank_grid(rows, width);
            let mut i: usize = 0;
            while i < self.routes.len()
                invariant
                    i <= self.routes@.len(),
                    routes == self.routes@,
                    cv == coords_view(routes),
                    nx == max_x(cv) + 1,
                    ny == max_y(cv) + 1,
                    width == 13 * nx + 1,
                    rows == 2 * ny + 1,
                    13 * (nx as int) + 14 <= u32::MAX,
                    2 * (ny as int) + 1 <= u32::MAX,
                    grid_dims(grid_view(grid@), rows as nat, width as nat),
                    forall|r: int, q: int|
                        0 <= r < rows && 0 <= q < width ==> #[trigger] grid_view(grid@)[r][q] == box_char(
                            cv.take(i as int),
                            q,
                            2 * ny - r,
                        ),
                decreases self.routes@.len() - i,
            {
                let ghost before = grid_view(grid@);
                proof {
                    lemma_max_x_bound(cv);
                    lemma_max_y_bound(cv);
                    assert(cv[i as int].1 == routes[i as int].1);
                }
                draw_box(&mut grid, self.routes[i].1, ny, width);
                proof {
                    assert forall|r: int, q: int| 0 <= r < rows && 0 <= q < width implies #[trigger] grid_view(
                        grid@,
                    )[r][q] == box_char(cv.take(i + 1), q, 2 * ny - r) by {
                        lemma_box_step(cv, i as int, q, 2 * ny - r);
                    }
                }
                i += 1;
            }
            let ghost g0 = box_grid(cv, nx as nat, ny as nat);
            proof {
                assert(cv.take(i as int) =~= cv);
                assert forall|r: int| 0 <= r < rows implies #[trigger] grid_view(grid@)[r] =~= g0[r] by {}
                assert(grid_view(grid@) =~= g0);
            }
            proof {
                assert forall|j: int| 0 <= j < step@.len() && (#[trigger] sv[j]).1 is Some implies key_index(
                    cv,
                    sv[j].0,
                ) is Some by {
                    assert(pv[n as int][j] == sv[j]);
                }
            }
            let mut k: usize = 0;
            while k < step.len()
                invariant
                    k <= step.len(),
                    n < pv.len(),
                    sv == pv[n as int],
                    sv == step_view(step@),
                    routes == self.routes@,
                    dir == self.dir@,
                    cv == coords_view(routes),
                    nx == max_x(cv) + 1,
                    ny == max_y(cv) + 1,
                    width == 13 * nx + 1,
                    rows == 2 * ny + 1,
                    13 * (nx as int) + 14 <= u32::MAX,
                    2 * (ny as int) + 1 <= u32::MAX,
                    steps_drawable(routes, dir, pv),
                    forall|j: int| 0 <= j < step@.len() && (#[trigger] sv[j]).1 is Some ==> key_index(cv, sv[j].0) is Some,
                    grid_view(grid@) == box_labels(g0, routes, dir, sv, ny as nat, k as int),
                    grid_dims(grid_view(grid@), rows as nat, width as nat),
                decreases step.len() - k,
            {
                let ghost gk = grid_view(grid@);
                assert(sv[k as int] == (step@[k as int].0@, step@[k as int].1));
                match step[k].1 {
                    Some(t) => {
                        assert(pv[n as int][k as int].1 is Some);
                        proof {
                            lemma_first_match(cv, named::<Coord>(sv[k as int].0));
                        }
                        let ci = find_coord(&self.routes, step[k].0.as_str()).unwrap();
                        assert(cv[ci as int] == (routes[ci as int].0@, routes[ci as int].1));
                        let c = self.routes[ci].1;
                        assert(coord_of(routes, sv[k as int].0) == c);
                        let h = find_holder(&self.routes, step, k, c);
                        let free = match h {
                            Some(u) => u == t,
                            None => true,
                        };
                        if free {
                            let l = label_exec(&self.dir, t, &step[k].0);
                            let len = l.as_str().unicode_len();
                            let m: usize = if len > 12 { 12 } else { len };
                            proof {
                                lemma_max_x_bound(cv);
                                lemma_max_y_bound(cv);
                                assert(cv[ci as int].1 == c);
                                assert(l@.take(m as int) =~= cut(l@));
                                lemma_write_dims(gk, rows as nat, width as nat, 2 * ny - 2 * c.y - 1, 13 * c.x + 1, cut(l@));
                            }
                            write_chars(&mut grid, 2 * ny - 2 * (c.y as usize) - 1, 13 * (c.x as usize) + 1, l.as_str(), m);
                        }
                    },
                    None => {},
                }
                k += 1;
            }
            let pic = grid_text(heading(n), &grid);
            let ghost before = pictures.deep_view();
            pictures.push(pic);
            proof {
                assert(pictures.deep_view() =~= before.push(box_picture(routes, dir, pv[n as int], n as nat)));
                assert(pictures.deep_view() =~= Seq::new((n + 1) as nat, |m: int| box_picture(routes, dir, pv[m], m as nat)));
            }
            n += 1;
        }
        proof {
            reveal_strlit("\n");
        }
        join_strings(&pictures, "\n")
    }

    /// The station picture of each step of a plan, one after the other: a
    /// heading, then a line per train up to the largest of the step, with a
    /// cell per x position; each train's label (cut to the cell) stands in
    /// its line, in the cell of its route.
    pub fn plot_string2(&self, plan: &Plan) -> (res: String)
        requires
            coords_fit(self.routes@),
            plan@.len() > 0 ==> self.routes@.len() > 0,
            steps_drawable(self.routes@, self.dir@, plan@),
            forall|n: int| 0 <= n < plan@.len() ==> #[trigger] has_train(plan@[n]),
        ensures
            res@ == join(Seq::new(plan@.len(), |n: int| station_picture(self.routes@, self.dir@, plan@[n], n as nat)), "\n"@),
    {
        if plan.steps.len() == 0 {
            proof {
                assert(Seq::new(plan@.len(), |n: int| station_picture(self.routes@, self.dir@, plan@[n], n as nat)) =~= Seq::<Seq<char>>::empty());
            }
            return String::new();
        }
        let ghost routes = self.routes@;
        let ghost dir = self.dir@;
        let ghost pv = plan@;
        proof {
            lemma_max_x_bound(coords_view(routes));
            let i = choose|i: int| 0 <= i < coords_view(routes).len() && coords_view(routes)[i].1.x == max_x(coords_view(routes));
            assert(coords_view(routes)[i].1 == routes[i].1);
        }
        let nx = max_x_exec(&self.routes) + 1;
        let nd = self.dir.len();
        let mut pictures: Vec<String> = Vec::new();
        let mut n: usize = 0;
        while n < plan.steps.len()
            invariant
                n <= plan.steps.len(),
                routes == self.routes@,
                dir == self.dir@,
                pv == plan@,
                pv.len() == plan.steps@.len(),
                nx == max_x(coords_view(routes)) + 1,
                nd == dir.len(),
                13 * (nx as int) + 1 <= usize::MAX,
                coords_fit(routes),
                steps_drawable(routes, dir, pv),
                forall|m: int| 0 <= m < pv.len() ==> #[trigger] has_train(pv[m]),
                pictures.deep_view() == Seq::new(n as nat, |m: int| station_picture(routes, dir, pv[m], m as nat)),
            decreases plan.steps.len() - n,
        {
            let step = &plan.steps[n];
            let ghost sv = step_view(step@);
            assert(sv == pv[n as int]);
            proof {
                lemma_max_train_bound(sv);
                assert(has_train(pv[n as int]));
                let k = choose|k: int| 0 <= k < sv.len() && (#[trigger] sv[k]).1 is Some;
                assert(sv[k].1 is Some);
                assert(sv[k].1->0 <= max_train(sv));
                if max_train(sv) != 0 {
                    let k2 = choose|k2: int| 0 <= k2 < sv.len() && sv[k2].1 is Some && sv[k2].1->0 == max_train(sv);
                    assert(pv[n as int][k2].1 is Some);
                    assert((max_train(sv) as int) < dir.len());
                }
                assert((max_train(sv) as int) < dir.len());
            }
            let ny = max_train_exec(step) + 1;
            let mut grid: Vec<Vec<char>> = Vec::new();
            let mut r: usize = 0;
            while r < ny
                invariant
                    r <= ny,
                    13 * (nx as int) + 1 <= usize::MAX,
                    grid_view(grid@) == bar_grid(ny as nat, nx as nat).take(r as int),
                decreases ny - r,
            {
                let line = bar_line(nx);
                let ghost before = grid_view(grid@);
                grid.push(line);
                assert(grid_view(grid@) =~= before.push(bar_row(nx as nat)));
                assert(grid_view(grid@) =~= bar_grid(ny as nat, nx as nat).take(r + 1));
                r += 1;
            }
            assert(grid_view(grid@) =~= bar_grid(ny as nat, nx as nat));
            let ghost base = bar_grid(ny as nat, nx as nat);
            let ghost width = (13 * nx + 1) as nat;
            assert(grid_dims(base, ny as nat, width));
            let mut x: u32 = 0;
            while x < nx
                invariant
                    x <= nx,
                    n < pv.len(),
                    sv == pv[n as int],
                    sv == step_view(step@),
                    routes == self.routes@,
                    dir == self.dir@,
                    base == bar_grid(ny as nat, nx as nat),
                    width == 13 * nx + 1,
                    ny == max_train(sv) + 1,
                    13 * (nx as int) + 1 <= usize::MAX,
                    steps_drawable(routes, dir, pv),
                    grid_view(grid@) == stations(base, routes, dir, sv, x as nat),
                    grid_dims(grid_view(grid@), ny as nat, width),
                decreases nx - x,
            {
                let mut k: usize = 0;
                let ghost g0 = grid_view(grid@);
                while k < step.len()
                    invariant
                        x < nx,
                        k <= step.len(),
                        n < pv.len(),
                        sv == pv[n as int],
                        sv == step_view(step@),
                        routes == self.routes@,
                        dir == self.dir@,
                        width == 13 * nx + 1,
                        ny == max_train(sv) + 1,
                        13 * (nx as int) + 1 <= usize::MAX,
                        steps_drawable(routes, dir, pv),
                        grid_view(grid@) == station_labels(g0, routes, dir, sv, x as nat, k as int),
                        grid_dims(grid_view(grid@), ny as nat, width),
                    decreases step.len() - k,
                {
                    let ghost gk = grid_view(grid@);
                    assert(sv[k as int] == (step@[k as int].0@, step@[k as int].1));
                    match step[k].1 {
                        Some(t) => {
                            assert(pv[n as int][k as int].1 is Some);
                            proof {
                                lemma_first_match(coords_view(routes), named::<Coord>(sv[k as int].0));
                            }
                            let ci = find_coord(&self.routes, step[k].0.as_str()).unwrap();
                            assert(coords_view(routes)[ci as int] == (routes[ci as int].0@, routes[ci as int].1));
                            assert(coord_of(routes, sv[k as int].0) == self.routes@[ci as int].1);
                            if self.routes[ci].1.x == x {
                                let l = label_exec(&self.dir, t, &step[k].0);
                                let len = l.as_str().unicode_len();
                                let m: usize = if len > 12 { 12 } else { len };
                                proof {
                                    lemma_max_train_bound(sv);
                                    assert(sv[k as int].1->0 <= max_train(sv));
                                    assert(l@.take(m as int) =~= cut(l@));
                                    lemma_write_dims(gk, ny as nat, width, t as int, 13 * x + 1, cut(l@));
                                }
                                write_chars(&mut grid, t, 13 * (x as usize) + 1, l.as_str(), m);
                            }
                        },
                        None => {},
                    }
                    k += 1;
                }
                x += 1;
            }
            let pic = grid_text(heading(n), &grid);
            let ghost before = pictures.deep_view();
            pictures.push(pic);
            proof {
                assert(pictures.deep_view() =~= before.push(station_picture(routes, dir, pv[n as int], n as nat)));
                assert(pictures.deep_view() =~= Seq::new((n + 1) as nat, |m: int| station_picture(routes, dir, pv[m], m as nat)));
            }
            n += 1;
        }
        proof {
            reveal_strlit("\n");
        }
        join_strings(&pictures, "\n")
    }
}

} // verus!
