use vstd::prelude::*;

use crate::text::{
    chars_of, decimal_usize, is_space, is_space_char, lines, lines_of, parse_decimal, pieces, split_on,
    trim, trim_bounds, views,
};

verus! {

/// Column of the cell where every search starts: the left edge.
pub const START_X: usize = 0;

/// Row of the cell where every search starts: one below the top edge.
pub const START_Y: usize = 1;

/// `h` rows of `w` cells, none visited.
pub open spec fn blank(h: nat, w: nat) -> Seq<Seq<bool>> {
    Seq::new(h, |y: int| Seq::new(w, |x: int| false))
}

/// The fewest turns from the start to the exit of a maze of `h` rows of
/// `w` cells, the first step never counting as a turn; `None` if no way
/// leads out.
pub open spec fn turns_out(h: nat, w: nat, paths: Seq<Seq<bool>>) -> Option<nat> {
    fewest_turns(
        paths,
        (w - 1, h - 2),
        blank(h, w),
        (START_X as int, START_Y as int),
        None,
        unvisited(blank(h, w)),
    )
}

/// One cell of the maze: the digit it was read from and whether the
/// search currently stands on it.
pub struct Node {
    pub digit: u8,
    pub visited: bool,
}

/// The digit a cell character stands for; anything that is not a decimal
/// digit is a wall.
pub open spec fn digit_of(c: char) -> u8 {
    if '0' <= c && c <= '9' {
        (c as u32 - '0' as u32) as u8
    } else {
        0
    }
}

impl Node {
    pub fn from_char(c: char) -> (r: Node)
        ensures
            r.digit == digit_of(c),
            !r.visited,
    {
        let digit: u8 = if '0' <= c && c <= '9' {
            (c as u32 - '0' as u32) as u8
        } else {
            0
        };
        Node { digit, visited: false }
    }

    pub fn is_path(&self) -> (r: bool)
        ensures
            r == (self.digit == 1),
    {
        self.digit == 1
    }
}

/// The direction of one unit step.
#[derive(PartialEq, Eq, Structural, Clone, Copy, Debug)]
pub enum Direction {
    Up,
    Down,
    Left,
    Right,
}

/// A cell coordinate: column `x`, row `y`.
#[derive(PartialEq, Eq, Structural, Clone, Copy, Debug)]
pub struct Vector2d {
    pub x: usize,
    pub y: usize,
}

pub open spec fn adjacent(a: (int, int), b: (int, int)) -> bool {
    ||| (a.1 == b.1 && (b.0 == a.0 + 1 || b.0 == a.0 - 1))
    ||| (a.0 == b.0 && (b.1 == a.1 + 1 || b.1 == a.1 - 1))
}

/// The direction of the step from `a` to `b`; a smaller row index is `Up`.
pub open spec fn dir_of(a: (int, int), b: (int, int)) -> Direction {
    if b.0 > a.0 {
        Direction::Right
    } else if b.0 < a.0 {
        Direction::Left
    } else if b.1 < a.1 {
        Direction::Up
    } else {
        Direction::Down
    }
}

impl Vector2d {
    pub open spec fn pos(self) -> (int, int) {
        (self.x as int, self.y as int)
    }

    pub fn get_direction(&self, to: &Vector2d) -> (r: Direction)
        requires
            adjacent(self.pos(), to.pos()),
        ensures
            r == dir_of(self.pos(), to.pos()),
    {
        if to.x > self.x {
            Direction::Right
        } else if to.x < self.x {
            Direction::Left
        } else if to.y < self.y {
            Direction::Up
        } else {
            Direction::Down
        }
    }
}

impl From<(usize, usize)> for Vector2d {
    fn from(f: (usize, usize)) -> (r: Vector2d) {
        Vector2d { x: f.0, y: f.1 }
    }
}

impl vstd::std_specs::convert::FromSpecImpl<(usize, usize)> for Vector2d {
    open spec fn obeys_from_spec() -> bool {
        true
    }

    open spec fn from_spec(f: (usize, usize)) -> Vector2d {
        Vector2d { x: f.0, y: f.1 }
    }
}

/// What one branch of the search carries: turns so far, the best result
/// known when the branch was entered, and the direction of the last step
/// (`None` before the first).
pub struct State {
    pub turns: u32,
    pub current_result: Option<u32>,
    pub direction: Option<Direction>,
}

impl State {
    /// The state at the start: no turns, nothing known, and no step taken,
    /// so the first step is free whatever its direction.
    pub fn empty() -> (r: State)
        ensures
            r.turns == 0,
            r.current_result is None,
            r.direction is None,
    {
        State { turns: 0, current_result: None, direction: None }
    }
}

// ---------------------------------------------------------------------
// The model of a search
// ---------------------------------------------------------------------

pub open spec fn in_grid<T>(g: Seq<Seq<T>>, p: (int, int)) -> bool {
    0 <= p.1 < g.len() && 0 <= p.0 < g[p.1].len()
}

/// `p` may be entered: inside the grid, a path, and not visited.
pub open spec fn open(paths: Seq<Seq<bool>>, vis: Seq<Seq<bool>>, p: (int, int)) -> bool {
    in_grid(paths, p) && in_grid(vis, p) && paths[p.1][p.0] && !vis[p.1][p.0]
}

pub open spec fn keep(paths: Seq<Seq<bool>>, vis: Seq<Seq<bool>>, p: (int, int)) -> Seq<(int, int)> {
    if open(paths, vis, p) {
        seq![p]
    } else {
        seq![]
    }
}

/// The cells a step from `c` may enter, in the order left, up (row - 1),
/// right, down (row + 1).
pub open spec fn neighbours(paths: Seq<Seq<bool>>, vis: Seq<Seq<bool>>, c: (int, int)) -> Seq<(int, int)> {
    keep(paths, vis, (c.0 - 1, c.1)) + keep(paths, vis, (c.0, c.1 - 1)) + keep(
        paths,
        vis,
        (c.0 + 1, c.1),
    ) + keep(paths, vis, (c.0, c.1 + 1))
}

pub open spec fn mark(vis: Seq<Seq<bool>>, p: (int, int), v: bool) -> Seq<Seq<bool>> {
    vis.update(p.1, vis[p.1].update(p.0, v))
}

pub open spec fn unvisited_in_row(r: Seq<bool>) -> nat
    decreases r.len(),
{
    if r.len() == 0 {
        0
    } else {
        unvisited_in_row(r.drop_last()) + if r.last() {
            0nat
        } else {
            1nat
        }
    }
}

/// How many cells are not visited.
pub open spec fn unvisited(g: Seq<Seq<bool>>) -> nat
    decreases g.len(),
{
    if g.len() == 0 {
        0
    } else {
        unvisited(g.drop_last()) + unvisited_in_row(g.last())
    }
}

/// The cost of a step in direction `d` after a step in direction `last`:
/// one turn when the direction changes; nothing for a first step.
pub open spec fn turn_cost(last: Option<Direction>, d: Direction) -> nat {
    match last {
        Some(l) => if l == d {
            0
        } else {
            1
        },
        None => 0,
    }
}

pub open spec fn smaller(a: Option<nat>, b: Option<nat>) -> Option<nat> {
    match (a, b) {
        (None, _) => b,
        (_, None) => a,
        (Some(p), Some(q)) => Some(if q < p { q } else { p }),
    }
}

pub open spec fn plus(a: Option<nat>, t: nat) -> Option<nat> {
    match a {
        Some(v) => Some(v + t),
        None => None,
    }
}

pub open spec fn as_nat(a: Option<u32>) -> Option<nat> {
    match a {
        Some(v) => Some(v as nat),
        None => None,
    }
}

/// The fewest turns on a way from `c` to `exit` through cells not in `vis`,
/// the last step having gone in direction `last`; `None` if there is none.
/// Every way is tried, none cut short; `budget` bounds the number of steps
/// and is the number of unvisited cells, which no simple way exceeds.
pub open spec fn fewest_turns(
    paths: Seq<Seq<bool>>,
    exit: (int, int),
    vis: Seq<Seq<bool>>,
    c: (int, int),
    last: Option<Direction>,
    budget: nat,
) -> Option<nat>
    decreases budget, 1nat, 0nat,
{
    if c == exit {
        Some(0)
    } else if budget == 0 || !in_grid(vis, c) || vis[c.1][c.0] {
        None
    } else {
        let v = mark(vis, c, true);
        fewest_turns_via(paths, exit, v, c, last, neighbours(paths, v, c), (budget - 1) as nat)
    }
}

/// The fewest turns from `c` over a first step into one of `ns`.
pub open spec fn fewest_turns_via(
    paths: Seq<Seq<bool>>,
    exit: (int, int),
    vis: Seq<Seq<bool>>,
    c: (int, int),
    last: Option<Direction>,
    ns: Seq<(int, int)>,
    budget: nat,
) -> Option<nat>
    decreases budget, 2nat, ns.len(),
{
    if ns.len() == 0 {
        None
    } else {
        let n = ns.last();
        let d = dir_of(c, n);
        smaller(
            fewest_turns_via(paths, exit, vis, c, last, ns.drop_last(), budget),
            plus(fewest_turns(paths, exit, vis, n, Some(d), budget), turn_cost(last, d)),
        )
    }
}

/// Every cell listed as a neighbour may be entered and is one step from `c`.
proof fn lemma_neighbours_open(paths: Seq<Seq<bool>>, vis: Seq<Seq<bool>>, c: (int, int))
    ensures
        forall|i: int|
            0 <= i < neighbours(paths, vis, c).len() ==> open(paths, vis, #[trigger] neighbours(paths, vis, c)[i])
                && adjacent(c, neighbours(paths, vis, c)[i]),
{
    let a = keep(paths, vis, (c.0 - 1, c.1));
    let b = keep(paths, vis, (c.0, c.1 - 1));
    let d = keep(paths, vis, (c.0 + 1, c.1));
    let e = keep(paths, vis, (c.0, c.1 + 1));
    assert forall|i: int| 0 <= i < (a + b).len() implies open(paths, vis, #[trigger] (a + b)[i]) && adjacent(c, (a + b)[i]) by {
        if i >= a.len() {
            assert((a + b)[i] == b[i - a.len()]);
        }
    }
    assert forall|i: int| 0 <= i < (a + b + d).len() implies open(paths, vis, #[trigger] (a + b + d)[i]) && adjacent(c, (a + b + d)[i]) by {
        if i >= (a + b).len() {
            assert((a + b + d)[i] == d[i - (a + b).len()]);
        } else {
            assert((a + b + d)[i] == (a + b)[i]);
        }
    }
    assert forall|i: int| 0 <= i < (a + b + d + e).len() implies open(paths, vis, #[trigger] (a + b + d + e)[i]) && adjacent(c, (a + b + d + e)[i]) by {
        if i >= (a + b + d).len() {
            assert((a + b + d + e)[i] == e[i - (a + b + d).len()]);
        } else {
            assert((a + b + d + e)[i] == (a + b + d)[i]);
        }
    }
}

proof fn lemma_row_mark(r: Seq<bool>, x: int)
    requires
        0 <= x < r.len(),
        !r[x],
    ensures
        unvisited_in_row(r.update(x, true)) + 1 == unvisited_in_row(r),
    decreases r.len(),
{
    if x == r.len() - 1 {
        assert(r.update(x, true).drop_last() =~= r.drop_last());
    } else {
        assert(r.update(x, true).drop_last() =~= r.drop_last().update(x, true));
        lemma_row_mark(r.drop_last(), x);
    }
}

/// Visiting one more cell leaves one unvisited cell fewer.
proof fn lemma_mark(g: Seq<Seq<bool>>, p: (int, int))
    requires
        in_grid(g, p),
        !g[p.1][p.0],
    ensures
        unvisited(mark(g, p, true)) + 1 == unvisited(g),
    decreases g.len(),
{
    let m = mark(g, p, true);
    if p.1 == g.len() - 1 {
        assert(m.drop_last() =~= g.drop_last());
        lemma_row_mark(g[p.1], p.0);
    } else {
        assert(m.drop_last() =~= mark(g.drop_last(), p, true));
        lemma_mark(g.drop_last(), p);
    }
}

proof fn lemma_row_bound(r: Seq<bool>)
    ensures
        unvisited_in_row(r) <= r.len(),
    decreases r.len(),
{
    if r.len() > 0 {
        lemma_row_bound(r.drop_last());
    }
}

proof fn lemma_unvisited_bound(g: Seq<Seq<bool>>, w: nat)
    requires
        forall|y: int| 0 <= y < g.len() ==> #[trigger] g[y].len() == w,
    ensures
        unvisited(g) <= g.len() * w,
    decreases g.len(),
{
    if g.len() > 0 {
        lemma_unvisited_bound(g.drop_last(), w);
        lemma_row_bound(g.last());
        let n = g.len() as int;
        assert((n - 1) * w + w == n * w) by (nonlinear_arith);
    }
}


/// A maze: its rows of cells and its size (`x` columns, `y` rows).
pub struct Labyrinth {
    rows: Vec<Vec<Node>>,
    size: Vector2d,
}

impl Labyrinth {
    pub closed spec fn width(&self) -> nat {
        self.size.x as nat
    }

    pub closed spec fn height(&self) -> nat {
        self.size.y as nat
    }

    /// Which cells are paths, row by row.
    pub closed spec fn paths(&self) -> Seq<Seq<bool>> {
        Seq::new(self.rows@.len(), |y: int| Seq::new(self.rows@[y]@.len(), |x: int| self.rows@[y]@[x].digit == 1))
    }

    /// The digit of every cell, row by row.
    pub closed spec fn digit_grid(&self) -> Seq<Seq<u8>> {
        Seq::new(self.rows@.len(), |y: int| Seq::new(self.rows@[y]@.len(), |x: int| self.rows@[y]@[x].digit))
    }

    /// Which cells the search stands on, row by row.
    pub closed spec fn visited(&self) -> Seq<Seq<bool>> {
        Seq::new(self.rows@.len(), |y: int| Seq::new(self.rows@[y]@.len(), |x: int| self.rows@[y]@[x].visited))
    }

    /// The rows match the size; there is room for the start and the exit;
    /// and a count of turns bounded by the number of cells fits in a `u32`.
    pub closed spec fn wf(&self) -> bool {
        &&& self.size.x >= 1
        &&& self.size.y >= 2
        &&& self.size.x * self.size.y <= u32::MAX
        &&& self.rows@.len() == self.size.y
        &&& forall|y: int| 0 <= y < self.rows@.len() ==> #[trigger] self.rows@[y]@.len() == self.size.x
    }

    /// Well formed, with no cell visited: the state between two searches.
    pub closed spec fn idle(&self) -> bool {
        &&& self.wf()
        &&& forall|y: int, x: int| 0 <= y < self.rows@.len() && 0 <= x < self.rows@[y]@.len()
            ==> !(#[trigger] self.rows@[y]@[x]).visited
    }

    /// The exit: the last column, one row above the bottom edge.
    pub open spec fn exit(&self) -> (int, int) {
        (self.width() - 1, self.height() - 2)
    }


    /// What a search from `c` with `state` returns: the smaller of the best
    /// result known and the turns so far plus the fewest turns from `c`.
    pub open spec fn search_result(&self, c: (int, int), state: State) -> Option<nat> {
        smaller(
            as_nat(state.current_result),
            plus(
                fewest_turns(self.paths(), self.exit(), self.visited(), c, state.direction, unvisited(self.visited())),
                state.turns as nat,
            ),
        )
    }

    /// A maze between two searches is well formed, has no cell visited,
    /// and its cells are few enough that a count of turns fits in a `u32`.
    pub proof fn lemma_idle(&self)
        requires
            self.idle(),
        ensures
            self.wf(),
            self.visited() == blank(self.height(), self.width()),
            shaped(self.paths(), self.height(), self.width()),
            self.height() >= 2,
            self.width() >= 1,
            unvisited(self.visited()) <= self.height() * self.width() <= u32::MAX,
    {
        assert(self.visited() =~~= blank(self.height(), self.width()));
        lemma_unvisited_bound(self.visited(), self.width());
        assert(self.visited().len() * self.width() == self.height() * self.width());
    }

    proof fn lemma_shape(&self)
        requires
            self.wf(),
        ensures
            self.paths().len() == self.height(),
            self.visited().len() == self.height(),
            forall|y: int| 0 <= y < self.height() ==> #[trigger] self.paths()[y].len() == self.width(),
            forall|y: int| 0 <= y < self.height() ==> #[trigger] self.visited()[y].len() == self.width(),
    {
    }

    /// The digit of every cell, row by row, as the maze was read.
    pub fn digits(&self) -> (r: Vec<Vec<u8>>)
        requires
            self.wf(),
        ensures
            r@.len() == self.height(),
            forall|y: int| 0 <= y < r@.len() ==> (#[trigger] r@[y])@ == self.digit_grid()[y],
    {
        let mut r: Vec<Vec<u8>> = Vec::new();
        let mut y: usize = 0;
        while y < self.rows.len()
            invariant
                self.wf(),
                y <= self.rows@.len(),
                r@.len() == y,
                forall|j: int| 0 <= j < y ==> (#[trigger] r@[j])@ == self.digit_grid()[j],
            decreases self.rows@.len() - y,
        {
            let mut row: Vec<u8> = Vec::new();
            let mut x: usize = 0;
            while x < self.rows[y].len()
                invariant
                    self.wf(),
                    y < self.rows@.len(),
                    x <= self.rows@[y as int]@.len(),
                    row@.len() == x,
                    forall|i: int| 0 <= i < x ==> (#[trigger] row@[i]) == self.rows@[y as int]@[i].digit,
                decreases self.rows@[y as int]@.len() - x,
            {
                row.push(self.rows[y][x].digit);
                x = x + 1;
            }
            assert(row@ =~= self.digit_grid()[y as int]);
            r.push(row);
            y = y + 1;
        }
        r
    }

    fn is_end_point(&self, coords: &Vector2d) -> (r: bool)
        requires
            self.wf(),
        ensures
            r == (coords.pos() == self.exit()),
    {
        coords.x == self.size.x - 1 && coords.y == self.size.y - 2
    }

    fn is_open(&self, x: usize, y: usize) -> (r: bool)
        requires
            self.wf(),
            x < self.width(),
            y < self.height(),
        ensures
            r == open(self.paths(), self.visited(), (x as int, y as int)),
    {
        !self.rows[y][x].visited && self.rows[y][x].is_path()
    }

    fn set_visited(&mut self, c: &Vector2d, v: bool)
        requires
            old(self).wf(),
            in_grid(old(self).visited(), c.pos()),
        ensures
            final(self).wf(),
            final(self).size == old(self).size,
            final(self).paths() == old(self).paths(),
            final(self).digit_grid() == old(self).digit_grid(),
            final(self).visited() == mark(old(self).visited(), c.pos(), v),
    {
        self.rows[c.y][c.x].visited = v;
        assert(self.paths() =~~= old(self).paths());
        assert(self.digit_grid() =~~= old(self).digit_grid());
        assert(self.visited() =~~= mark(old(self).visited(), c.pos(), v));
    }

    fn get_unvisited_path_neighbour_coordinates(&self, coords: &Vector2d) -> (r: Vec<Vector2d>)
        requires
            self.wf(),
            in_grid(self.visited(), coords.pos()),
        ensures
            r@.len() == neighbours(self.paths(), self.visited(), coords.pos()).len(),
            forall|i: int| 0 <= i < r@.len() ==> #[trigger] r@[i].pos() == neighbours(self.paths(), self.visited(), coords.pos())[i],
            forall|i: int| 0 <= i < r@.len() ==> adjacent(coords.pos(), #[trigger] r@[i].pos()),
    {
        let ghost paths = self.paths();
        let ghost vis = self.visited();
        let ghost c = coords.pos();
        let x = coords.x;
        let y = coords.y;
        let mut r: Vec<Vector2d> = Vec::new();
        let ghost mut acc: Seq<(int, int)> = seq![];
        if x > 0 && self.is_open(x - 1, y) {
            r.push(Vector2d { x: x - 1, y });
        }
        proof {
            acc = acc + keep(paths, vis, (c.0 - 1, c.1));
        }
        assert(forall|i: int| 0 <= i < r@.len() ==> #[trigger] r@[i].pos() == acc[i]);
        if y > 0 && self.is_open(x, y - 1) {
            r.push(Vector2d { x, y: y - 1 });
        }
        proof {
            acc = acc + keep(paths, vis, (c.0, c.1 - 1));
        }
        assert(forall|i: int| 0 <= i < r@.len() ==> #[trigger] r@[i].pos() == acc[i]);
        if x + 1 < self.size.x && self.is_open(x + 1, y) {
            r.push(Vector2d { x: x + 1, y });
        }
        proof {
            acc = acc + keep(paths, vis, (c.0 + 1, c.1));
        }
        assert(forall|i: int| 0 <= i < r@.len() ==> #[trigger] r@[i].pos() == acc[i]);
        if y + 1 < self.size.y && self.is_open(x, y + 1) {
            r.push(Vector2d { x, y: y + 1 });
        }
        proof {
            acc = acc + keep(paths, vis, (c.0, c.1 + 1));
        }
        assert(forall|i: int| 0 <= i < r@.len() ==> #[trigger] r@[i].pos() == acc[i]);
        assert(acc =~= neighbours(paths, vis, c));
        r
    }

    /// The search from `current_coords`, with `state` as the branch entered.
    /// It returns the smaller of the best result known on entry and the
    /// turns so far plus the fewest turns from here, as found by trying
    /// every way: cutting off a branch that cannot do better changes
    /// nothing. Every cell it visits is left unvisited again.
    pub fn find_way_out_from(&mut self, current_coords: &Vector2d, state: State) -> (r: Option<u32>)
        requires
            old(self).wf(),
            in_grid(old(self).visited(), current_coords.pos()),
            !old(self).visited()[current_coords.y as int][current_coords.x as int],
            state.turns + unvisited(old(self).visited()) <= u32::MAX,
        ensures
            final(self).wf(),
            final(self).width() == old(self).width(),
            final(self).height() == old(self).height(),
            final(self).paths() == old(self).paths(),
            final(self).digit_grid() == old(self).digit_grid(),
            final(self).visited() == old(self).visited(),
            as_nat(r) == old(self).search_result(current_coords.pos(), state),
        decreases unvisited(self.visited()),
    {
        let ghost paths = self.paths();
        let ghost vis0 = self.visited();
        let ghost exit = self.exit();
        let ghost c = current_coords.pos();
        let ghost budget = unvisited(vis0);
        if let Some(best) = state.current_result {
            if state.turns >= best {
                return state.current_result;
            }
        }
        if self.is_end_point(current_coords) {
            return Some(state.turns);
        }
        self.set_visited(current_coords, true);
        let ghost vis = self.visited();
        proof {
            lemma_mark(vis0, c);
        }
        let mut current_result = state.current_result;
        let ghost ns = neighbours(paths, vis, c);
        let candidates = self.get_unvisited_path_neighbour_coordinates(current_coords);
        let mut i: usize = 0;
        while i < candidates.len()
            invariant
                self.wf(),
                self.size == old(self).size,
                c == current_coords.pos(),
                ns == neighbours(paths, vis, c),
                budget == unvisited(vis0),
                vis0 == old(self).visited(),
                self.paths() == paths,
                self.digit_grid() == old(self).digit_grid(),
                self.visited() == vis,
                paths == old(self).paths(),
                exit == old(self).exit(),
                unvisited(vis) + 1 == budget,
                state.turns + budget <= u32::MAX,
                0 <= i <= candidates@.len(),
                candidates@.len() == ns.len(),
                forall|j: int| 0 <= j < candidates@.len() ==> #[trigger] candidates@[j].pos() == ns[j],
                forall|j: int| 0 <= j < candidates@.len() ==> adjacent(c, #[trigger] candidates@[j].pos()),
                as_nat(current_result) == smaller(
                    as_nat(state.current_result),
                    plus(fewest_turns_via(paths, exit, vis, c, state.direction, ns.take(i as int), (budget - 1) as nat), state.turns as nat),
                ),
            decreases candidates@.len() - i,
        {
            let neighbour_coords = &candidates[i];
            let direction = current_coords.get_direction(neighbour_coords);
            let turned = match state.direction {
                Some(last) => last != direction,
                None => false,
            };
            let new_turns = if turned {
                state.turns + 1
            } else {
                state.turns
            };
            let new_state = State { direction: Some(direction), current_result, turns: new_turns };
            proof {
                lemma_neighbours_open(paths, vis, c);
                assert(open(paths, vis, ns[i as int]));
            }
            let neighbour_result = self.find_way_out_from(neighbour_coords, new_state);
            match (neighbour_result, current_result) {
                (Some(new_turns), None) => current_result = Some(new_turns),
                (Some(new_turns), Some(current_turns)) => {
                    if new_turns < current_turns {
                        current_result = Some(new_turns);
                    }
                },
                _ => {},
            };
            proof {
                assert(ns.take(i + 1).drop_last() =~= ns.take(i as int));
            }
            i = i + 1;
        }
        assert(ns.take(i as int) =~= ns);
        self.set_visited(current_coords, false);
        proof {
            assert(mark(vis, c, false) =~~= vis0);
        }
        current_result
    }

    /// The search from the start, with nothing known and no step taken.
    /// The maze is left as it was, so a second call returns the same.
    pub fn find_way_out(&mut self) -> (r: Option<u32>)
        requires
            old(self).idle(),
        ensures
            final(self).idle(),
            final(self).paths() == old(self).paths(),
            final(self).digit_grid() == old(self).digit_grid(),
            final(self).visited() == old(self).visited(),
            final(self).width() == old(self).width(),
            final(self).height() == old(self).height(),
            as_nat(r) == turns_out(old(self).height(), old(self).width(), old(self).paths()),
    {
        proof {
            assert(self.visited() =~~= blank(self.height(), self.width()));
            self.lemma_shape();
            lemma_unvisited_bound(self.visited(), self.width());
            assert(self.visited().len() * self.width() == self.size.x * self.size.y) by (nonlinear_arith)
                requires self.visited().len() == self.size.y, self.width() == self.size.x;
        }
        let start = Vector2d { x: START_X, y: START_Y };
        let r = self.find_way_out_from(&start, State::empty());
        proof {
            assert forall|y: int, x: int| 0 <= y < self.rows@.len() && 0 <= x < self.rows@[y]@.len()
                implies !(#[trigger] self.rows@[y]@[x]).visited by {
                assert(self.visited()[y][x] == old(self).visited()[y][x]);
            }
        }
        r
    }
}


/// Why a maze description was refused.
#[derive(PartialEq, Eq, Structural, Clone, Copy, Debug)]
pub enum ParseError {
    /// The text has no line at all.
    MissingHeader,
    /// The first line is not two base-10 numbers separated by a comma.
    BadHeader,
    /// The height is under 2 (the start stands in the second row, so a
    /// maze of one row has no start), the width under 1, or the cells are
    /// more than a `u32` can count.
    BadSize,
    /// The rows are not `height` lines of `width` cells each.
    BadRows,
}

/// The cell characters of a row: all but whitespace.
pub open spec fn cells(l: Seq<char>) -> Seq<char>
    decreases l.len(),
{
    if l.len() == 0 {
        seq![]
    } else {
        cells(l.drop_last()) + if is_space(l.last()) {
            Seq::<char>::empty()
        } else {
            seq![l.last()]
        }
    }
}

/// The header line read as `(height, width)`.
pub open spec fn header(l: Seq<char>) -> Option<(usize, usize)> {
    let parts = pieces(l, ',');
    if parts.len() == 2 {
        match (decimal_usize(trim(parts[0])), decimal_usize(trim(parts[1]))) {
            (Some(h), Some(w)) => Some((h, w)),
            _ => None,
        }
    } else {
        None
    }
}

pub open spec fn size_ok(h: nat, w: nat) -> bool {
    h >= 2 && w >= 1 && w * h <= u32::MAX
}

pub open spec fn rows_ok(rows: Seq<Seq<char>>, h: nat, w: nat) -> bool {
    rows.len() == h && forall|y: int| 0 <= y < rows.len() ==> #[trigger] cells(rows[y]).len() == w
}

/// Which cells of the rows are paths: those whose digit is 1.
pub open spec fn paths_of(rows: Seq<Seq<char>>) -> Seq<Seq<bool>> {
    Seq::new(rows.len(), |y: int| Seq::new(cells(rows[y]).len(), |x: int| digit_of(cells(rows[y])[x]) == 1))
}

/// The digit of every cell of the rows.
pub open spec fn digits_of(rows: Seq<Seq<char>>) -> Seq<Seq<u8>> {
    Seq::new(rows.len(), |y: int| Seq::new(cells(rows[y]).len(), |x: int| digit_of(cells(rows[y])[x])))
}

/// A maze description read as `(height, width, paths)`: a header line
/// `height,width`, then one line per row with one character per cell.
/// A height under 2 is refused, since the start stands in the second row.
pub open spec fn read_maze(t: Seq<char>) -> Result<(nat, nat, Seq<Seq<bool>>), ParseError> {
    let ls = lines(t);
    if ls.len() == 0 {
        Err(ParseError::MissingHeader)
    } else {
        match header(ls[0]) {
            None => Err(ParseError::BadHeader),
            Some((h, w)) => if !size_ok(h as nat, w as nat) {
                Err(ParseError::BadSize)
            } else if !rows_ok(ls.drop_first(), h as nat, w as nat) {
                Err(ParseError::BadRows)
            } else {
                Ok((h as nat, w as nat, paths_of(ls.drop_first())))
            },
        }
    }
}

fn row_nodes(l: &Vec<char>) -> (r: Vec<Node>)
    ensures
        r@.len() == cells(l@).len(),
        forall|x: int| 0 <= x < r@.len() ==> (#[trigger] r@[x]).digit == digit_of(cells(l@)[x]) && !r@[x].visited,
{
    let mut r: Vec<Node> = Vec::new();
    let mut i: usize = 0;
    while i < l.len()
        invariant
            i <= l@.len(),
            r@.len() == cells(l@.take(i as int)).len(),
            forall|x: int| 0 <= x < r@.len() ==> (#[trigger] r@[x]).digit == digit_of(cells(l@.take(i as int))[x]) && !r@[x].visited,
        decreases l@.len() - i,
    {
        assert(l@.take(i + 1).drop_last() =~= l@.take(i as int));
        if !is_space_char(l[i]) {
            r.push(Node::from_char(l[i]));
        }
        i = i + 1;
    }
    assert(l@.take(i as int) =~= l@);
    r
}

impl Labyrinth {
    /// Reads a maze from its description (see `read_maze`). The maze has
    /// no cell visited.
    pub fn from_text(text: &str) -> (r: Result<Labyrinth, ParseError>)
        ensures
            match r {
                Ok(l) => l.idle() && read_maze(text@) == Ok::<(nat, nat, Seq<Seq<bool>>), ParseError>((l.height(), l.width(), l.paths()))
                    && l.digit_grid() == digits_of(lines(text@).drop_first()),
                Err(e) => read_maze(text@) == Err::<(nat, nat, Seq<Seq<bool>>), ParseError>(e),
            },
    {
        let t = chars_of(text);
        let ls = lines_of(&t);
        let ghost lsv = views(ls@);
        if ls.len() == 0 {
            return Err(ParseError::MissingHeader);
        }
        assert(ls@[0]@ == lsv[0]);
        let parts = split_on(&ls[0], ',');
        if parts.len() != 2 {
            return Err(ParseError::BadHeader);
        }
        assert(parts@[0]@ == pieces(lsv[0], ',')[0]);
        assert(parts@[1]@ == pieces(lsv[0], ',')[1]);
        let (a0, b0) = trim_bounds(&parts[0]);
        let (a1, b1) = trim_bounds(&parts[1]);
        let h = match parse_decimal(&parts[0], a0, b0) {
            Some(h) => h,
            None => return Err(ParseError::BadHeader),
        };
        let w = match parse_decimal(&parts[1], a1, b1) {
            Some(w) => w,
            None => return Err(ParseError::BadHeader),
        };
        if h < 2 || w < 1 || w > 0xFFFF_FFFFusize / h {
            proof {
                if h >= 2 && w >= 1 {
                    assert(w * h > u32::MAX) by (nonlinear_arith)
                        requires w > 0xFFFF_FFFFusize / h, h >= 2;
                }
            }
            return Err(ParseError::BadSize);
        }
        assert(w * h <= u32::MAX) by (nonlinear_arith)
            requires w <= 0xFFFF_FFFFusize / h, h >= 2;
        let ghost rows = lsv.drop_first();
        if ls.len() - 1 != h {
            return Err(ParseError::BadRows);
        }
        let mut grid: Vec<Vec<Node>> = Vec::new();
        let mut y: usize = 1;
        while y < ls.len()
            invariant
                1 <= y <= ls@.len(),
                lsv == views(ls@),
                lsv == lines(text@),
                header(lsv[0]) == Some((h, w)),
                size_ok(h as nat, w as nat),
                rows == lsv.drop_first(),
                ls@.len() - 1 == h,
                grid@.len() == y - 1,
                forall|j: int| 0 <= j < grid@.len() ==> #[trigger] grid@[j]@.len() == w,
                forall|j: int| 0 <= j < grid@.len() ==> #[trigger] grid@[j]@.len() == cells(rows[j]).len(),
                forall|j: int, x: int| 0 <= j < grid@.len() && 0 <= x < grid@[j]@.len()
                    ==> (#[trigger] grid@[j]@[x]).digit == digit_of(cells(rows[j])[x]) && !grid@[j]@[x].visited,
                forall|j: int| 0 <= j < y - 1 ==> #[trigger] cells(rows[j]).len() == w,
            decreases ls@.len() - y,
        {
            assert(ls@[y as int]@ == rows[y - 1]);
            let row = row_nodes(&ls[y]);
            if row.len() != w {
                assert(!rows_ok(rows, h as nat, w as nat)) by {
                    assert(cells(rows[y - 1]).len() != w);
                }
                return Err(ParseError::BadRows);
            }
            grid.push(row);
            y = y + 1;
        }
        assert(rows_ok(rows, h as nat, w as nat));
        let l = Labyrinth { rows: grid, size: Vector2d { x: w, y: h } };
        assert(l.paths() =~~= paths_of(rows));
        assert(l.digit_grid() =~~= digits_of(rows));
        Ok(l)
    }
}


/// One first step that leads out with `k` turns bounds the fewest turns
/// over all first steps by `k`.
proof fn lemma_via_at_most(
    paths: Seq<Seq<bool>>,
    exit: (int, int),
    vis: Seq<Seq<bool>>,
    c: (int, int),
    last: Option<Direction>,
    ns: Seq<(int, int)>,
    budget: nat,
    j: int,
    k: nat,
)
    requires
        0 <= j < ns.len(),
        plus(fewest_turns(paths, exit, vis, ns[j], Some(dir_of(c, ns[j])), budget), turn_cost(last, dir_of(c, ns[j])))
            == Some(k),
    ensures
        fewest_turns_via(paths, exit, vis, c, last, ns, budget) matches Some(m) && m <= k,
    decreases ns.len(),
{
    if j < ns.len() - 1 {
        assert(ns.drop_last()[j] == ns[j]);
        lemma_via_at_most(paths, exit, vis, c, last, ns.drop_last(), budget, j, k);
    }
}

/// The start cell, where every search begins.
pub open spec fn start() -> (int, int) {
    (START_X as int, START_Y as int)
}

/// A maze of `h` rows of `w` cells each.
pub open spec fn shaped(paths: Seq<Seq<bool>>, h: nat, w: nat) -> bool {
    paths.len() == h && forall|y: int| 0 <= y < h ==> #[trigger] paths[y].len() == w
}

/// The first step is never counted as a turn, whatever its direction: if
/// a cell `n` next to the start leads out with `k` turns after a step into
/// it (not entering the start again), the maze is left with at most `k`.
pub proof fn lemma_first_step_is_free(h: nat, w: nat, paths: Seq<Seq<bool>>, n: (int, int), k: nat)
    requires
        size_ok(h, w),
        shaped(paths, h, w),
        start() != (w - 1, h - 2),
        adjacent(start(), n),
        open(paths, mark(blank(h, w), start(), true), n),
        fewest_turns(
            paths,
            (w - 1, h - 2),
            mark(blank(h, w), start(), true),
            n,
            Some(dir_of(start(), n)),
            (unvisited(blank(h, w)) - 1) as nat,
        ) == Some(k),
    ensures
        turns_out(h, w, paths) matches Some(m) && m <= k,
{
    let b = blank(h, w);
    let v = mark(b, start(), true);
    let c = start();
    lemma_mark(b, c);
    lemma_neighbour_listed(paths, v, c, n);
    let ns = neighbours(paths, v, c);
    let j = choose|j: int| 0 <= j < ns.len() && ns[j] == n;
    lemma_via_at_most(paths, (w - 1, h - 2), v, c, None, ns, (unvisited(b) - 1) as nat, j, k);
}

/// A maze whose exit is one step right of the start, with that cell a
/// path, is left with no turn at all.
pub proof fn lemma_exit_next_to_start(paths: Seq<Seq<bool>>)
    requires
        shaped(paths, 3, 2),
        paths[1][1],
    ensures
        turns_out(3, 2, paths) == Some(0nat),
{
    let v = mark(blank(3, 2), start(), true);
    assert(open(paths, v, (1, 1)));
    lemma_first_step_is_free(3, 2, paths, (1, 1), 0);
}

/// A start that is not the exit and has no cell around it to enter
/// gives no way out.
pub proof fn lemma_walled_in(h: nat, w: nat, paths: Seq<Seq<bool>>)
    requires
        size_ok(h, w),
        shaped(paths, h, w),
        start() != (w - 1, h - 2),
        neighbours(paths, mark(blank(h, w), start(), true), start()).len() == 0,
    ensures
        turns_out(h, w, paths) is None,
{
    lemma_mark(blank(h, w), start());
}


/// A search depends on nothing but the maze's size, paths and visited
/// cells and on the state it is given; a search leaves all of these as it
/// found them. So a second search from the same cell with the same state
/// returns what the first one did.
pub proof fn lemma_search_repeats(before: Labyrinth, after: Labyrinth, c: (int, int), s1: State, s2: State)
    requires
        after.width() == before.width(),
        after.height() == before.height(),
        after.paths() == before.paths(),
        after.visited() == before.visited(),
        s2.turns == s1.turns,
        s2.current_result == s1.current_result,
        s2.direction == s1.direction,
    ensures
        after.search_result(c, s2) == before.search_result(c, s1),
{
}


/// `w` is a simple way to `exit` through cells not in `vis`: unit steps,
/// no cell twice, every cell after the first a path, and `exit` reached
/// only at the end.
pub open spec fn is_way(paths: Seq<Seq<bool>>, vis: Seq<Seq<bool>>, exit: (int, int), w: Seq<(int, int)>) -> bool {
    &&& w.len() >= 1
    &&& w.last() == exit
    &&& forall|i: int| 0 <= i < w.len() - 1 ==> #[trigger] w[i] != exit
    &&& forall|i: int| 0 <= i < w.len() - 1 ==> adjacent(#[trigger] w[i], w[i + 1])
    &&& forall|i: int| 1 <= i < w.len() ==> open(paths, vis, #[trigger] w[i])
    &&& w.len() > 1 ==> in_grid(vis, w[0]) && !vis[w[0].1][w[0].0]
    &&& forall|i: int, j: int| 0 <= i < j < w.len() ==> #[trigger] w[i] != #[trigger] w[j]
}

/// `r` is a result of at most `k` turns.
pub open spec fn at_most(r: Option<nat>, k: nat) -> bool {
    r matches Some(m) && m <= k
}

/// The turns taken along `w` after a step in direction `last`.
pub open spec fn way_turns(w: Seq<(int, int)>, last: Option<Direction>) -> nat
    decreases w.len(),
{
    if w.len() <= 1 {
        0
    } else {
        let d = dir_of(w[0], w[1]);
        turn_cost(last, d) + way_turns(w.drop_first(), Some(d))
    }
}

proof fn lemma_neighbour_listed(paths: Seq<Seq<bool>>, vis: Seq<Seq<bool>>, c: (int, int), n: (int, int))
    requires
        adjacent(c, n),
        open(paths, vis, n),
    ensures
        exists|j: int| 0 <= j < neighbours(paths, vis, c).len() && neighbours(paths, vis, c)[j] == n,
{
    let a = keep(paths, vis, (c.0 - 1, c.1));
    let b = keep(paths, vis, (c.0, c.1 - 1));
    let d = keep(paths, vis, (c.0 + 1, c.1));
    let e = keep(paths, vis, (c.0, c.1 + 1));
    let ns = neighbours(paths, vis, c);
    if n == (c.0 - 1, c.1) {
        assert(ns[0] == n);
    } else if n == (c.0, c.1 - 1) {
        assert(ns[a.len() as int] == n);
    } else if n == (c.0 + 1, c.1) {
        assert(ns[(a + b).len() as int] == n);
    } else {
        assert(ns[(a + b + d).len() as int] == n);
    }
}

proof fn lemma_via_some(
    paths: Seq<Seq<bool>>,
    exit: (int, int),
    vis: Seq<Seq<bool>>,
    c: (int, int),
    last: Option<Direction>,
    ns: Seq<(int, int)>,
    budget: nat,
)
    requires
        fewest_turns_via(paths, exit, vis, c, last, ns, budget) is Some,
    ensures
        exists|j: int|
            0 <= j < ns.len() && #[trigger] plus(fewest_turns(paths, exit, vis, ns[j], Some(dir_of(c, ns[j])), budget), turn_cost(last, dir_of(c, ns[j])))
                == fewest_turns_via(paths, exit, vis, c, last, ns, budget),
    decreases ns.len(),
{
    let n = ns.last();
    let r = fewest_turns_via(paths, exit, vis, c, last, ns, budget);
    let here = plus(fewest_turns(paths, exit, vis, n, Some(dir_of(c, n)), budget), turn_cost(last, dir_of(c, n)));
    if here == r {
        assert(ns[ns.len() - 1] == n);
    } else {
        lemma_via_some(paths, exit, vis, c, last, ns.drop_last(), budget);
        let j = choose|j: int|
            0 <= j < ns.drop_last().len() && #[trigger] plus(fewest_turns(paths, exit, vis, ns.drop_last()[j], Some(dir_of(c, ns.drop_last()[j])), budget), turn_cost(last, dir_of(c, ns.drop_last()[j])))
                == fewest_turns_via(paths, exit, vis, c, last, ns.drop_last(), budget);
        assert(ns[j] == ns.drop_last()[j]);
    }
}

/// A step from an unvisited cell `c` onto a simple way that avoids `c`
/// gives a simple way.
proof fn lemma_prepend(paths: Seq<Seq<bool>>, exit: (int, int), vis: Seq<Seq<bool>>, c: (int, int), t: Seq<(int, int)>)
    requires
        c != exit,
        in_grid(vis, c),
        !vis[c.1][c.0],
        is_way(paths, mark(vis, c, true), exit, t),
        open(paths, mark(vis, c, true), t[0]),
        adjacent(c, t[0]),
    ensures
        is_way(paths, vis, exit, seq![c] + t),
{
    let v = mark(vis, c, true);
    let n = t[0];
    let w = seq![c] + t;
    assert(w[1] == n);
    assert forall|i: int| 1 <= i < w.len() implies open(paths, vis, #[trigger] w[i]) by {
        assert(w[i] == t[i - 1]);
    }
    assert forall|i: int| 0 <= i < w.len() - 1 implies adjacent(#[trigger] w[i], w[i + 1]) by {
        if i > 0 {
            assert(w[i] == t[i - 1] && w[i + 1] == t[i]);
        }
    }
    assert forall|i: int| 0 <= i < w.len() - 1 implies #[trigger] w[i] != exit by {
        if i > 0 {
            assert(w[i] == t[i - 1]);
        }
    }
    assert forall|i: int, k: int| 0 <= i < k < w.len() implies #[trigger] w[i] != #[trigger] w[k] by {
        assert(w[k] == t[k - 1]);
        assert(open(paths, v, t[k - 1]));
        if i > 0 {
            assert(w[i] == t[i - 1]);
        }
    }
    assert(is_way(paths, vis, exit, w));
}

/// What the search finds is a simple way out with that many turns.
pub proof fn lemma_found_is_way(
    paths: Seq<Seq<bool>>,
    exit: (int, int),
    vis: Seq<Seq<bool>>,
    c: (int, int),
    last: Option<Direction>,
    budget: nat,
)
    requires
        fewest_turns(paths, exit, vis, c, last, budget) is Some,
    ensures
        exists|w: Seq<(int, int)>|
            is_way(paths, vis, exit, w) && w[0] == c && Some(way_turns(w, last)) == fewest_turns(paths, exit, vis, c, last, budget),
    decreases budget,
{
    if c == exit {
        let w = seq![c];
        assert(is_way(paths, vis, exit, w) && w[0] == c && Some(way_turns(w, last)) == fewest_turns(paths, exit, vis, c, last, budget));
    } else {
        let v = mark(vis, c, true);
        let ns = neighbours(paths, v, c);
        lemma_via_some(paths, exit, v, c, last, ns, (budget - 1) as nat);
        let j = choose|j: int|
            0 <= j < ns.len() && #[trigger] plus(fewest_turns(paths, exit, v, ns[j], Some(dir_of(c, ns[j])), (budget - 1) as nat), turn_cost(last, dir_of(c, ns[j])))
                == fewest_turns_via(paths, exit, v, c, last, ns, (budget - 1) as nat);
        let n = ns[j];
        let d = dir_of(c, n);
        lemma_neighbours_open(paths, v, c);
        lemma_found_is_way(paths, exit, v, n, Some(d), (budget - 1) as nat);
        let t = choose|t: Seq<(int, int)>|
            is_way(paths, v, exit, t) && t[0] == n && Some(way_turns(t, Some(d))) == fewest_turns(paths, exit, v, n, Some(d), (budget - 1) as nat);
        lemma_prepend(paths, exit, vis, c, t);
        let w = seq![c] + t;
        assert(w.drop_first() =~= t);
        assert(w[1] == n);
        assert(Some(way_turns(w, last)) == fewest_turns(paths, exit, vis, c, last, budget));
    }
}

/// The search finds every simple way out, and no more turns than it takes.
pub proof fn lemma_way_is_found(
    paths: Seq<Seq<bool>>,
    exit: (int, int),
    vis: Seq<Seq<bool>>,
    w: Seq<(int, int)>,
    last: Option<Direction>,
)
    requires
        is_way(paths, vis, exit, w),
    ensures
        at_most(fewest_turns(paths, exit, vis, w[0], last, unvisited(vis)), way_turns(w, last)),
    decreases w.len(),
{
    let c = w[0];
    if c != exit {
        let v = mark(vis, c, true);
        lemma_mark(vis, c);
        let n = w[1];
        assert(w[0] != w[1]);
        let t = w.drop_first();
        assert forall|i: int| 1 <= i < t.len() implies open(paths, v, #[trigger] t[i]) by {
            assert(t[i] == w[i + 1]);
            assert(w[0] != w[i + 1]);
        }
        assert forall|i: int| 0 <= i < t.len() - 1 implies adjacent(#[trigger] t[i], t[i + 1]) by {
            assert(t[i] == w[i + 1] && t[i + 1] == w[i + 2]);
        }
        assert forall|i: int| 0 <= i < t.len() - 1 implies #[trigger] t[i] != exit by {
            assert(t[i] == w[i + 1]);
        }
        assert forall|i: int, k: int| 0 <= i < k < t.len() implies #[trigger] t[i] != #[trigger] t[k] by {
            assert(t[i] == w[i + 1] && t[k] == w[k + 1]);
        }
        assert(open(paths, vis, w[1]));
        assert(is_way(paths, v, exit, t));
        let d = dir_of(c, n);
        lemma_way_is_found(paths, exit, v, t, Some(d));
        lemma_neighbour_listed(paths, v, c, n);
        let ns = neighbours(paths, v, c);
        let j = choose|j: int| 0 <= j < ns.len() && ns[j] == n;
        let k = fewest_turns(paths, exit, v, n, Some(d), unvisited(v))->0 + turn_cost(last, d);
        lemma_via_at_most(paths, exit, v, c, last, ns, unvisited(v), j, k);
        assert(w.drop_first() == t);
    }
}

/// A maze has no way out exactly when no simple way of unit steps leads
/// from the start to the exit through path cells.
pub proof fn lemma_no_way_out_iff_no_path(h: nat, w: nat, paths: Seq<Seq<bool>>)
    requires
        size_ok(h, w),
        shaped(paths, h, w),
    ensures
        turns_out(h, w, paths) is None <==> !exists|p: Seq<(int, int)>|
            is_way(paths, blank(h, w), (w - 1, h - 2), p) && p[0] == start(),
{
    lemma_fewest_turns_is_least(h, w, paths);
    if exists|p: Seq<(int, int)>| is_way(paths, blank(h, w), (w - 1, h - 2), p) && p[0] == start() {
        let p = choose|p: Seq<(int, int)>| is_way(paths, blank(h, w), (w - 1, h - 2), p) && p[0] == start();
        assert(at_most(turns_out(h, w, paths), way_turns(p, None)));
    }
}

/// The answer is the fewest turns over all simple ways of unit steps from
/// the start to the exit through path cells, the first step never counting
/// as a turn: some way takes that many turns and none takes fewer.
pub proof fn lemma_fewest_turns_is_least(h: nat, w: nat, paths: Seq<Seq<bool>>)
    requires
        size_ok(h, w),
        shaped(paths, h, w),
    ensures
        turns_out(h, w, paths) matches Some(m) ==> exists|p: Seq<(int, int)>|
            is_way(paths, blank(h, w), (w - 1, h - 2), p) && p[0] == start() && way_turns(p, None) == m,
        forall|p: Seq<(int, int)>|
            is_way(paths, blank(h, w), (w - 1, h - 2), p) && p[0] == start() ==> at_most(
                turns_out(h, w, paths),
                #[trigger] way_turns(p, None),
            ),
{
    let exit = (w - 1, h - 2);
    if turns_out(h, w, paths) is Some {
        lemma_found_is_way(paths, exit, blank(h, w), start(), None, unvisited(blank(h, w)));
        let p = choose|p: Seq<(int, int)>|
            is_way(paths, blank(h, w), exit, p) && p[0] == start() && Some(way_turns(p, None))
                == fewest_turns(paths, exit, blank(h, w), start(), None, unvisited(blank(h, w)));
        assert(is_way(paths, blank(h, w), (w - 1, h - 2), p) && p[0] == start() && Some(way_turns(p, None)) == turns_out(h, w, paths));
    }
    assert forall|p: Seq<(int, int)>|
        is_way(paths, blank(h, w), (w - 1, h - 2), p) && p[0] == start() implies at_most(
            turns_out(h, w, paths),
            #[trigger] way_turns(p, None),
        ) by {
        lemma_way_is_found(paths, exit, blank(h, w), p, None);
    }
}

} // verus!
