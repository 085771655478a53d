use vstd::prelude::*;

use crate::maze::{cell_at, copy_matrix, interior, move_from, moved_to, perceive, perceived, well_laid, WALL};
use crate::classifier::Classifier;
use crate::mazes::{rows_of, MazeGeometry};
use crate::perception::Perception;
use crate::replay::ReplaySample;
use crate::rng::RandomSource;
use crate::symbol::Symbol;
use crate::text::same_text;

verus! {

broadcast use vstd::array::group_array_axioms;

/// The agent sees eight cells.
pub const STATE_LEN: usize = 8;

/// The agent moves in eight directions.
pub const ACTIONS: usize = 8;

/// `a` comes before `b` in reading order.
pub open spec fn reads_before(a: (usize, usize), b: (usize, usize)) -> bool {
    a.0 < b.0 || (a.0 == b.0 && a.1 < b.1)
}

/// `list` holds the cells of a layout that are not walls, each once, in
/// reading order.
pub open spec fn lists_open_cells(cells: Seq<Seq<u8>>, list: Seq<(usize, usize)>) -> bool {
    &&& forall|i: int|
        0 <= i < list.len() ==> {
            let (r, c) = #[trigger] list[i];
            &&& r < cells.len()
            &&& c < cells[0].len()
            &&& cells[r as int][c as int] != WALL
        }
    &&& forall|i: int, j: int| 0 <= i < j < list.len() ==> reads_before(#[trigger] list[i], #[trigger] list[j])
    &&& forall|r: int, c: int|
        0 <= r < cells.len() && 0 <= c < cells[0].len() && #[trigger] cells[r][c] != WALL ==> exists|i: int|
            0 <= i < list.len() && #[trigger] list[i] == (r as usize, c as usize)
}

/// A maze layout with its open cells listed in reading order.
pub struct Grid {
    matrix: Vec<Vec<u8>>,
    cells: Vec<(usize, usize)>,
    max_steps: u32,
}

impl Grid {
    #[verifier::type_invariant]
    spec fn listed(self) -> bool {
        &&& well_laid(rows_of(self.matrix@))
        &&& lists_open_cells(rows_of(self.matrix@), self.cells@)
    }

    /// The layout, row by row.
    pub closed spec fn layout(self) -> Seq<Seq<u8>> {
        rows_of(self.matrix@)
    }

    /// The open cells in reading order.
    pub closed spec fn open_cells(self) -> Seq<(usize, usize)> {
        self.cells@
    }

    /// The step limit of an episode.
    pub closed spec fn step_limit(self) -> nat {
        self.max_steps as nat
    }

    /// The grid of a known maze.
    pub fn from_geometry(geometry: &MazeGeometry) -> (result: Self)
        requires
            well_laid(rows_of(geometry.matrix@)),
        ensures
            result.layout() == rows_of(geometry.matrix@),
            lists_open_cells(result.layout(), result.open_cells()),
            result.step_limit() == geometry.max_episode_steps,
    {
        let matrix = copy_matrix(&geometry.matrix);
        let ghost m = rows_of(matrix@);
        let rows = matrix.len();
        let width = matrix[0].len();
        let mut cells: Vec<(usize, usize)> = Vec::new();
        let mut r: usize = 0;
        while r < rows
            invariant
                m == rows_of(matrix@),
                well_laid(m),
                rows == m.len(),
                width == m[0].len(),
                r <= rows,
                forall|i: int|
                    0 <= i < cells@.len() ==> {
                        let (a, b) = #[trigger] cells@[i];
                        &&& a < r
                        &&& b < width
                        &&& m[a as int][b as int] != WALL
                    },
                forall|i: int, j: int| 0 <= i < j < cells@.len() ==> reads_before(#[trigger] cells@[i], #[trigger] cells@[j]),
                forall|a: int, b: int|
                    0 <= a < r && 0 <= b < width && #[trigger] m[a][b] != WALL ==> exists|i: int|
                        0 <= i < cells@.len() && #[trigger] cells@[i] == (a as usize, b as usize),
            decreases rows - r,
        {
            let mut c: usize = 0;
            while c < width
                invariant
                    m == rows_of(matrix@),
                    well_laid(m),
                    rows == m.len(),
                    width == m[0].len(),
                    r < rows,
                    c <= width,
                    forall|i: int|
                        0 <= i < cells@.len() ==> {
                            let (a, b) = #[trigger] cells@[i];
                            &&& reads_before((a, b), (r, c))
                            &&& b < width
                            &&& m[a as int][b as int] != WALL
                        },
                    forall|i: int, j: int|
                        0 <= i < j < cells@.len() ==> reads_before(#[trigger] cells@[i], #[trigger] cells@[j]),
                    forall|a: int, b: int|
                        ((0 <= a < r && 0 <= b < width) || (a == r && 0 <= b < c)) && #[trigger] m[a][b] != WALL
                            ==> exists|i: int| 0 <= i < cells@.len() && #[trigger] cells@[i] == (a as usize, b as usize),
                decreases width - c,
            {
                if cell_at(&matrix, r, c) != WALL {
                    let ghost before = cells@;
                    cells.push((r, c));
                    proof {
                        assert forall|a: int, b: int|
                            ((0 <= a < r && 0 <= b < width) || (a == r && 0 <= b < c + 1)) && #[trigger] m[a][b]
                                != WALL implies exists|i: int|
                            0 <= i < cells@.len() && #[trigger] cells@[i] == (a as usize, b as usize) by {
                            if a == r && b == c {
                                assert(cells@[before.len() as int] == (a as usize, b as usize));
                            } else {
                                let i = choose|i: int| 0 <= i < before.len() && #[trigger] before[i] == (a as usize, b as usize);
                                assert(cells@[i] == before[i]);
                            }
                        }
                    }
                }
                c += 1;
            }
            r += 1;
        }
        Grid { matrix, cells, max_steps: geometry.max_episode_steps }
    }

    /// The number of open cells.
    pub fn cell_count(&self) -> (result: usize)
        ensures
            result == self.open_cells().len(),
    {
        self.cells.len()
    }

    /// The open cell at `index`.
    pub fn cell(&self, index: usize) -> (result: (usize, usize))
        requires
            index < self.open_cells().len(),
        ensures
            result == self.open_cells()[index as int],
            interior(self.layout(), result.0 as int, result.1 as int),
    {
        proof {
            use_type_invariant(self);
            let (r, c) = self.cells@[index as int];
            assert(self.layout()[r as int][c as int] != WALL);
        }
        self.cells[index]
    }

    /// What the agent sees at an open cell.
    pub fn perception(&self, cell: (usize, usize)) -> (result: [Symbol; STATE_LEN])
        requires
            interior(self.layout(), cell.0 as int, cell.1 as int),
        ensures
            result@ == perceived(self.layout(), cell.0 as int, cell.1 as int),
    {
        proof {
            use_type_invariant(self);
        }
        perceive(&self.matrix, cell.0, cell.1)
    }

    /// Where a move from an open cell leads.
    pub fn next_cell(&self, cell: (usize, usize), action: usize) -> (result: (usize, usize))
        requires
            interior(self.layout(), cell.0 as int, cell.1 as int),
            action < ACTIONS,
        ensures
            (result.0 as int, result.1 as int) == moved_to(self.layout(), cell.0 as int, cell.1 as int, action as int),
            interior(self.layout(), result.0 as int, result.1 as int),
    {
        proof {
            use_type_invariant(self);
        }
        move_from(&self.matrix, cell.0, cell.1, action)
    }
}


/// A cell as a pair of integers.
pub open spec fn at(cell: (usize, usize)) -> (int, int) {
    (cell.0 as int, cell.1 as int)
}

/// A cell that is not a wall, away from the border.
pub open spec fn open_at(m: Seq<Seq<u8>>, p: (int, int)) -> bool {
    interior(m, p.0, p.1) && m[p.0][p.1] != WALL
}

/// One move leads from `p` to `t`.
pub open spec fn step_between(m: Seq<Seq<u8>>, p: (int, int), t: (int, int)) -> bool {
    exists|a: int| 0 <= a < 8 && #[trigger] moved_to(m, p.0, p.1, a) == t
}

/// A sequence of cells, each one move from the one before.
pub open spec fn is_walk(m: Seq<Seq<u8>>, path: Seq<(int, int)>) -> bool {
    &&& path.len() >= 1
    &&& forall|i: int, j: int| 0 <= i && j == i + 1 && j < path.len() ==> step_between(m, #[trigger] path[i], #[trigger] path[j])
}

/// `t` can be reached from `s` in at most `k` moves.
pub open spec fn within(m: Seq<Seq<u8>>, s: (int, int), t: (int, int), k: nat) -> bool {
    exists|path: Seq<(int, int)>| #[trigger] is_walk(m, path) && path[0] == s && path.last() == t && path.len() <= k + 1
}

/// `d` is the number of moves from `s` to `t` in the fewest moves, or
/// `u32::MAX` when `t` cannot be reached.
pub open spec fn distance_is(m: Seq<Seq<u8>>, s: (int, int), t: (int, int), d: u32) -> bool {
    if d == u32::MAX {
        forall|k: nat| !#[trigger] within(m, s, t, k)
    } else {
        within(m, s, t, d as nat) && (d == 0 || !within(m, s, t, (d - 1) as nat))
    }
}

/// A cell is reached from itself without a move, and only itself is.
pub proof fn lemma_within_zero(m: Seq<Seq<u8>>, s: (int, int), t: (int, int))
    ensures
        within(m, s, s, 0),
        within(m, s, t, 0) ==> s == t,
{
    let path = seq![s];
    assert(is_walk(m, path));
}

/// One more move from a reached cell reaches its target.
pub proof fn lemma_within_step(m: Seq<Seq<u8>>, s: (int, int), p: (int, int), t: (int, int), k: nat)
    requires
        within(m, s, p, k),
        step_between(m, p, t),
    ensures
        within(m, s, t, k + 1),
{
    let path = choose|path: Seq<(int, int)>| #[trigger] is_walk(m, path) && path[0] == s && path.last() == p && path.len() <= k + 1;
    let longer = path.push(t);
    assert forall|i: int, j: int| 0 <= i && j == i + 1 && j < longer.len() implies step_between(
        m,
        #[trigger] longer[i],
        #[trigger] longer[j],
    ) by {
        if j < path.len() {
            assert(longer[i] == path[i] && longer[j] == path[j]);
        } else {
            assert(longer[i] == p);
        }
    }
    assert(is_walk(m, longer));
}

/// A cell reached in `k + 1` moves but not in `k` is one move from a cell
/// reached in `k`.
pub proof fn lemma_within_last_step(m: Seq<Seq<u8>>, s: (int, int), t: (int, int), k: nat) -> (p: (int, int))
    requires
        within(m, s, t, k + 1),
        !within(m, s, t, k),
    ensures
        within(m, s, p, k),
        step_between(m, p, t),
{
    let path = choose|path: Seq<(int, int)>| #[trigger] is_walk(m, path) && path[0] == s && path.last() == t && path.len() <= k + 2;
    assert(path.len() == k + 2);
    let front = path.drop_last();
    assert forall|i: int, j: int| 0 <= i && j == i + 1 && j < front.len() implies step_between(
        m,
        #[trigger] front[i],
        #[trigger] front[j],
    ) by {
        assert(front[i] == path[i] && front[j] == path[j]);
    }
    assert(is_walk(m, front));
    let p = front.last();
    assert(path[k as int] == p && path[k as int + 1] == t);
    assert(step_between(m, path[k as int], path[k as int + 1]));
    p
}

/// What can be reached within fewer moves can be reached within more.
pub proof fn lemma_within_monotone(m: Seq<Seq<u8>>, s: (int, int), t: (int, int), j: nat, k: nat)
    requires
        j <= k,
        within(m, s, t, j),
    ensures
        within(m, s, t, k),
{
    let path = choose|path: Seq<(int, int)>| #[trigger] is_walk(m, path) && path[0] == s && path.last() == t && path.len() <= j + 1;
    assert(is_walk(m, path));
}

/// A move from an open cell reaches an open cell.
pub proof fn lemma_move_stays_open(m: Seq<Seq<u8>>, p: (int, int), a: int)
    requires
        well_laid(m),
        open_at(m, p),
        0 <= a < 8,
    ensures
        open_at(m, moved_to(m, p.0, p.1, a)),
{
    let target = (p.0 + crate::maze::row_step(a), p.1 + crate::maze::col_step(a));
    assert(0 <= target.0 < m.len() && 0 <= target.1 < m[0].len());
    if m[target.0][target.1] != WALL {
        assert(interior(m, target.0, target.1));
    }
}

/// Everything reachable from an open cell is open.
pub proof fn lemma_within_open(m: Seq<Seq<u8>>, s: (int, int), t: (int, int), k: nat)
    requires
        well_laid(m),
        open_at(m, s),
        within(m, s, t, k),
    ensures
        open_at(m, t),
{
    let path = choose|path: Seq<(int, int)>| #[trigger] is_walk(m, path) && path[0] == s && path.last() == t && path.len() <= k + 1;
    assert forall|i: int| 0 <= i < path.len() implies open_at(m, #[trigger] path[i]) by {
        lemma_walk_open(m, path, i);
    }
    assert(path.last() == path[path.len() - 1]);
}

/// Every cell of a walk from an open cell is open.
proof fn lemma_walk_open(m: Seq<Seq<u8>>, path: Seq<(int, int)>, i: int)
    requires
        well_laid(m),
        is_walk(m, path),
        open_at(m, path[0]),
        0 <= i < path.len(),
    ensures
        open_at(m, path[i]),
    decreases i,
{
    if i > 0 {
        lemma_walk_open(m, path, i - 1);
        assert(step_between(m, path[i - 1], path[i]));
        let a = choose|a: int| 0 <= a < 8 && #[trigger] moved_to(m, path[i - 1].0, path[i - 1].1, a) == path[i];
        lemma_move_stays_open(m, path[i - 1], a);
    }
}

impl Grid {
    /// A listed cell is open.
    pub proof fn lemma_listed_open(self, i: int)
        requires
            lists_open_cells(self.layout(), self.open_cells()),
            well_laid(self.layout()),
            0 <= i < self.open_cells().len(),
        ensures
            open_at(self.layout(), at(self.open_cells()[i])),
    {
        let (r, c) = self.open_cells()[i];
        assert(self.layout()[r as int][c as int] != WALL);
    }

    /// The position of a listed open cell.
    pub fn index_of(&self, cell: (usize, usize)) -> (result: usize)
        requires
            exists|i: int| 0 <= i < self.open_cells().len() && #[trigger] self.open_cells()[i] == cell,
        ensures
            result < self.open_cells().len(),
            self.open_cells()[result as int] == cell,
    {
        let mut index: usize = 0;
        while index < self.cells.len()
            invariant
                index <= self.cells@.len(),
                exists|i: int| index <= i < self.cells@.len() && #[trigger] self.cells@[i] == cell,
            decreases self.cells@.len() - index,
        {
            if self.cells[index].0 == cell.0 && self.cells[index].1 == cell.1 {
                return index;
            }
            index += 1;
        }
        index
    }

    /// The position of the cell a move from the listed cell `index` leads
    /// to.
    pub fn next(&self, index: usize, action: usize) -> (result: usize)
        requires
            index < self.open_cells().len(),
            action < ACTIONS,
        ensures
            result < self.open_cells().len(),
            at(self.open_cells()[result as int]) == moved_to(
                self.layout(),
                self.open_cells()[index as int].0 as int,
                self.open_cells()[index as int].1 as int,
                action as int,
            ),
    {
        proof {
            use_type_invariant(self);
            self.lemma_listed_open(index as int);
        }
        let cell = self.cell(index);
        let target = self.next_cell(cell, action);
        proof {
            lemma_move_stays_open(self.layout(), at(cell), action as int);
            let m = self.layout();
            assert(m[target.0 as int][target.1 as int] != WALL);
        }
        self.index_of(target)
    }
}


/// The number of entries that are `u32::MAX`: the cells not reached yet.
pub open spec fn unvisited(d: Seq<u32>) -> nat
    decreases d.len(),
{
    if d.len() == 0 {
        0
    } else {
        unvisited(d.drop_last()) + if d.last() == u32::MAX {
            1nat
        } else {
            0nat
        }
    }
}

proof fn lemma_unvisited_bound(d: Seq<u32>)
    ensures
        unvisited(d) <= d.len(),
    decreases d.len(),
{
    if d.len() > 0 {
        lemma_unvisited_bound(d.drop_last());
    }
}

proof fn lemma_unvisited_update(d: Seq<u32>, i: int, v: u32)
    requires
        0 <= i < d.len(),
        d[i] == u32::MAX,
        v != u32::MAX,
    ensures
        unvisited(d.update(i, v)) + 1 == unvisited(d),
    decreases d.len(),
{
    let e = d.update(i, v);
    if i < d.len() - 1 {
        assert(e.drop_last() =~= d.drop_last().update(i, v));
        lemma_unvisited_update(d.drop_last(), i, v);
    } else {
        assert(e.drop_last() =~= d.drop_last());
    }
}

proof fn lemma_unvisited_all(d: Seq<u32>)
    requires
        forall|i: int| 0 <= i < d.len() ==> d[i] == u32::MAX,
    ensures
        unvisited(d) == d.len(),
    decreases d.len(),
{
    if d.len() > 0 {
        lemma_unvisited_all(d.drop_last());
    }
}

/// `d` is the fewest number of moves from `s` to `t`.
pub open spec fn exact(m: Seq<Seq<u8>>, s: (int, int), t: (int, int), d: u32) -> bool {
    within(m, s, t, d as nat) && (d == 0 || !within(m, s, t, (d - 1) as nat))
}

/// A listed cell has one position in the list.
proof fn lemma_listed_unique(m: Seq<Seq<u8>>, cells: Seq<(usize, usize)>, i: int, j: int)
    requires
        lists_open_cells(m, cells),
        0 <= i < cells.len(),
        0 <= j < cells.len(),
        at(cells[i]) == at(cells[j]),
    ensures
        i == j,
{
    if i < j {
        assert(reads_before(cells[i], cells[j]));
    } else if j < i {
        assert(reads_before(cells[j], cells[i]));
    }
}

/// An open cell is listed.
proof fn lemma_open_listed(m: Seq<Seq<u8>>, cells: Seq<(usize, usize)>, p: (int, int)) -> (q: int)
    requires
        lists_open_cells(m, cells),
        open_at(m, p),
        m.len() <= usize::MAX,
        m[0].len() <= usize::MAX,
    ensures
        0 <= q < cells.len(),
        at(cells[q]) == p,
{
    assert(m[p.0][p.1] != WALL);
    let q = choose|i: int| 0 <= i < cells.len() && #[trigger] cells[i] == (p.0 as usize, p.1 as usize);
    q
}

/// Once no cell is exactly `level` moves away, nothing beyond is reached:
/// whatever is reached at all is reached within `level` moves.
proof fn lemma_closed(
    m: Seq<Seq<u8>>,
    cells: Seq<(usize, usize)>,
    dist: Seq<u32>,
    s: (int, int),
    level: nat,
    t: (int, int),
    k: nat,
)
    requires
        well_laid(m),
        lists_open_cells(m, cells),
        open_at(m, s),
        m.len() <= usize::MAX,
        m[0].len() <= usize::MAX,
        level >= 1,
        dist.len() == cells.len(),
        forall|c: int|
            0 <= c < cells.len() && #[trigger] dist[c] != u32::MAX ==> dist[c] < level && exact(m, s, at(cells[c]), dist[c]),
        forall|c: int| 0 <= c < cells.len() && #[trigger] dist[c] == u32::MAX ==> !within(m, s, at(cells[c]), level),
        within(m, s, t, k),
    ensures
        within(m, s, t, level),
    decreases k,
{
    if k <= level {
        lemma_within_monotone(m, s, t, k, level);
    } else if within(m, s, t, (k - 1) as nat) {
        lemma_closed(m, cells, dist, s, level, t, (k - 1) as nat);
    } else {
        let p = lemma_within_last_step(m, s, t, (k - 1) as nat);
        lemma_closed(m, cells, dist, s, level, p, (k - 1) as nat);
        lemma_within_open(m, s, p, level);
        let q = lemma_open_listed(m, cells, p);
        assert(dist[q] != u32::MAX);
        assert(exact(m, s, p, dist[q]));
        lemma_within_step(m, s, p, t, dist[q] as nat);
        lemma_within_monotone(m, s, t, dist[q] as nat + 1, level);
    }
}


/// Every listed cell at `t` has a distance.
pub open spec fn covered(cells: Seq<(usize, usize)>, dist: Seq<u32>, t: (int, int)) -> bool {
    forall|c: int| 0 <= c < cells.len() && at(cells[c]) == t ==> #[trigger] dist[c] != u32::MAX
}

impl Grid {
    /// The fewest moves from the listed cell `goal` to each listed cell,
    /// `u32::MAX` for a cell that cannot be reached: a breadth-first
    /// search, one distance at a time.
    pub fn distances_from(&self, goal: usize) -> (result: Vec<u32>)
        requires
            goal < self.open_cells().len(),
            self.open_cells().len() < u32::MAX,
        ensures
            result@.len() == self.open_cells().len(),
            forall|c: int|
                0 <= c < self.open_cells().len() ==> distance_is(
                    self.layout(),
                    at(self.open_cells()[goal as int]),
                    at(self.open_cells()[c]),
                    #[trigger] result@[c],
                ),
    {
        proof {
            use_type_invariant(self);
            self.lemma_listed_open(goal as int);
        }
        let ghost m = self.layout();
        let ghost cells = self.open_cells();
        let ghost s = at(cells[goal as int]);
        let n = self.cells.len();
        let rows = self.matrix.len();
        let width = self.matrix[0].len();
        let mut dist: Vec<u32> = vec![u32::MAX; n];
        proof {
            assert(dist@ =~= Seq::new(n as nat, |i: int| u32::MAX));
            lemma_unvisited_all(dist@);
            lemma_within_zero(m, s, s);
        }
        dist.set(goal, 0);
        proof {
            lemma_unvisited_update(Seq::new(n as nat, |i: int| u32::MAX), goal as int, 0);
            assert(dist@ =~= Seq::new(n as nat, |i: int| u32::MAX).update(goal as int, 0));
            assert forall|c: int| 0 <= c < n && #[trigger] dist@[c] == u32::MAX implies !within(
                m,
                s,
                at(cells[c]),
                0,
            ) by {
                lemma_within_zero(m, s, at(cells[c]));
                if within(m, s, at(cells[c]), 0) {
                    lemma_listed_unique(m, cells, c, goal as int);
                }
            }
        }
        let mut frontier: Vec<usize> = vec![goal];
        let mut level: u32 = 0;
        while frontier.len() > 0
            invariant
                m == self.layout(),
                cells == self.open_cells(),
                well_laid(m),
                lists_open_cells(m, cells),
                m.len() == rows,
                m[0].len() == width,
                n == cells.len(),
                n < u32::MAX,
                goal < n,
                s == at(cells[goal as int]),
                open_at(m, s),
                dist@.len() == n,
                dist@[goal as int] == 0,
                forall|c: int|
                    0 <= c < n && #[trigger] dist@[c] != u32::MAX ==> dist@[c] <= level && exact(m, s, at(cells[c]), dist@[c]),
                forall|c: int| 0 <= c < n && #[trigger] dist@[c] == u32::MAX ==> !within(m, s, at(cells[c]), level as nat),
                forall|j: int| 0 <= j < frontier@.len() ==> #[trigger] frontier@[j] < n && dist@[frontier@[j] as int] == level,
                forall|c: int| 0 <= c < n && #[trigger] dist@[c] == level ==> exists|j: int| 0 <= j < frontier@.len() && #[trigger] frontier@[j] == c,
                frontier@.len() > 0 ==> n - unvisited(dist@) >= level + 1,
                unvisited(dist@) <= n,
            decreases unvisited(dist@) + frontier@.len(),
        {
            let ghost start = unvisited(dist@);
            assert(level + 1 < u32::MAX);
            let next_level = level + 1;
            let mut next_frontier: Vec<usize> = Vec::new();
            let mut j: usize = 0;
            while j < frontier.len()
                invariant
                    m == self.layout(),
                    cells == self.open_cells(),
                    well_laid(m),
                    lists_open_cells(m, cells),
                    m.len() == rows,
                    m[0].len() == width,
                    n == cells.len(),
                    n < u32::MAX,
                    goal < n,
                    s == at(cells[goal as int]),
                    open_at(m, s),
                    next_level == level + 1,
                    next_level < u32::MAX,
                    j <= frontier@.len(),
                    dist@.len() == n,
                    dist@[goal as int] == 0,
                    forall|c: int|
                        0 <= c < n && #[trigger] dist@[c] != u32::MAX ==> dist@[c] <= next_level && exact(
                            m,
                            s,
                            at(cells[c]),
                            dist@[c],
                        ),
                    forall|c: int| 0 <= c < n && #[trigger] dist@[c] == u32::MAX ==> !within(m, s, at(cells[c]), level as nat),
                    forall|i: int| 0 <= i < frontier@.len() ==> #[trigger] frontier@[i] < n && dist@[frontier@[i] as int] == level,
                    forall|c: int|
                        0 <= c < n && #[trigger] dist@[c] == level ==> exists|i: int|
                            0 <= i < frontier@.len() && #[trigger] frontier@[i] == c,
                    forall|k: int| 0 <= k < next_frontier@.len() ==> #[trigger] next_frontier@[k] < n && dist@[next_frontier@[k] as int] == next_level,
                    forall|c: int|
                        0 <= c < n && #[trigger] dist@[c] == next_level ==> exists|k: int|
                            0 <= k < next_frontier@.len() && #[trigger] next_frontier@[k] == c,
                    forall|i: int, a: int|
                        0 <= i < j && 0 <= a < 8 ==> covered(
                            cells,
                            dist@,
                            #[trigger] moved_to(m, cells[frontier@[i] as int].0 as int, cells[frontier@[i] as int].1 as int, a),
                        ),
                    unvisited(dist@) + next_frontier@.len() == start,
                    n - start >= level + 1,
                    start <= n,
                decreases frontier@.len() - j,
            {
                let f = frontier[j];
                let mut a: usize = 0;
                while a < ACTIONS
                    invariant
                        m == self.layout(),
                        cells == self.open_cells(),
                        well_laid(m),
                        lists_open_cells(m, cells),
                        m.len() == rows,
                        m[0].len() == width,
                        n == cells.len(),
                        n < u32::MAX,
                        goal < n,
                        s == at(cells[goal as int]),
                        open_at(m, s),
                        next_level == level + 1,
                        next_level < u32::MAX,
                        j < frontier@.len(),
                        f == frontier@[j as int],
                        f < n,
                        dist@[f as int] == level,
                        a <= 8,
                        dist@.len() == n,
                        dist@[goal as int] == 0,
                        forall|c: int|
                            0 <= c < n && #[trigger] dist@[c] != u32::MAX ==> dist@[c] <= next_level && exact(
                                m,
                                s,
                                at(cells[c]),
                                dist@[c],
                            ),
                        forall|c: int|
                            0 <= c < n && #[trigger] dist@[c] == u32::MAX ==> !within(m, s, at(cells[c]), level as nat),
                        forall|i: int|
                            0 <= i < frontier@.len() ==> #[trigger] frontier@[i] < n && dist@[frontier@[i] as int] == level,
                        forall|c: int|
                            0 <= c < n && #[trigger] dist@[c] == level ==> exists|i: int|
                                0 <= i < frontier@.len() && #[trigger] frontier@[i] == c,
                        forall|k: int|
                            0 <= k < next_frontier@.len() ==> #[trigger] next_frontier@[k] < n && dist@[next_frontier@[k] as int]
                                == next_level,
                        forall|c: int|
                            0 <= c < n && #[trigger] dist@[c] == next_level ==> exists|k: int|
                                0 <= k < next_frontier@.len() && #[trigger] next_frontier@[k] == c,
                        forall|i: int, b: int|
                            ((0 <= i < j && 0 <= b < 8) || (i == j && 0 <= b < a)) ==> covered(
                                cells,
                                dist@,
                                #[trigger] moved_to(m, cells[frontier@[i] as int].0 as int, cells[frontier@[i] as int].1 as int, b),
                            ),
                        unvisited(dist@) + next_frontier@.len() == start,
                        n - start >= level + 1,
                        start <= n,
                    decreases 8 - a,
                {
                    let target = self.next(f, a);
                    if dist[target] == u32::MAX {
                        proof {
                            let p = at(cells[f as int]);
                            let t = at(cells[target as int]);
                            assert(exact(m, s, p, level));
                            assert(step_between(m, p, t));
                            lemma_within_step(m, s, p, t, level as nat);
                            lemma_unvisited_update(dist@, target as int, next_level);
                            lemma_unvisited_bound(dist@.update(target as int, next_level));
                        }
                        let ghost before = dist@;
                        let ghost queued = next_frontier@;
                        dist.set(target, next_level);
                        next_frontier.push(target);
                        proof {
                            assert forall|i: int, b: int|
                                ((0 <= i < j && 0 <= b < 8) || (i == j && 0 <= b < a)) implies covered(
                                cells,
                                dist@,
                                #[trigger] moved_to(m, cells[frontier@[i] as int].0 as int, cells[frontier@[i] as int].1 as int, b),
                            ) by {
                                let t = moved_to(m, cells[frontier@[i] as int].0 as int, cells[frontier@[i] as int].1 as int, b);
                                assert(covered(cells, before, t));
                                assert forall|c: int| 0 <= c < cells.len() && at(cells[c]) == t implies #[trigger] dist@[c] != u32::MAX by {
                                    assert(before[c] != u32::MAX);
                                }
                            }
                            assert forall|c: int| 0 <= c < n && #[trigger] dist@[c] == next_level implies exists|k: int|
                                0 <= k < next_frontier@.len() && #[trigger] next_frontier@[k] == c by {
                                if c == target {
                                    assert(next_frontier@[next_frontier@.len() - 1] == c);
                                } else {
                                    assert(before[c] == next_level);
                                    let k = choose|k: int| 0 <= k < queued.len() && #[trigger] queued[k] == c;
                                    assert(next_frontier@[k] == queued[k]);
                                }
                            }
                            assert forall|c: int| 0 <= c < n && #[trigger] dist@[c] == level implies exists|i: int|
                                0 <= i < frontier@.len() && #[trigger] frontier@[i] == c by {
                                assert(before[c] == level);
                            }
                        }
                    }
                    proof {
                        let t = at(cells[target as int]);
                        assert(covered(cells, dist@, t)) by {
                            assert forall|c: int| 0 <= c < cells.len() && at(cells[c]) == t implies #[trigger] dist@[c] != u32::MAX by {
                                lemma_listed_unique(m, cells, c, target as int);
                            }
                        }
                    }
                    a += 1;
                }
                j += 1;
            }
            proof {
                assert forall|c: int| 0 <= c < n && #[trigger] dist@[c] == u32::MAX implies !within(
                    m,
                    s,
                    at(cells[c]),
                    next_level as nat,
                ) by {
                    let t = at(cells[c]);
                    if within(m, s, t, next_level as nat) {
                        let p = lemma_within_last_step(m, s, t, level as nat);
                        lemma_within_open(m, s, p, level as nat);
                        let q = lemma_open_listed(m, cells, p);
                        assert(dist@[q] != u32::MAX);
                        if dist@[q] < level {
                            lemma_within_step(m, s, p, t, dist@[q] as nat);
                            lemma_within_monotone(m, s, t, dist@[q] as nat + 1, level as nat);
                        } else if dist@[q] == next_level {
                            assert(!within(m, s, p, level as nat));
                        } else {
                            assert(dist@[q] == level);
                            let i = choose|i: int| 0 <= i < frontier@.len() && #[trigger] frontier@[i] == q;
                            let b = choose|b: int| 0 <= b < 8 && #[trigger] moved_to(m, p.0, p.1, b) == t;
                            assert(at(cells[frontier@[i] as int]) == p);
                            assert(covered(cells, dist@, moved_to(m, cells[frontier@[i] as int].0 as int, cells[frontier@[i] as int].1 as int, b)));
                            assert(dist@[c] != u32::MAX);
                        }
                    }
                }
            }
            frontier = next_frontier;
            level = next_level;
        }
        proof {
            assert(level >= 1) by {
                if level == 0 {
                    assert(dist@[goal as int] == level);
                }
            }
            assert forall|c: int| 0 <= c < n implies distance_is(m, s, at(cells[c]), #[trigger] dist@[c]) by {
                if dist@[c] == u32::MAX {
                    assert forall|k: nat| !#[trigger] within(m, s, at(cells[c]), k) by {
                        if within(m, s, at(cells[c]), k) {
                            assert forall|e: int| 0 <= e < cells.len() && #[trigger] dist@[e] != u32::MAX implies dist@[e]
                                < level by {
                                if dist@[e] == level {
                                    assert(exists|i: int| 0 <= i < frontier@.len() && #[trigger] frontier@[i] == e);
                                }
                            }
                            lemma_closed(m, cells, dist@, s, level as nat, at(cells[c]), k);
                        }
                    }
                }
            }
        }
        dist
    }
}


/// How the desired goal is shown to the agent: as the view at the goal
/// cell, or as the goal cell's row and column.
#[derive(Clone, Copy, PartialEq, Eq, Debug, Structural)]
pub enum GoalEncoding {
    Perception,
    Coordinates,
}

/// The name of an encoding.
pub open spec fn encoding_name(encoding: GoalEncoding) -> Seq<char> {
    match encoding {
        GoalEncoding::Perception => "perception"@,
        GoalEncoding::Coordinates => "coordinates"@,
    }
}

impl GoalEncoding {
    /// The encoding a name stands for; the name must be one of the two.
    pub fn parse(value: &str) -> (result: Self)
        requires
            value@ == "perception"@ || value@ == "coordinates"@,
        ensures
            encoding_name(result) == value@,
    {
        if same_text(value, "perception") {
            GoalEncoding::Perception
        } else {
            GoalEncoding::Coordinates
        }
    }

    /// The name of the encoding.
    pub fn label(self) -> (result: &'static str)
        ensures
            result@ == encoding_name(self),
    {
        match self {
            GoalEncoding::Perception => "perception",
            GoalEncoding::Coordinates => "coordinates",
        }
    }
}

/// A coordinate can be written as one digit-based symbol: its low byte
/// after `'0'` is still a byte.
pub open spec fn coordinate_fits(coordinate: int) -> bool {
    coordinate % 256 + 48 <= 255
}

/// The symbols of a goal cell under an encoding.
pub open spec fn goal_text(encoding: GoalEncoding, m: Seq<Seq<u8>>, cell: (int, int)) -> Seq<Symbol> {
    match encoding {
        GoalEncoding::Perception => perceived(m, cell.0, cell.1),
        GoalEncoding::Coordinates => seq![
            Symbol::Token((48 + cell.0 % 256) as u8),
            Symbol::Token((48 + cell.1 % 256) as u8),
        ],
    }
}

/// An encoding fits a goal width and a grid: eight symbols for a view, two
/// for coordinates that can be written.
pub open spec fn encoding_fits(encoding: GoalEncoding, g: nat, grid: Grid) -> bool {
    match encoding {
        GoalEncoding::Perception => g == STATE_LEN,
        GoalEncoding::Coordinates => g == 2 && forall|i: int|
            0 <= i < grid.open_cells().len() ==> coordinate_fits(#[trigger] grid.open_cells()[i].0 as int)
                && coordinate_fits(grid.open_cells()[i].1 as int),
    }
}

/// The symbols that show the goal cell `cell` of the grid.
pub fn goal_symbols<const G: usize>(grid: &Grid, encoding: GoalEncoding, index: usize) -> (result: [Symbol; G])
    requires
        index < grid.open_cells().len(),
        encoding_fits(encoding, G as nat, *grid),
    ensures
        result@ == goal_text(encoding, grid.layout(), at(grid.open_cells()[index as int])),
{
    let cell = grid.cell(index);
    match encoding {
        GoalEncoding::Perception => {
            let view = grid.perception(cell);
            let mut symbols = [Symbol::Wildcard;G];
            let mut k: usize = 0;
            while k < G
                invariant
                    G == STATE_LEN,
                    k <= G,
                    forall|i: int| 0 <= i < k ==> #[trigger] symbols@[i] == view@[i],
                decreases G - k,
            {
                symbols[k] = view[k];
                k += 1;
            }
            proof {
                assert(symbols@ =~= view@);
            }
            symbols
        },
        GoalEncoding::Coordinates => {
            proof {
                assert(coordinate_fits(grid.open_cells()[index as int].0 as int));
            }
            let row = Symbol::Token(48 + (cell.0 % 256) as u8);
            let col = Symbol::Token(48 + (cell.1 % 256) as u8);
            let mut symbols = [Symbol::Wildcard;G];
            symbols[0] = row;
            symbols[1] = col;
            proof {
                assert(symbols@ =~= goal_text(encoding, grid.layout(), at(cell)));
            }
            symbols
        },
    }
}

/// Whether two views are the same.
fn same_view(a: &[Symbol; STATE_LEN], b: &[Symbol; STATE_LEN]) -> (result: bool)
    ensures
        result == (a@ == b@),
{
    let mut k: usize = 0;
    while k < STATE_LEN
        invariant
            k <= STATE_LEN,
            forall|i: int| 0 <= i < k ==> a@[i] == b@[i],
        decreases STATE_LEN - k,
    {
        if a[k] != b[k] {
            return false;
        }
        k += 1;
    }
    proof {
        assert(a@ =~= b@);
    }
    true
}

/// The open cells at positions `i` and `j` look the same.
pub open spec fn look_alike(grid: Grid, i: int, j: int) -> bool {
    perceived(grid.layout(), grid.open_cells()[i].0 as int, grid.open_cells()[i].1 as int) == perceived(
        grid.layout(),
        grid.open_cells()[j].0 as int,
        grid.open_cells()[j].1 as int,
    )
}

/// Two open cells of the grid look the same.
pub open spec fn aliased(grid: Grid) -> bool {
    exists|i: int, j: int| 0 <= i < j < grid.open_cells().len() && #[trigger] look_alike(grid, i, j)
}

/// A maze task with goals: every open cell is a possible goal, and the
/// agent sees its view followed by the goal's symbols. The fewest moves
/// between every two cells are known, and goals are drawn from a pool.
pub struct GoalTask<const G: usize, const M: usize> {
    grid: Grid,
    states: Vec<[Symbol; STATE_LEN]>,
    goals: Vec<[Symbol; G]>,
    distances: Vec<Vec<u32>>,
    goal_pool: Vec<usize>,
}

impl<const G: usize, const M: usize> GoalTask<G, M> {
    #[verifier::type_invariant]
    spec fn consistent(self) -> bool {
        let cells = self.grid.open_cells();
        let n = cells.len();
        &&& n < u32::MAX
        &&& self.states@.len() == n
        &&& forall|i: int| 0 <= i < n ==> #[trigger] self.states@[i]@ == perceived(self.grid.layout(), cells[i].0 as int, cells[i].1 as int)
        &&& self.goals@.len() == n
        &&& self.distances@.len() == n
        &&& forall|g: int| 0 <= g < n ==> #[trigger] self.distances@[g]@.len() == n
        &&& forall|g: int, c: int|
            0 <= g < n && 0 <= c < n ==> distance_is(self.grid.layout(), at(cells[g]), at(cells[c]), #[trigger] self.distances@[g]@[c])
        &&& forall|k: int| 0 <= k < self.goal_pool@.len() ==> #[trigger] self.goal_pool@[k] < n
    }

    /// The grid of the task.
    pub closed spec fn grid_of(self) -> Grid {
        self.grid
    }

    /// The symbols of the goal at cell `i`.
    pub closed spec fn goal_of(self, i: int) -> Seq<Symbol> {
        self.goals@[i]@
    }

    /// The cells goals are drawn from.
    pub closed spec fn pool(self) -> Seq<usize> {
        self.goal_pool@
    }

    /// The task over a grid with goals shown in `encoding`; `None` when goals
    /// are shown as views and two cells look the same, so a view would not
    /// name one goal.
    pub fn new(grid: Grid, encoding: GoalEncoding) -> (result: Option<Self>)
        requires
            M == STATE_LEN + G,
            encoding_fits(encoding, G as nat, grid),
            grid.open_cells().len() < u32::MAX,
        ensures
            result is None <==> (encoding == GoalEncoding::Perception && aliased(grid)),
            result matches Some(task) ==> {
                &&& task.grid_of() == grid
                &&& forall|i: int|
                    0 <= i < grid.open_cells().len() ==> #[trigger] task.goal_of(i) == goal_text(
                        encoding,
                        grid.layout(),
                        at(grid.open_cells()[i]),
                    )
                &&& task.pool() == Seq::new(grid.open_cells().len(), |i: int| i as usize)
            },
    {
        let n = grid.cell_count();
        let mut states: Vec<[Symbol; STATE_LEN]> = Vec::new();
        let mut i: usize = 0;
        while i < n
            invariant
                n == grid.open_cells().len(),
                i <= n,
                states@.len() == i,
                forall|k: int|
                    0 <= k < i ==> #[trigger] states@[k]@ == perceived(
                        grid.layout(),
                        grid.open_cells()[k].0 as int,
                        grid.open_cells()[k].1 as int,
                    ),
            decreases n - i,
        {
            let cell = grid.cell(i);
            states.push(grid.perception(cell));
            i += 1;
        }
        if encoding == GoalEncoding::Perception {
            let mut a: usize = 0;
            while a < n
                invariant
                    encoding == GoalEncoding::Perception,
                    n == grid.open_cells().len(),
                    a <= n,
                    states@.len() == n,
                    forall|k: int|
                        0 <= k < n ==> #[trigger] states@[k]@ == perceived(
                            grid.layout(),
                            grid.open_cells()[k].0 as int,
                            grid.open_cells()[k].1 as int,
                        ),
                    forall|x: int, y: int| 0 <= x < a && x < y < n ==> #[trigger] states@[x]@ != #[trigger] states@[y]@,
                decreases n - a,
            {
                let mut b: usize = a + 1;
                while b < n
                    invariant
                        encoding == GoalEncoding::Perception,
                        n == grid.open_cells().len(),
                        a < n,
                        a + 1 <= b <= n,
                        states@.len() == n,
                        forall|k: int|
                            0 <= k < n ==> #[trigger] states@[k]@ == perceived(
                                grid.layout(),
                                grid.open_cells()[k].0 as int,
                                grid.open_cells()[k].1 as int,
                            ),
                        forall|x: int, y: int| 0 <= x < a && x < y < n ==> #[trigger] states@[x]@ != #[trigger] states@[y]@,
                        forall|y: int| a < y < b ==> states@[a as int]@ != #[trigger] states@[y]@,
                    decreases n - b,
                {
                    if same_view(&states[a], &states[b]) {
                        proof {
                            assert(states@[a as int]@ == states@[b as int]@);
                            assert(look_alike(grid, a as int, b as int));
                        }
                        return None;
                    }
                    b += 1;
                }
                a += 1;
            }
            proof {
                assert(!aliased(grid)) by {
                    if aliased(grid) {
                        let (x, y) = choose|x: int, y: int|
                            0 <= x < y < grid.open_cells().len() && #[trigger] look_alike(grid, x, y);
                        assert(states@[x]@ == states@[y]@);
                    }
                }
            }
        }
        let mut goals: Vec<[Symbol; G]> = Vec::new();
        let mut distances: Vec<Vec<u32>> = Vec::new();
        let mut goal_pool: Vec<usize> = Vec::new();
        let mut g: usize = 0;
        while g < n
            invariant
                n == grid.open_cells().len(),
                n < u32::MAX,
                encoding_fits(encoding, G as nat, grid),
                g <= n,
                goals@.len() == g,
                distances@.len() == g,
                goal_pool@ == Seq::new(g as nat, |k: int| k as usize),
                forall|k: int|
                    0 <= k < g ==> #[trigger] goals@[k]@ == goal_text(encoding, grid.layout(), at(grid.open_cells()[k])),
                forall|k: int| 0 <= k < g ==> #[trigger] distances@[k]@.len() == n,
                forall|k: int, c: int|
                    0 <= k < g && 0 <= c < n ==> distance_is(
                        grid.layout(),
                        at(grid.open_cells()[k]),
                        at(grid.open_cells()[c]),
                        #[trigger] distances@[k]@[c],
                    ),
            decreases n - g,
        {
            goals.push(goal_symbols::<G>(&grid, encoding, g));
            distances.push(grid.distances_from(g));
            goal_pool.push(g);
            proof {
                assert(goal_pool@ =~= Seq::new(g as nat + 1, |k: int| k as usize));
            }
            g += 1;
        }
        Some(GoalTask { grid, states, goals, distances, goal_pool })
    }

    /// The number of open cells.
    pub fn cell_count(&self) -> (result: usize)
        ensures
            result == self.grid_of().open_cells().len(),
    {
        self.grid.cell_count()
    }

    /// The grid of the task.
    pub fn grid(&self) -> (result: &Grid)
        ensures
            *result == self.grid_of(),
    {
        &self.grid
    }

    /// The cells goals are drawn from.
    pub fn goal_pool(&self) -> (result: &Vec<usize>)
        ensures
            result@ == self.pool(),
            forall|k: int| 0 <= k < result@.len() ==> #[trigger] result@[k] < self.grid_of().open_cells().len(),
    {
        proof {
            use_type_invariant(self);
        }
        &self.goal_pool
    }

    /// The symbols of the goal at cell `index`.
    pub fn goal(&self, index: usize) -> (result: [Symbol; G])
        requires
            index < self.grid_of().open_cells().len(),
        ensures
            result@ == self.goal_of(index as int),
    {
        proof {
            use_type_invariant(self);
        }
        self.goals[index]
    }

    /// The position of a cell in the list of open cells.
    pub fn index_of(&self, cell: (usize, usize)) -> (result: usize)
        requires
            exists|i: int| 0 <= i < self.grid_of().open_cells().len() && #[trigger] self.grid_of().open_cells()[i] == cell,
        ensures
            result < self.grid_of().open_cells().len(),
            self.grid_of().open_cells()[result as int] == cell,
    {
        self.grid.index_of(cell)
    }

    /// The cell a move from cell `cell` leads to.
    pub fn next(&self, cell: usize, action: usize) -> (result: usize)
        requires
            cell < self.grid_of().open_cells().len(),
            action < ACTIONS,
        ensures
            result < self.grid_of().open_cells().len(),
            at(self.grid_of().open_cells()[result as int]) == moved_to(
                self.grid_of().layout(),
                self.grid_of().open_cells()[cell as int].0 as int,
                self.grid_of().open_cells()[cell as int].1 as int,
                action as int,
            ),
    {
        self.grid.next(cell, action)
    }

    /// What the agent sees at cell `cell` while pursuing goal `goal`: the
    /// view there, then the goal's symbols.
    pub fn perception(&self, cell: usize, goal: usize) -> (result: Perception<M>)
        requires
            M == STATE_LEN + G,
            cell < self.grid_of().open_cells().len(),
            goal < self.grid_of().open_cells().len(),
        ensures
            result.symbols@ == perceived(
                self.grid_of().layout(),
                self.grid_of().open_cells()[cell as int].0 as int,
                self.grid_of().open_cells()[cell as int].1 as int,
            ) + self.goal_of(goal as int),
    {
        proof {
            use_type_invariant(self);
        }
        let state = &self.states[cell];
        let target = &self.goals[goal];
        let mut symbols = [Symbol::Wildcard;M];
        let mut k: usize = 0;
        while k < M
            invariant
                M == STATE_LEN + G,
                k <= M,
                forall|i: int| 0 <= i < k ==> #[trigger] symbols@[i] == (state@ + target@)[i],
            decreases M - k,
        {
            if k < STATE_LEN {
                symbols[k] = state[k];
            } else {
                symbols[k] = target[k - STATE_LEN];
            }
            k += 1;
        }
        proof {
            assert(symbols@ =~= state@ + target@);
        }
        Perception::new(symbols)
    }

    /// The fewest moves from goal cell `goal` to cell `cell`, `u32::MAX` when
    /// it cannot be reached.
    pub fn distance(&self, goal: usize, cell: usize) -> (result: u32)
        requires
            goal < self.grid_of().open_cells().len(),
            cell < self.grid_of().open_cells().len(),
        ensures
            distance_is(
                self.grid_of().layout(),
                at(self.grid_of().open_cells()[goal as int]),
                at(self.grid_of().open_cells()[cell as int]),
                result,
            ),
    {
        proof {
            use_type_invariant(self);
            assert(self.distances@[goal as int]@.len() == self.grid_of().open_cells().len());
        }
        self.distances[goal][cell]
    }

    /// Draws a goal from the pool: one draw below the pool's size picks
    /// its position in the pool.
    pub fn draw_goal<R: RandomSource>(&self, rng: &mut R) -> (result: usize)
        requires
            self.pool().len() > 0,
        ensures
            self.pool().contains(result),
            result < self.grid_of().open_cells().len(),
            final(rng).drawn() == old(rng).drawn().push(final(rng).drawn().last()),
            final(rng).drawn().last().0 == self.pool().len(),
            result == self.pool()[final(rng).drawn().last().1 as int],
    {
        proof {
            use_type_invariant(self);
        }
        let position = rng.gen_range(self.goal_pool.len());
        self.goal_pool[position]
    }

    /// Draws goals only from the cells that are not plain path: the reward
    /// cells. When the maze has none the pool is left as it is and `false`
    /// comes back.
    pub fn restrict_goals_to_reward_cells(&mut self) -> (result: bool)
        ensures
            final(self).grid_of() == old(self).grid_of(),
            forall|i: int| 0 <= i < old(self).grid_of().open_cells().len() ==> #[trigger] final(self).goal_of(i) == old(self).goal_of(i),
            result == exists|i: int|
                0 <= i < old(self).grid_of().open_cells().len() && reward_cell(old(self).grid_of(), i),
            result ==> {
                &&& forall|k: int| 0 <= k < final(self).pool().len() ==> reward_cell(old(self).grid_of(), #[trigger] final(self).pool()[k] as int)
                &&& forall|k: int, l: int| 0 <= k < l < final(self).pool().len() ==> #[trigger] final(self).pool()[k] < #[trigger] final(self).pool()[l]
                &&& forall|i: int|
                    0 <= i < old(self).grid_of().open_cells().len() && reward_cell(old(self).grid_of(), i) ==> #[trigger] final(self).pool().contains(i as usize)
            },
            !result ==> final(self).pool() == old(self).pool(),
    {
        proof {
            use_type_invariant(&*self);
            use_type_invariant(&self.grid);
        }
        let n = self.grid.cell_count();
        let mut pool: Vec<usize> = Vec::new();
        let mut i: usize = 0;
        while i < n
            invariant
                n == self.grid.open_cells().len(),
                i <= n,
                lists_open_cells(self.grid.layout(), self.grid.open_cells()),
                well_laid(self.grid.layout()),
                forall|k: int| 0 <= k < pool@.len() ==> #[trigger] pool@[k] < i && reward_cell(self.grid, pool@[k] as int),
                forall|k: int, l: int| 0 <= k < l < pool@.len() ==> #[trigger] pool@[k] < #[trigger] pool@[l],
                forall|c: int| 0 <= c < i && reward_cell(self.grid, c) ==> #[trigger] pool@.contains(c as usize),
            decreases n - i,
        {
            let cell = self.grid.cell(i);
            proof {
                self.grid.lemma_listed_open(i as int);
            }
            if self.grid.code_at(cell) != 0 {
                let ghost before = pool@;
                pool.push(i);
                proof {
                    assert forall|c: int| 0 <= c < i + 1 && reward_cell(self.grid, c) implies #[trigger] pool@.contains(c as usize) by {
                        if c == i {
                            assert(pool@[before.len() as int] == i);
                        } else {
                            assert(before.contains(c as usize));
                            let k = choose|k: int| 0 <= k < before.len() && before[k] == c as usize;
                            assert(pool@[k] == before[k]);
                        }
                    }
                }
            }
            i += 1;
        }
        if pool.len() == 0 {
            proof {
                if exists|c: int| 0 <= c < n && reward_cell(self.grid, c) {
                    let c = choose|c: int| 0 <= c < n && reward_cell(self.grid, c);
                    assert(pool@.contains(c as usize));
                }
            }
            return false;
        }
        proof {
            assert(reward_cell(self.grid, pool@[0] as int));
            assert(reward_cell(old(self).grid_of(), pool@[0] as int));
        }
        self.goal_pool = pool;
        true
    }
}

impl<const G: usize, const M: usize> GoalTask<G, M> {
    /// Draws goals only from the cells `chosen`, kept in increasing order,
    /// each once. When none is chosen or one is not a cell of the task, the
    /// pool is left as it is and `false` comes back.
    pub fn restrict_goals_to_cells(&mut self, chosen: &[usize]) -> (result: bool)
        ensures
            final(self).grid_of() == old(self).grid_of(),
            forall|i: int| 0 <= i < old(self).grid_of().open_cells().len() ==> #[trigger] final(self).goal_of(i) == old(self).goal_of(i),
            result == (chosen@.len() > 0 && forall|k: int|
                0 <= k < chosen@.len() ==> #[trigger] chosen@[k] < old(self).grid_of().open_cells().len()),
            result ==> {
                &&& forall|k: int, l: int| 0 <= k < l < final(self).pool().len() ==> #[trigger] final(self).pool()[k] < #[trigger] final(self).pool()[l]
                &&& forall|k: int| 0 <= k < chosen@.len() ==> #[trigger] final(self).pool().contains(chosen@[k])
                &&& forall|k: int| 0 <= k < final(self).pool().len() ==> #[trigger] chosen@.contains(final(self).pool()[k])
            },
            !result ==> final(self).pool() == old(self).pool(),
    {
        proof {
            use_type_invariant(&*self);
        }
        let n = self.grid.cell_count();
        if chosen.len() == 0 {
            return false;
        }
        let mut j: usize = 0;
        while j < chosen.len()
            invariant
                j <= chosen@.len(),
                n == old(self).grid_of().open_cells().len(),
                forall|k: int| 0 <= k < j ==> #[trigger] chosen@[k] < n,
            decreases chosen@.len() - j,
        {
            if chosen[j] >= n {
                assert(!(chosen@[j as int] < n));
                return false;
            }
            j += 1;
        }
        let mut pool: Vec<usize> = Vec::new();
        let mut j: usize = 0;
        while j < chosen.len()
            invariant
                j <= chosen@.len(),
                forall|k: int| 0 <= k < chosen@.len() ==> #[trigger] chosen@[k] < n,
                forall|k: int, l: int| 0 <= k < l < pool@.len() ==> #[trigger] pool@[k] < #[trigger] pool@[l],
                forall|k: int| 0 <= k < j ==> #[trigger] pool@.contains(chosen@[k]),
                forall|k: int| 0 <= k < pool@.len() ==> #[trigger] chosen@.contains(pool@[k]),
                forall|k: int| 0 <= k < pool@.len() ==> #[trigger] pool@[k] < n,
            decreases chosen@.len() - j,
        {
            let cell = chosen[j];
            let mut position: usize = 0;
            while position < pool.len() && pool[position] < cell
                invariant
                    position <= pool@.len(),
                    forall|k: int| 0 <= k < position ==> #[trigger] pool@[k] < cell,
                decreases pool@.len() - position,
            {
                position += 1;
            }
            if position < pool.len() && pool[position] == cell {
                proof {
                    assert(pool@.contains(chosen@[j as int]));
                }
            } else {
                let ghost before = pool@;
                pool.insert(position, cell);
                proof {
                    before.insert_ensures(position as int, cell);
                    assert forall|k: int, l: int| 0 <= k < l < pool@.len() implies #[trigger] pool@[k] < #[trigger] pool@[l] by {
                        if l < position {
                        } else if k < position && l == position {
                        } else if k < position {
                            assert(pool@[l] == before[l - 1]);
                        } else if k == position {
                            assert(pool@[l] == before[l - 1]);
                            assert(before[position as int] >= cell);
                            if l - 1 > position {
                                assert(before[position as int] < before[l - 1]);
                            }
                        } else {
                            assert(pool@[k] == before[k - 1]);
                            assert(pool@[l] == before[l - 1]);
                        }
                    }
                    assert forall|k: int| 0 <= k < j + 1 implies #[trigger] pool@.contains(chosen@[k]) by {
                        if k == j {
                            assert(pool@[position as int] == cell);
                        } else {
                            assert(before.contains(chosen@[k]));
                            let i = choose|i: int| 0 <= i < before.len() && before[i] == chosen@[k];
                            if i < position {
                                assert(pool@[i] == before[i]);
                            } else {
                                assert(pool@[i + 1] == before[i]);
                            }
                        }
                    }
                    assert forall|k: int| 0 <= k < pool@.len() implies #[trigger] chosen@.contains(pool@[k]) && pool@[k] < n by {
                        if k < position {
                            assert(pool@[k] == before[k]);
                        } else if k == position {
                            assert(chosen@[j as int] == cell);
                        } else {
                            assert(pool@[k] == before[k - 1]);
                        }
                    }
                }
            }
            j += 1;
        }
        self.goal_pool = pool;
        true
    }
}

/// The open cell at position `i` is not plain path.
pub open spec fn reward_cell(grid: Grid, i: int) -> bool {
    grid.layout()[grid.open_cells()[i].0 as int][grid.open_cells()[i].1 as int] != 0
}

impl Grid {
    /// The code of an open cell.
    pub fn code_at(&self, cell: (usize, usize)) -> (result: u8)
        requires
            interior(self.layout(), cell.0 as int, cell.1 as int),
        ensures
            result == self.layout()[cell.0 as int][cell.1 as int],
    {
        proof {
            use_type_invariant(self);
        }
        cell_at(&self.matrix, cell.0, cell.1)
    }
}

/// One episode of a goal task: its goal, the cells visited from the start
/// on, and the actions taken between them.
#[derive(Clone, Debug)]
pub struct Trajectory {
    pub goal: usize,
    pub cells: Vec<usize>,
    pub actions: Vec<usize>,
}

impl Trajectory {
    /// The episode ended on its goal.
    pub fn reached_goal(&self) -> (result: bool)
        ensures
            result == (self.cells@.len() > 0 && self.cells@.last() == self.goal),
    {
        self.cells.len() > 0 && self.cells[self.cells.len() - 1] == self.goal
    }
}

/// The reward for reaching the goal.
pub const GOAL_REWARD: u32 = 1000;

/// Step `step` of a trajectory, told as if `goal` had been the goal: it
/// pays and ends the episode when it lands on that goal, and ends it too
/// when the trajectory was cut off there.
pub fn relabeled_sample<const G: usize, const M: usize>(
    task: &GoalTask<G, M>,
    trajectory: &Trajectory,
    step: usize,
    goal: usize,
    truncated: bool,
) -> (result: ReplaySample<M, u32>)
    requires
        M == STATE_LEN + G,
        step < trajectory.actions@.len(),
        step + 1 < trajectory.cells@.len(),
        trajectory.cells@[step as int] < task.grid_of().open_cells().len(),
        trajectory.cells@[step + 1] < task.grid_of().open_cells().len(),
        goal < task.grid_of().open_cells().len(),
    ensures
        result.state.symbols@ == perceived(
            task.grid_of().layout(),
            task.grid_of().open_cells()[trajectory.cells@[step as int] as int].0 as int,
            task.grid_of().open_cells()[trajectory.cells@[step as int] as int].1 as int,
        ) + task.goal_of(goal as int),
        result.next_state.symbols@ == perceived(
            task.grid_of().layout(),
            task.grid_of().open_cells()[trajectory.cells@[step + 1] as int].0 as int,
            task.grid_of().open_cells()[trajectory.cells@[step + 1] as int].1 as int,
        ) + task.goal_of(goal as int),
        result.action == trajectory.actions@[step as int],
        result.reward == (if trajectory.cells@[step + 1] == goal { GOAL_REWARD } else { 0 }),
        result.done == (trajectory.cells@[step + 1] == goal || truncated),
{
    let length = trajectory.cells.len();
    let from = trajectory.cells[step];
    let to = trajectory.cells[step + 1];
    let reached = to == goal;
    ReplaySample {
        state: task.perception(from, goal),
        action: trajectory.actions[step],
        reward: if reached {
            GOAL_REWARD
        } else {
            0
        },
        next_state: task.perception(to, goal),
        done: reached || truncated,
    }
}

/// How many of the goal symbols of a classifier's condition are
/// specified.
pub fn specified_goal_positions<const M: usize, Q>(classifier: &Classifier<M, Q>) -> (result: usize)
    requires
        M >= STATE_LEN,
    ensures
        result == crate::condition::count_specific(classifier.condition.symbols@.skip(STATE_LEN as int)),
{
    let symbols = &classifier.condition.symbols;
    let ghost goal_part = symbols@.skip(STATE_LEN as int);
    let mut count: usize = 0;
    let mut k: usize = STATE_LEN;
    while k < M
        invariant
            M >= STATE_LEN,
            STATE_LEN <= k <= M,
            goal_part == symbols@.skip(STATE_LEN as int),
            count == crate::condition::count_specific(goal_part.take(k - STATE_LEN)),
            count <= k - STATE_LEN,
        decreases M - k,
    {
        proof {
            let part = goal_part.take(k - STATE_LEN + 1);
            assert(part.drop_last() =~= goal_part.take(k - STATE_LEN));
            assert(part.last() == symbols@[k as int]);
        }
        if !symbols[k].is_wildcard() {
            count += 1;
        }
        k += 1;
    }
    proof {
        assert(goal_part.take(M - STATE_LEN) =~= goal_part);
    }
    count
}


/// A move between open cells can be undone by the opposite move.
proof fn lemma_step_reversible(m: Seq<Seq<u8>>, p: (int, int), t: (int, int))
    requires
        well_laid(m),
        open_at(m, p),
        step_between(m, p, t),
    ensures
        step_between(m, t, p),
{
    let a = choose|a: int| 0 <= a < 8 && #[trigger] moved_to(m, p.0, p.1, a) == t;
    if t == p {
        assert(moved_to(m, t.0, t.1, a) == p);
    } else {
        let b = (a + 4) % 8;
        assert(crate::maze::row_step(b) == -crate::maze::row_step(a));
        assert(crate::maze::col_step(b) == -crate::maze::col_step(a));
        assert(moved_to(m, t.0, t.1, b) == p);
    }
}

/// What can be reached from an open cell can reach it back in as many
/// moves.
proof fn lemma_within_symmetric(m: Seq<Seq<u8>>, s: (int, int), t: (int, int), k: nat)
    requires
        well_laid(m),
        open_at(m, s),
        within(m, s, t, k),
    ensures
        within(m, t, s, k),
{
    let path = choose|path: Seq<(int, int)>| #[trigger] is_walk(m, path) && path[0] == s && path.last() == t && path.len() <= k + 1;
    let n = path.len();
    let back = Seq::new(n, |i: int| path[n - 1 - i]);
    assert forall|i: int, j: int| 0 <= i && j == i + 1 && j < back.len() implies step_between(
        m,
        #[trigger] back[i],
        #[trigger] back[j],
    ) by {
        let x = n - 1 - j;
        let y = n - 1 - i;
        assert(y == x + 1);
        assert(step_between(m, path[x], path[y]));
        lemma_walk_open(m, path, x);
        lemma_step_reversible(m, path[x], path[y]);
    }
    assert(is_walk(m, back));
    assert(back[0] == t);
    assert(back.last() == s);
}

/// Every move can be undone, so the fewest moves from one open cell to
/// another are the fewest moves back, and a cell that cannot be reached
/// cannot reach back.
pub proof fn lemma_distance_symmetric(m: Seq<Seq<u8>>, s: (int, int), t: (int, int), d: u32, e: u32)
    requires
        well_laid(m),
        open_at(m, s),
        open_at(m, t),
        distance_is(m, s, t, d),
        distance_is(m, t, s, e),
    ensures
        d == e,
{
    if d != u32::MAX {
        lemma_within_symmetric(m, s, t, d as nat);
    }
    if e != u32::MAX {
        lemma_within_symmetric(m, t, s, e as nat);
    }
    if d != u32::MAX && e != u32::MAX {
        if d < e {
            lemma_within_monotone(m, t, s, d as nat, (e - 1) as nat);
        } else if e < d {
            lemma_within_monotone(m, s, t, e as nat, (d - 1) as nat);
        }
    }
}


/// How many finished episodes a goal maze remembers.
pub const EVALUATED_TRAJECTORIES: usize = 100;

/// What a goal maze reports after a step: the new view, the reward, whether
/// the goal was reached, and whether the episode was cut off.
pub struct GoalMazeStep<const M: usize> {
    pub observation: Perception<M>,
    pub reward: u32,
    pub terminated: bool,
    pub truncated: bool,
}

/// A trajectory as plain values: goal, cells, actions.
pub open spec fn trajectory_view(trajectory: Trajectory) -> (usize, Seq<usize>, Seq<usize>) {
    (trajectory.goal, trajectory.cells@, trajectory.actions@)
}

/// A copy of a trajectory.
fn copy_trajectory(trajectory: &Trajectory) -> (result: Trajectory)
    ensures
        trajectory_view(result) == trajectory_view(*trajectory),
{
    let mut cells: Vec<usize> = Vec::new();
    let mut k: usize = 0;
    while k < trajectory.cells.len()
        invariant
            k <= trajectory.cells@.len(),
            cells@ == trajectory.cells@.take(k as int),
        decreases trajectory.cells@.len() - k,
    {
        cells.push(trajectory.cells[k]);
        proof {
            assert(trajectory.cells@.take(k as int + 1) =~= trajectory.cells@.take(k as int).push(trajectory.cells@[k as int]));
        }
        k += 1;
    }
    let mut actions: Vec<usize> = Vec::new();
    let mut k: usize = 0;
    while k < trajectory.actions.len()
        invariant
            k <= trajectory.actions@.len(),
            actions@ == trajectory.actions@.take(k as int),
        decreases trajectory.actions@.len() - k,
    {
        actions.push(trajectory.actions[k]);
        proof {
            assert(trajectory.actions@.take(k as int + 1) =~= trajectory.actions@.take(k as int).push(
                trajectory.actions@[k as int],
            ));
        }
        k += 1;
    }
    proof {
        assert(trajectory.cells@.take(trajectory.cells@.len() as int) =~= trajectory.cells@);
        assert(trajectory.actions@.take(trajectory.actions@.len() as int) =~= trajectory.actions@);
    }
    Trajectory { goal: trajectory.goal, cells, actions }
}

/// A goal task played as an environment: each episode draws a goal from the
/// pool and starts on another cell; reaching the goal pays and ends the
/// episode, and the episode is cut off after the maze's step limit. The
/// last finished episodes are kept.
pub struct GoalMazeEnv<'a, const G: usize, const M: usize, R> {
    task: &'a GoalTask<G, M>,
    rng: R,
    current: Trajectory,
    recent: Vec<Trajectory>,
    steps_taken: u64,
}

impl<'a, const G: usize, const M: usize, R> GoalMazeEnv<'a, G, M, R> {
    /// The task played.
    pub closed spec fn task_of(self) -> GoalTask<G, M> {
        *self.task
    }

    /// The task played.
    pub fn task(&self) -> (result: &'a GoalTask<G, M>)
        ensures
            *result == self.task_of(),
    {
        self.task
    }

    /// The episode under way.
    pub closed spec fn episode(self) -> (usize, Seq<usize>, Seq<usize>) {
        trajectory_view(self.current)
    }

    /// The finished episodes kept, oldest first.
    pub closed spec fn finished(self) -> Seq<(usize, Seq<usize>, Seq<usize>)> {
        self.recent@.map_values(|trajectory: Trajectory| trajectory_view(trajectory))
    }

    /// The steps taken over all episodes.
    pub closed spec fn steps(self) -> nat {
        self.steps_taken as nat
    }

    /// The source goals and starts are drawn from.
    pub closed spec fn source(self) -> R {
        self.rng
    }

    /// The episode's cells are cells of the task and it has a cell to stand
    /// on.
    pub closed spec fn in_task(self) -> bool {
        let n = self.task.grid_of().open_cells().len();
        &&& self.current.cells@.len() >= 1
        &&& self.current.goal < n
        &&& forall|k: int| 0 <= k < self.current.cells@.len() ==> #[trigger] self.current.cells@[k] < n
    }
}

impl<'a, const G: usize, const M: usize, R: RandomSource> GoalMazeEnv<'a, G, M, R> {
    /// A goal maze over `task`; before the first reset it stands on cell 0
    /// with goal 0.
    pub fn new(task: &'a GoalTask<G, M>, rng: R) -> (result: Self)
        requires
            task.grid_of().open_cells().len() >= 1,
        ensures
            result.task_of() == *task,
            result.episode() == (0usize, seq![0usize], Seq::<usize>::empty()),
            result.finished() == Seq::<(usize, Seq<usize>, Seq<usize>)>::empty(),
            result.steps() == 0,
            result.in_task(),
    {
        let result = GoalMazeEnv {
            task,
            rng,
            current: Trajectory { goal: 0, cells: vec![0], actions: Vec::new() },
            recent: Vec::new(),
            steps_taken: 0,
        };
        proof {
            assert(result.recent@.map_values(|trajectory: Trajectory| trajectory_view(trajectory)) =~= Seq::<
                (usize, Seq<usize>, Seq<usize>),
            >::empty());
            assert(result.current.cells@ =~= seq![0usize]);
            assert(result.current.actions@ =~= Seq::<usize>::empty());
        }
        result
    }

    /// The cell the agent stands on.
    pub fn cell(&self) -> (result: usize)
        requires
            self.in_task(),
        ensures
            result == self.episode().1.last(),
            result < self.task_of().grid_of().open_cells().len(),
    {
        self.current.cells[self.current.cells.len() - 1]
    }

    /// What the agent sees: the view where it stands and the episode's goal.
    pub fn observation(&self) -> (result: Perception<M>)
        requires
            self.in_task(),
            M == STATE_LEN + G,
        ensures
            result.symbols@ == perceived(
                self.task_of().grid_of().layout(),
                self.task_of().grid_of().open_cells()[self.episode().1.last() as int].0 as int,
                self.task_of().grid_of().open_cells()[self.episode().1.last() as int].1 as int,
            ) + self.task_of().goal_of(self.episode().0 as int),
    {
        let cell = self.cell();
        self.task.perception(cell, self.current.goal)
    }

    /// The goal of the episode under way.
    pub fn goal(&self) -> (result: usize)
        ensures
            result == self.episode().0,
    {
        self.current.goal
    }

    /// The steps taken over all episodes.
    pub fn steps_taken(&self) -> (result: u64)
        ensures
            result == self.steps(),
    {
        self.steps_taken
    }

    /// The finished episodes kept, oldest first.
    pub fn recent(&self) -> (result: &Vec<Trajectory>)
        ensures
            result@.map_values(|trajectory: Trajectory| trajectory_view(trajectory)) == self.finished(),
    {
        &self.recent
    }

    /// The last finished episode.
    pub fn last_trajectory(&self) -> (result: &Trajectory)
        requires
            self.finished().len() > 0,
        ensures
            trajectory_view(*result) == self.finished().last(),
    {
        &self.recent[self.recent.len() - 1]
    }

    /// Starts an episode: a goal drawn from the pool, and a start drawn
    /// uniformly from the other cells. Two draws are made: the goal's
    /// position in the pool, below the pool's size, then an offset below
    /// the number of other cells; the start is the cell that many cells and
    /// one more after the goal, counting round.
    pub fn reset(&mut self) -> (result: Perception<M>)
        requires
            M == STATE_LEN + G,
            old(self).task_of().pool().len() > 0,
            old(self).task_of().grid_of().open_cells().len() >= 2,
        ensures
            final(self).task_of() == old(self).task_of(),
            final(self).finished() == old(self).finished(),
            final(self).steps() == old(self).steps(),
            final(self).in_task(),
            old(self).task_of().pool().contains(final(self).episode().0),
            final(self).episode().1.len() == 1,
            final(self).episode().1[0] != final(self).episode().0,
            final(self).episode().2.len() == 0,
            result.symbols@ == perceived(
                final(self).task_of().grid_of().layout(),
                final(self).task_of().grid_of().open_cells()[final(self).episode().1[0] as int].0 as int,
                final(self).task_of().grid_of().open_cells()[final(self).episode().1[0] as int].1 as int,
            ) + final(self).task_of().goal_of(final(self).episode().0 as int),
            ({
                let before = old(self).source().drawn();
                let drawn = final(self).source().drawn();
                let n = old(self).task_of().grid_of().open_cells().len();
                let pick = drawn[before.len() as int];
                let offset = drawn[before.len() + 1int];
                &&& drawn.len() == before.len() + 2
                &&& drawn.take(before.len() as int) == before
                &&& pick.0 == old(self).task_of().pool().len()
                &&& final(self).episode().0 == old(self).task_of().pool()[pick.1 as int]
                &&& offset.0 == n - 1
                &&& final(self).episode().1[0] == (final(self).episode().0 + offset.1 + 1) % (n as int)
            }),
    {
        let ghost before = self.rng.drawn();
        let count = self.task.cell_count();
        let goal = self.task.draw_goal(&mut self.rng);
        let offset = self.rng.gen_range(count - 1);
        let shift = offset + 1;
        let start = if goal < count - shift {
            goal + shift
        } else {
            goal - (count - shift)
        };

        self.current = Trajectory { goal, cells: vec![start], actions: Vec::new() };
        proof {
            assert(self.current.cells@ =~= seq![start]);
            let drawn = self.rng.drawn();
            assert(drawn.take(before.len() as int) =~= before);
            assert(drawn[before.len() + 1int].1 == offset);
            if goal < count - shift {
                assert((goal + offset + 1) % (count as int) == start) by {
                    vstd::arithmetic::div_mod::lemma_small_mod((goal + shift) as nat, count as nat);
                }
            } else {
                assert((goal + offset + 1) % (count as int) == start) by {
                    vstd::arithmetic::div_mod::lemma_mod_add_multiples_vanish((goal + shift - count) as int, count as int);
                    vstd::arithmetic::div_mod::lemma_small_mod((goal + shift - count) as nat, count as nat);
                }
            }
        }
        self.observation()
    }

    /// Moves in `action`'s direction. Reaching the goal pays and ends the
    /// episode; otherwise the episode is cut off once its actions reach the
    /// step limit. An episode that ends is kept among the finished ones, of
    /// which the oldest is dropped beyond their number.
    pub fn step(&mut self, action: usize) -> (result: GoalMazeStep<M>)
        requires
            M == STATE_LEN + G,
            old(self).in_task(),
            action < ACTIONS,
        ensures
            final(self).task_of() == old(self).task_of(),
            final(self).in_task(),
            final(self).episode().0 == old(self).episode().0,
            final(self).episode().2 == old(self).episode().2.push(action),
            final(self).episode().1.drop_last() == old(self).episode().1,
            at(old(self).task_of().grid_of().open_cells()[final(self).episode().1.last() as int]) == moved_to(
                old(self).task_of().grid_of().layout(),
                old(self).task_of().grid_of().open_cells()[old(self).episode().1.last() as int].0 as int,
                old(self).task_of().grid_of().open_cells()[old(self).episode().1.last() as int].1 as int,
                action as int,
            ),
            final(self).steps() == (if old(self).steps() < u64::MAX { old(self).steps() + 1 } else { old(self).steps() }),
            result.terminated == (final(self).episode().1.last() == final(self).episode().0),
            result.truncated == (!result.terminated && (final(self).episode().2.len() as u32) >= old(
                self,
            ).task_of().grid_of().step_limit()),
            result.reward == (if result.terminated { GOAL_REWARD } else { 0 }),
            result.observation.symbols@ == perceived(
                final(self).task_of().grid_of().layout(),
                final(self).task_of().grid_of().open_cells()[final(self).episode().1.last() as int].0 as int,
                final(self).task_of().grid_of().open_cells()[final(self).episode().1.last() as int].1 as int,
            ) + final(self).task_of().goal_of(final(self).episode().0 as int),
            (result.terminated || result.truncated) ==> {
                let kept = old(self).finished().push(final(self).episode());
                final(self).finished() == if kept.len() > EVALUATED_TRAJECTORIES {
                    kept.drop_first()
                } else {
                    kept
                }
            },
            !(result.terminated || result.truncated) ==> final(self).finished() == old(self).finished(),
    {
        let here = self.cell();
        let next = self.task.next(here, action);
        let ghost cells_before = self.current.cells@;
        let ghost actions_before = self.current.actions@;
        let ghost finished_before = self.recent@.map_values(|trajectory: Trajectory| trajectory_view(trajectory));
        self.current.actions.push(action);
        self.current.cells.push(next);
        if self.steps_taken < u64::MAX {
            self.steps_taken = self.steps_taken + 1;
        }
        proof {
            assert(self.current.cells@.drop_last() =~= cells_before);
            let n = self.task.grid_of().open_cells().len();
            assert forall|k: int| 0 <= k < self.current.cells@.len() implies #[trigger] self.current.cells@[k] < n by {
                if k < cells_before.len() {
                    assert(self.current.cells@[k] == cells_before[k]);
                }
            }
        }
        let terminated = next == self.current.goal;
        let truncated = !terminated && self.current.actions.len() as u32 >= self.task.grid().step_limit_value();
        let observation = self.observation();
        if terminated || truncated {
            let kept = copy_trajectory(&self.current);
            self.recent.push(kept);
            if self.recent.len() > EVALUATED_TRAJECTORIES {
                let ghost before = self.recent@;
                self.recent.remove(0);
                proof {
                    assert(self.recent@ =~= before.drop_first());
                    assert(self.recent@.map_values(|trajectory: Trajectory| trajectory_view(trajectory)) =~= before.map_values(
                        |trajectory: Trajectory| trajectory_view(trajectory),
                    ).drop_first());
                }
            }
            proof {
                assert(finished_before.push(trajectory_view(self.current)).len() == self.recent@.len()
                    || finished_before.push(trajectory_view(self.current)).len() > EVALUATED_TRAJECTORIES);
            }
        }
        GoalMazeStep { observation, reward: if terminated { GOAL_REWARD } else { 0 }, terminated, truncated }
    }
}

impl Grid {
    /// The step limit of an episode.
    pub fn step_limit_value(&self) -> (result: u32)
        ensures
            result == self.step_limit(),
    {
        self.max_steps
    }
}

} // verus!
