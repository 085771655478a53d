use vstd::prelude::*;

use crate::mazes::{rows_of, MazeGeometry};
use crate::perception::Perception;
use crate::rng::RandomSource;
use crate::symbol::Symbol;

verus! {

broadcast use vstd::array::group_array_axioms;

/// The agent sees the eight cells around it.
pub const MAZE_PERCEPTION_LEN: usize = 8;

/// The code of a wall cell.
pub const WALL: u8 = 1;

/// The code of a path cell.
pub const PATH: u8 = 0;

/// The code of the reward cell.
pub const GOAL: u8 = 9;

/// What reaching the reward cell pays.
pub const GOAL_REWARD: u32 = 1000;

/// The row offset of a direction; the eight directions run clockwise from
/// north.
pub open spec fn row_step(direction: int) -> int {
    if direction == 0 || direction == 1 || direction == 7 {
        -1
    } else if direction == 3 || direction == 4 || direction == 5 {
        1
    } else {
        0
    }
}

/// The column offset of a direction.
pub open spec fn col_step(direction: int) -> int {
    if direction == 1 || direction == 2 || direction == 3 {
        1
    } else if direction == 5 || direction == 6 || direction == 7 {
        -1
    } else {
        0
    }
}

/// A cell away from the border: all eight neighbours exist.
pub open spec fn interior(cells: Seq<Seq<u8>>, row: int, col: int) -> bool {
    1 <= row < cells.len() - 1 && 1 <= col < cells[0].len() - 1
}

/// A layout the environment can run: rectangular, at least three cells
/// each way, every cell a digit, and every cell that is not a wall away
/// from the border.
pub open spec fn well_laid(cells: Seq<Seq<u8>>) -> bool {
    &&& cells.len() >= 3
    &&& cells[0].len() >= 3
    &&& forall|r: int| 0 <= r < cells.len() ==> #[trigger] cells[r].len() == cells[0].len()
    &&& forall|r: int, c: int| 0 <= r < cells.len() && 0 <= c < cells[0].len() ==> #[trigger] cells[r][c] <= 9
    &&& forall|r: int, c: int|
        0 <= r < cells.len() && 0 <= c < cells[0].len() && #[trigger] cells[r][c] != WALL ==> interior(cells, r, c)
}

/// The layout has a path cell to start an episode on.
pub open spec fn has_path(cells: Seq<Seq<u8>>) -> bool {
    exists|r: int, c: int| 0 <= r < cells.len() && 0 <= c < cells[0].len() && #[trigger] cells[r][c] == PATH
}

/// What the agent sees at a cell: the digits of the eight cells around
/// it, clockwise from north.
pub open spec fn perceived(cells: Seq<Seq<u8>>, row: int, col: int) -> Seq<Symbol> {
    Seq::new(8, |d: int| Symbol::Token((48 + cells[row + row_step(d)][col + col_step(d)]) as u8))
}

/// The cell a move leads to from `(row, col)`: the neighbour in that
/// direction, unless it is a wall.
pub open spec fn moved_to(cells: Seq<Seq<u8>>, row: int, col: int, direction: int) -> (int, int) {
    let target = (row + row_step(direction), col + col_step(direction));
    if cells[target.0][target.1] == WALL {
        (row, col)
    } else {
        target
    }
}

/// What one step of a maze reports: the new view, the reward, whether the
/// reward cell was reached, and whether the episode was cut off.
pub struct MazeStep {
    pub observation: Perception<MAZE_PERCEPTION_LEN>,
    pub reward: u32,
    pub terminated: bool,
    pub truncated: bool,
}

/// A maze environment: an agent walks the cells of a layout in eight
/// directions, walls block, the reward cell ends the episode, and an
/// episode is cut off after a number of steps.
pub struct Maze<R> {
    layout: Layout,
    max_episode_steps: u32,
    elapsed_steps: u32,
    rng: R,
}

/// The cells and where the agent stands among them.
struct Layout {
    matrix: Vec<Vec<u8>>,
    agent_row: usize,
    agent_col: usize,
}

impl Layout {
    #[verifier::type_invariant]
    spec fn laid_out(self) -> bool {
        &&& well_laid(rows_of(self.matrix@))
        &&& interior(rows_of(self.matrix@), self.agent_row as int, self.agent_col as int)
    }
}

impl<R> Maze<R> {
    /// The layout, row by row.
    pub closed spec fn cells(self) -> Seq<Seq<u8>> {
        rows_of(self.layout.matrix@)
    }

    /// Where the agent stands: row and column.
    pub closed spec fn position(self) -> (int, int) {
        (self.layout.agent_row as int, self.layout.agent_col as int)
    }

    /// The steps taken since the last reset.
    pub closed spec fn elapsed(self) -> nat {
        self.elapsed_steps as nat
    }

    /// The number of steps after which an episode is cut off.
    pub closed spec fn cap(self) -> nat {
        self.max_episode_steps as nat
    }

    /// The source the start cells are drawn from.
    pub closed spec fn source(self) -> R {
        self.rng
    }
}

/// The path cells of `row` (row number `r`) before column `count`, left to
/// right.
pub open spec fn row_paths(row: Seq<u8>, r: usize, count: nat) -> Seq<(usize, usize)>
    decreases count,
{
    if count == 0 {
        Seq::empty()
    } else {
        let before = row_paths(row, r, (count - 1) as nat);
        if row[count - 1] == PATH {
            before.push((r, (count - 1) as usize))
        } else {
            before
        }
    }
}

/// The path cells of the first `count` rows, in reading order.
pub open spec fn paths_above(cells: Seq<Seq<u8>>, count: nat) -> Seq<(usize, usize)>
    decreases count,
{
    if count == 0 {
        Seq::empty()
    } else {
        paths_above(cells, (count - 1) as nat) + row_paths(
            cells[count - 1],
            (count - 1) as usize,
            cells[count - 1].len(),
        )
    }
}

/// Every path cell of the layout, in reading order.
pub open spec fn path_cells(cells: Seq<Seq<u8>>) -> Seq<(usize, usize)> {
    paths_above(cells, cells.len())
}

/// Whether a layout is one the environment can run.
pub fn is_well_laid(matrix: &Vec<Vec<u8>>) -> (result: bool)
    ensures
        result == well_laid(rows_of(matrix@)),
{
    let ghost cells = rows_of(matrix@);
    let rows = matrix.len();
    if rows < 3 {
        return false;
    }
    let width = matrix[0].len();
    if width < 3 {
        return false;
    }
    let mut r: usize = 0;
    while r < rows
        invariant
            cells == rows_of(matrix@),
            rows == cells.len(),
            width == cells[0].len(),
            rows >= 3,
            width >= 3,
            r <= rows,
            forall|i: int| 0 <= i < r ==> #[trigger] cells[i].len() == width,
            forall|i: int, c: int| 0 <= i < r && 0 <= c < width ==> #[trigger] cells[i][c] <= 9,
            forall|i: int, c: int|
                0 <= i < r && 0 <= c < width && #[trigger] cells[i][c] != WALL ==> interior(cells, i, c),
        decreases rows - r,
    {
        let row = &matrix[r];
        proof {
            assert(row@ == cells[r as int]);
        }
        if row.len() != width {
            return false;
        }
        let mut c: usize = 0;
        while c < width
            invariant
                cells == rows_of(matrix@),
                rows == cells.len(),
                width == cells[0].len(),
                rows >= 3,
                width >= 3,
                r < rows,
                row@ == cells[r as int],
                row@.len() == width,
                c <= width,
                forall|j: int| 0 <= j < c ==> #[trigger] cells[r as int][j] <= 9,
                forall|j: int| 0 <= j < c && #[trigger] cells[r as int][j] != WALL ==> interior(cells, r as int, j),
            decreases width - c,
        {
            let code = row[c];
            if code > 9 {
                return false;
            }
            if code != WALL && (r == 0 || r == rows - 1 || c == 0 || c == width - 1) {
                return false;
            }
            c += 1;
        }
        r += 1;
    }
    true
}

/// A copy of a layout.
pub fn copy_matrix(matrix: &Vec<Vec<u8>>) -> (result: Vec<Vec<u8>>)
    ensures
        rows_of(result@) == rows_of(matrix@),
{
    let mut copy: Vec<Vec<u8>> = Vec::new();
    let mut r: usize = 0;
    while r < matrix.len()
        invariant
            r <= matrix@.len(),
            copy@.len() == r,
            forall|i: int| 0 <= i < r ==> #[trigger] copy@[i]@ == matrix@[i]@,
        decreases matrix@.len() - r,
    {
        let row = &matrix[r];
        let mut cells: Vec<u8> = Vec::new();
        let mut c: usize = 0;
        while c < row.len()
            invariant
                c <= row@.len(),
                cells@ == row@.take(c as int),
            decreases row@.len() - c,
        {
            cells.push(row[c]);
            proof {
                assert(row@.take(c as int + 1) =~= row@.take(c as int).push(row@[c as int]));
            }
            c += 1;
        }
        proof {
            assert(row@.take(row@.len() as int) =~= row@);
        }
        copy.push(cells);
        r += 1;
    }
    proof {
        assert(rows_of(copy@) =~= rows_of(matrix@));
    }
    copy
}

/// What the agent sees at an inner cell of a layout.
pub fn perceive(matrix: &Vec<Vec<u8>>, row: usize, col: usize) -> (result: [Symbol; MAZE_PERCEPTION_LEN])
    requires
        well_laid(rows_of(matrix@)),
        interior(rows_of(matrix@), row as int, col as int),
    ensures
        result@ == perceived(rows_of(matrix@), row as int, col as int),
{
    let ghost cells = rows_of(matrix@);
    let rows = matrix.len();
    let width = matrix[row].len();
    proof {
        assert(cells[row - 1].len() == cells[0].len());
        assert(cells[row as int].len() == cells[0].len());
        assert(cells[row + 1].len() == cells[0].len());
        assert forall|r: int, c: int| row - 1 <= r <= row + 1 && col - 1 <= c <= col + 1 implies #[trigger] cells[r][c]
            <= 9 by {
            assert(cells[r].len() == cells[0].len());
        }
    }
    let north = &matrix[row - 1];
    let middle = &matrix[row];
    let south = &matrix[row + 1];
    let symbols = [
        Symbol::Token(48 + north[col]),
        Symbol::Token(48 + north[col + 1]),
        Symbol::Token(48 + middle[col + 1]),
        Symbol::Token(48 + south[col + 1]),
        Symbol::Token(48 + south[col]),
        Symbol::Token(48 + south[col - 1]),
        Symbol::Token(48 + middle[col - 1]),
        Symbol::Token(48 + north[col - 1]),
    ];
    proof {
        assert(symbols@ =~= perceived(cells, row as int, col as int));
    }
    symbols
}

/// The code of a cell.
pub fn cell_at(matrix: &Vec<Vec<u8>>, row: usize, col: usize) -> (result: u8)
    requires
        well_laid(rows_of(matrix@)),
        row < rows_of(matrix@).len(),
        col < rows_of(matrix@)[0].len(),
    ensures
        result == rows_of(matrix@)[row as int][col as int],
{
    proof {
        assert(rows_of(matrix@)[row as int].len() == rows_of(matrix@)[0].len());
    }
    matrix[row][col]
}

/// Where a move in direction `action` from an inner cell leads: the
/// neighbour, unless it is a wall. An inner cell is reached.
pub fn move_from(matrix: &Vec<Vec<u8>>, row: usize, col: usize, action: usize) -> (result: (usize, usize))
    requires
        well_laid(rows_of(matrix@)),
        interior(rows_of(matrix@), row as int, col as int),
        action < 8,
    ensures
        (result.0 as int, result.1 as int) == moved_to(rows_of(matrix@), row as int, col as int, action as int),
        interior(rows_of(matrix@), result.0 as int, result.1 as int),
{
    let ghost cells = rows_of(matrix@);
    let rows = matrix.len();
    let width = matrix[row].len();
    proof {
        assert(cells[row as int].len() == cells[0].len());
    }
    let target_row = if action == 0 || action == 1 || action == 7 {
        row - 1
    } else if action == 3 || action == 4 || action == 5 {
        row + 1
    } else {
        row
    };
    let target_col = if action == 1 || action == 2 || action == 3 {
        col + 1
    } else if action == 5 || action == 6 || action == 7 {
        col - 1
    } else {
        col
    };
    if cell_at(matrix, target_row, target_col) != WALL {
        (target_row, target_col)
    } else {
        (row, col)
    }
}

impl<R: RandomSource> Maze<R> {
    /// A maze over `matrix`, cut off after `max_episode_steps` steps. The
    /// agent stands at the first cell away from the corner until a reset
    /// or a placement puts it elsewhere.
    pub fn new(matrix: Vec<Vec<u8>>, max_episode_steps: u32, rng: R) -> (result: Self)
        requires
            well_laid(rows_of(matrix@)),
        ensures
            result.cells() == rows_of(matrix@),
            result.position() == (1int, 1int),
            result.elapsed() == 0,
            result.cap() == max_episode_steps,
    {
        Maze { layout: Layout { matrix, agent_row: 1, agent_col: 1 }, max_episode_steps, elapsed_steps: 0, rng }
    }

    /// A maze over a known layout.
    pub fn from_geometry(geometry: &MazeGeometry, rng: R) -> (result: Self)
        requires
            well_laid(rows_of(geometry.matrix@)),
        ensures
            result.cells() == rows_of(geometry.matrix@),
            result.position() == (1int, 1int),
            result.elapsed() == 0,
            result.cap() == geometry.max_episode_steps,
    {
        Self::new(copy_matrix(&geometry.matrix), geometry.max_episode_steps, rng)
    }

    /// Whether the layout has a path cell to start an episode on.
    pub fn has_path_cell(&self) -> (result: bool)
        ensures
            result == has_path(self.cells()),
    {
        proof {
            use_type_invariant(&self.layout);
        }
        let ghost cells = rows_of(self.layout.matrix@);
        let rows = self.layout.matrix.len();
        let width = self.layout.matrix[0].len();
        let mut r: usize = 0;
        while r < rows
            invariant
                cells == rows_of(self.layout.matrix@),
                well_laid(cells),
                rows == cells.len(),
                width == cells[0].len(),
                r <= rows,
                forall|i: int, c: int| 0 <= i < r && 0 <= c < width ==> #[trigger] cells[i][c] != PATH,
            decreases rows - r,
        {
            let row = &self.layout.matrix[r];
            proof {
                assert(cells[r as int].len() == width);
            }
            let mut c: usize = 0;
            while c < width
                invariant
                    cells == rows_of(self.layout.matrix@),
                    rows == cells.len(),
                    width == cells[0].len(),
                    r < rows,
                    row@ == cells[r as int],
                    row@.len() == width,
                    c <= width,
                    forall|i: int, j: int|
                        (0 <= i < r && 0 <= j < width) || (i == r && 0 <= j < c) ==> #[trigger] cells[i][j] != PATH,
                decreases width - c,
            {
                if row[c] == PATH {
                    return true;
                }
                c += 1;
            }
            r += 1;
        }
        false
    }

    /// Where the agent stands: row and column.
    pub fn agent_position(&self) -> (result: (usize, usize))
        ensures
            result.0 == self.position().0,
            result.1 == self.position().1,
    {
        (self.layout.agent_row, self.layout.agent_col)
    }

    /// What the agent sees where it stands.
    pub fn perception(&self) -> (result: Perception<MAZE_PERCEPTION_LEN>)
        ensures
            result.symbols@ == perceived(self.cells(), self.position().0, self.position().1),
    {
        proof {
            use_type_invariant(&self.layout);
        }
        Perception::new(perceive(&self.layout.matrix, self.layout.agent_row, self.layout.agent_col))
    }

    /// Puts the agent on a cell away from the border.
    pub fn place_agent(&mut self, row: usize, col: usize)
        requires
            interior(old(self).cells(), row as int, col as int),
        ensures
            final(self).position() == (row as int, col as int),
            final(self).cells() == old(self).cells(),
            final(self).elapsed() == old(self).elapsed(),
            final(self).cap() == old(self).cap(),
    {
        proof {
            use_type_invariant(&self.layout);
        }
        self.layout.agent_row = row;
        self.layout.agent_col = col;
    }

    /// Starts an episode: the step count is cleared and the agent is put
    /// on a path cell drawn uniformly from all of them, in reading order:
    /// one draw below the number of path cells picks it.
    pub fn reset(&mut self) -> (result: Perception<MAZE_PERCEPTION_LEN>)
        requires
            has_path(old(self).cells()),
        ensures
            final(self).cells() == old(self).cells(),
            final(self).cap() == old(self).cap(),
            final(self).elapsed() == 0,
            final(self).cells()[final(self).position().0][final(self).position().1] == PATH,
            result.symbols@ == perceived(final(self).cells(), final(self).position().0, final(self).position().1),
            ({
                let before = old(self).source().drawn();
                let drawn = final(self).source().drawn();
                let paths = path_cells(old(self).cells());
                let cell = paths[drawn.last().1 as int];
                &&& drawn == before.push(drawn.last())
                &&& drawn.last().0 == paths.len()
                &&& final(self).position() == (cell.0 as int, cell.1 as int)
            }),
    {
        proof {
            use_type_invariant(&self.layout);
        }
        let ghost cells = rows_of(self.layout.matrix@);
        let rows = self.layout.matrix.len();
        let width = self.layout.matrix[0].len();
        let mut paths: Vec<(usize, usize)> = Vec::new();
        let mut r: usize = 0;
        while r < rows
            invariant
                cells == rows_of(self.layout.matrix@),
                well_laid(cells),
                rows == cells.len(),
                width == cells[0].len(),
                r <= rows,
                paths@ == paths_above(cells, r as nat),
                forall|k: int|
                    0 <= k < paths@.len() ==> {
                        let (pr, pc) = #[trigger] paths@[k];
                        &&& pr < rows
                        &&& pc < width
                        &&& cells[pr as int][pc as int] == PATH
                    },
                paths@.len() == 0 ==> forall|i: int, c: int| 0 <= i < r && 0 <= c < width ==> #[trigger] cells[i][c] != PATH,
            decreases rows - r,
        {
            let row = &self.layout.matrix[r];
            proof {
                assert(cells[r as int].len() == width);
            }
            let mut c: usize = 0;
            while c < width
                invariant
                    cells == rows_of(self.layout.matrix@),
                    well_laid(cells),
                    rows == cells.len(),
                    width == cells[0].len(),
                    r < rows,
                    row@ == cells[r as int],
                    row@.len() == width,
                    c <= width,
                    paths@ == paths_above(cells, r as nat) + row_paths(row@, r, c as nat),
                    forall|k: int|
                        0 <= k < paths@.len() ==> {
                            let (pr, pc) = #[trigger] paths@[k];
                            &&& pr < rows
                            &&& pc < width
                            &&& cells[pr as int][pc as int] == PATH
                        },
                    paths@.len() == 0 ==> forall|i: int, j: int|
                        (0 <= i < r && 0 <= j < width) || (i == r && 0 <= j < c) ==> #[trigger] cells[i][j] != PATH,
                decreases width - c,
            {
                if row[c] == PATH {
                    paths.push((r, c));
                }
                c += 1;
            }
            r += 1;
        }
        if paths.len() == 0 {
            proof {
                let (pr, pc) = choose|pr: int, pc: int|
                    0 <= pr < cells.len() && 0 <= pc < cells[0].len() && #[trigger] cells[pr][pc] == PATH;
                assert(cells[pr][pc] != PATH);
            }
        }
        proof {
            assert(paths@ == path_cells(cells));
        }
        let chosen = self.rng.gen_range(paths.len());
        let (row, col) = paths[chosen];
        proof {
            assert(cells[row as int][col as int] == PATH);
            assert(cells[row as int][col as int] != WALL);
        }
        self.layout.agent_row = row;
        self.layout.agent_col = col;
        self.elapsed_steps = 0;
        self.perception()
    }

    /// Moves the agent one cell in `action`'s direction unless a wall is
    /// there. Reaching the reward cell pays and ends the episode; otherwise
    /// the episode is cut off once the steps since the reset reach the
    /// limit. A step that reaches the reward is never a cut-off one.
    pub fn step(&mut self, action: usize) -> (result: MazeStep)
        requires
            action < 8,
        ensures
            final(self).cells() == old(self).cells(),
            final(self).cap() == old(self).cap(),
            final(self).position() == moved_to(
                old(self).cells(),
                old(self).position().0,
                old(self).position().1,
                action as int,
            ),
            final(self).elapsed() == (if old(self).elapsed() < u32::MAX {
                old(self).elapsed() + 1
            } else {
                old(self).elapsed()
            }),
            result.terminated == (final(self).cells()[final(self).position().0][final(self).position().1] == GOAL),
            result.reward == (if result.terminated {
                GOAL_REWARD
            } else {
                0
            }),
            result.truncated == (!result.terminated && final(self).elapsed() >= final(self).cap()),
            result.observation.symbols@ == perceived(
                final(self).cells(),
                final(self).position().0,
                final(self).position().1,
            ),
    {
        proof {
            use_type_invariant(&self.layout);
        }
        let (row, col) = move_from(&self.layout.matrix, self.layout.agent_row, self.layout.agent_col, action);
        self.layout.agent_row = row;
        self.layout.agent_col = col;
        if self.elapsed_steps < u32::MAX {
            self.elapsed_steps = self.elapsed_steps + 1;
        }
        let terminated = cell_at(&self.layout.matrix, self.layout.agent_row, self.layout.agent_col) == GOAL;
        let truncated = !terminated && self.elapsed_steps >= self.max_episode_steps;
        let observation = self.perception();
        MazeStep { observation, reward: if terminated { GOAL_REWARD } else { 0 }, terminated, truncated }
    }
}

} // verus!
