use vstd::prelude::*;

use crate::text::same_text;

verus! {

/// A maze: its name, its cells row by row (1 a wall, 0 a path, 9 the
/// reward) and the number of steps after which an episode is cut off.
#[derive(Clone, Debug)]
pub struct MazeGeometry {
    pub id: &'static str,
    pub matrix: Vec<Vec<u8>>,
    pub max_episode_steps: u32,
}

/// The rows of a matrix.
pub open spec fn rows_of(matrix: Seq<Vec<u8>>) -> Seq<Seq<u8>> {
    Seq::new(matrix.len(), |i: int| matrix[i]@)
}

/// `geometry` is the known maze named `id`.
pub open spec fn is_geometry(geometry: MazeGeometry, id: Seq<char>) -> bool {
    (id == "Maze4-v0"@ && is_maze4(geometry))
        || (id == "Maze5-v0"@ && is_maze5(geometry))
        || (id == "Maze7-v0"@ && is_maze7(geometry))
        || (id == "Woods1-v0"@ && is_woods1(geometry))
        || (id == "Woods100-v0"@ && is_woods100(geometry))
}

/// A maze of that name is known.
pub open spec fn is_known_maze(id: Seq<char>) -> bool {
    id == "Maze4-v0"@
        || id == "Maze5-v0"@
        || id == "Maze7-v0"@
        || id == "Woods1-v0"@
        || id == "Woods100-v0"@
}

/// The layout of Maze4-v0.
pub open spec fn is_maze4(geometry: MazeGeometry) -> bool {
    &&& geometry.id@ == "Maze4-v0"@
    &&& geometry.max_episode_steps == 50
    &&& rows_of(geometry.matrix@) == seq![
        seq![1u8, 1, 1, 1, 1, 1, 1, 1],
        seq![1u8, 0, 0, 1, 0, 0, 9, 1],
        seq![1u8, 1, 0, 0, 1, 0, 0, 1],
        seq![1u8, 1, 0, 1, 0, 0, 1, 1],
        seq![1u8, 0, 0, 0, 0, 0, 0, 1],
        seq![1u8, 1, 0, 1, 0, 0, 0, 1],
        seq![1u8, 0, 0, 0, 0, 1, 0, 1],
        seq![1u8, 1, 1, 1, 1, 1, 1, 1],
    ]
}

fn maze4() -> (result: MazeGeometry)
    ensures
        is_maze4(result),
{
    let matrix: Vec<Vec<u8>> = vec![
        vec![1u8, 1, 1, 1, 1, 1, 1, 1],
        vec![1u8, 0, 0, 1, 0, 0, 9, 1],
        vec![1u8, 1, 0, 0, 1, 0, 0, 1],
        vec![1u8, 1, 0, 1, 0, 0, 1, 1],
        vec![1u8, 0, 0, 0, 0, 0, 0, 1],
        vec![1u8, 1, 0, 1, 0, 0, 0, 1],
        vec![1u8, 0, 0, 0, 0, 1, 0, 1],
        vec![1u8, 1, 1, 1, 1, 1, 1, 1],
    ];

    let result = MazeGeometry {
        id: "Maze4-v0",
        matrix,
        max_episode_steps: 50,
    };

    proof {
        assert(rows_of(result.matrix@) =~~= seq![
            seq![1u8, 1, 1, 1, 1, 1, 1, 1],
            seq![1u8, 0, 0, 1, 0, 0, 9, 1],
            seq![1u8, 1, 0, 0, 1, 0, 0, 1],
            seq![1u8, 1, 0, 1, 0, 0, 1, 1],
            seq![1u8, 0, 0, 0, 0, 0, 0, 1],
            seq![1u8, 1, 0, 1, 0, 0, 0, 1],
            seq![1u8, 0, 0, 0, 0, 1, 0, 1],
            seq![1u8, 1, 1, 1, 1, 1, 1, 1],
        ]);
    }
    result
}

/// The layout of Maze5-v0.
pub open spec fn is_maze5(geometry: MazeGeometry) -> bool {
    &&& geometry.id@ == "Maze5-v0"@
    &&& geometry.max_episode_steps == 50
    &&& rows_of(geometry.matrix@) == seq![
        seq![1u8, 1, 1, 1, 1, 1, 1, 1, 1],
        seq![1u8, 0, 0, 0, 0, 0, 0, 9, 1],
        seq![1u8, 0, 0, 1, 0, 1, 1, 0, 1],
        seq![1u8, 0, 1, 0, 0, 0, 0, 0, 1],
        seq![1u8, 0, 0, 0, 1, 1, 0, 0, 1],
        seq![1u8, 0, 1, 0, 1, 0, 0, 1, 1],
        seq![1u8, 0, 1, 0, 0, 1, 0, 0, 1],
        seq![1u8, 0, 0, 0, 0, 0, 1, 0, 1],
        seq![1u8, 1, 1, 1, 1, 1, 1, 1, 1],
    ]
}

fn maze5() -> (result: MazeGeometry)
    ensures
        is_maze5(result),
{
    let matrix: Vec<Vec<u8>> = vec![
        vec![1u8, 1, 1, 1, 1, 1, 1, 1, 1],
        vec![1u8, 0, 0, 0, 0, 0, 0, 9, 1],
        vec![1u8, 0, 0, 1, 0, 1, 1, 0, 1],
        vec![1u8, 0, 1, 0, 0, 0, 0, 0, 1],
        vec![1u8, 0, 0, 0, 1, 1, 0, 0, 1],
        vec![1u8, 0, 1, 0, 1, 0, 0, 1, 1],
        vec![1u8, 0, 1, 0, 0, 1, 0, 0, 1],
        vec![1u8, 0, 0, 0, 0, 0, 1, 0, 1],
        vec![1u8, 1, 1, 1, 1, 1, 1, 1, 1],
    ];

    let result = MazeGeometry {
        id: "Maze5-v0",
        matrix,
        max_episode_steps: 50,
    };

    proof {
        assert(rows_of(result.matrix@) =~~= seq![
            seq![1u8, 1, 1, 1, 1, 1, 1, 1, 1],
            seq![1u8, 0, 0, 0, 0, 0, 0, 9, 1],
            seq![1u8, 0, 0, 1, 0, 1, 1, 0, 1],
            seq![1u8, 0, 1, 0, 0, 0, 0, 0, 1],
            seq![1u8, 0, 0, 0, 1, 1, 0, 0, 1],
            seq![1u8, 0, 1, 0, 1, 0, 0, 1, 1],
            seq![1u8, 0, 1, 0, 0, 1, 0, 0, 1],
            seq![1u8, 0, 0, 0, 0, 0, 1, 0, 1],
            seq![1u8, 1, 1, 1, 1, 1, 1, 1, 1],
        ]);
    }
    result
}

/// The layout of Maze7-v0.
pub open spec fn is_maze7(geometry: MazeGeometry) -> bool {
    &&& geometry.id@ == "Maze7-v0"@
    &&& geometry.max_episode_steps == 50
    &&& rows_of(geometry.matrix@) == seq![
        seq![1u8, 1, 1, 1, 1, 1, 1, 1, 1],
        seq![1u8, 0, 0, 0, 0, 0, 1, 9, 1],
        seq![1u8, 0, 0, 1, 0, 1, 1, 0, 1],
        seq![1u8, 0, 1, 0, 0, 1, 0, 0, 1],
        seq![1u8, 0, 0, 0, 1, 1, 0, 0, 1],
        seq![1u8, 0, 1, 0, 1, 0, 0, 1, 1],
        seq![1u8, 0, 1, 0, 0, 0, 0, 0, 1],
        seq![1u8, 0, 0, 0, 0, 0, 1, 0, 1],
        seq![1u8, 1, 1, 1, 1, 1, 1, 1, 1],
    ]
}

fn maze7() -> (result: MazeGeometry)
    ensures
        is_maze7(result),
{
    let matrix: Vec<Vec<u8>> = vec![
        vec![1u8, 1, 1, 1, 1, 1, 1, 1, 1],
        vec![1u8, 0, 0, 0, 0, 0, 1, 9, 1],
        vec![1u8, 0, 0, 1, 0, 1, 1, 0, 1],
        vec![1u8, 0, 1, 0, 0, 1, 0, 0, 1],
        vec![1u8, 0, 0, 0, 1, 1, 0, 0, 1],
        vec![1u8, 0, 1, 0, 1, 0, 0, 1, 1],
        vec![1u8, 0, 1, 0, 0, 0, 0, 0, 1],
        vec![1u8, 0, 0, 0, 0, 0, 1, 0, 1],
        vec![1u8, 1, 1, 1, 1, 1, 1, 1, 1],
    ];

    let result = MazeGeometry {
        id: "Maze7-v0",
        matrix,
        max_episode_steps: 50,
    };

    proof {
        assert(rows_of(result.matrix@) =~~= seq![
            seq![1u8, 1, 1, 1, 1, 1, 1, 1, 1],
            seq![1u8, 0, 0, 0, 0, 0, 1, 9, 1],
            seq![1u8, 0, 0, 1, 0, 1, 1, 0, 1],
            seq![1u8, 0, 1, 0, 0, 1, 0, 0, 1],
            seq![1u8, 0, 0, 0, 1, 1, 0, 0, 1],
            seq![1u8, 0, 1, 0, 1, 0, 0, 1, 1],
            seq![1u8, 0, 1, 0, 0, 0, 0, 0, 1],
            seq![1u8, 0, 0, 0, 0, 0, 1, 0, 1],
            seq![1u8, 1, 1, 1, 1, 1, 1, 1, 1],
        ]);
    }
    result
}

/// The layout of Woods1-v0.
pub open spec fn is_woods1(geometry: MazeGeometry) -> bool {
    &&& geometry.id@ == "Woods1-v0"@
    &&& geometry.max_episode_steps == 50
    &&& rows_of(geometry.matrix@) == seq![
        seq![1u8, 1, 1, 1, 1],
        seq![1u8, 0, 0, 9, 1],
        seq![1u8, 0, 0, 0, 1],
        seq![1u8, 0, 0, 0, 1],
        seq![1u8, 1, 1, 1, 1],
    ]
}

fn woods1() -> (result: MazeGeometry)
    ensures
        is_woods1(result),
{
    let matrix: Vec<Vec<u8>> = vec![
        vec![1u8, 1, 1, 1, 1],
        vec![1u8, 0, 0, 9, 1],
        vec![1u8, 0, 0, 0, 1],
        vec![1u8, 0, 0, 0, 1],
        vec![1u8, 1, 1, 1, 1],
    ];

    let result = MazeGeometry {
        id: "Woods1-v0",
        matrix,
        max_episode_steps: 50,
    };

    proof {
        assert(rows_of(result.matrix@) =~~= seq![
            seq![1u8, 1, 1, 1, 1],
            seq![1u8, 0, 0, 9, 1],
            seq![1u8, 0, 0, 0, 1],
            seq![1u8, 0, 0, 0, 1],
            seq![1u8, 1, 1, 1, 1],
        ]);
    }
    result
}

/// The layout of Woods100-v0.
pub open spec fn is_woods100(geometry: MazeGeometry) -> bool {
    &&& geometry.id@ == "Woods100-v0"@
    &&& geometry.max_episode_steps == 500
    &&& rows_of(geometry.matrix@) == seq![
        seq![1u8, 1, 1, 1, 1, 1, 1, 1, 1],
        seq![1u8, 0, 0, 0, 9, 0, 0, 0, 1],
        seq![1u8, 1, 1, 1, 1, 1, 1, 1, 1],
    ]
}

fn woods100() -> (result: MazeGeometry)
    ensures
        is_woods100(result),
{
    let matrix: Vec<Vec<u8>> = vec![
        vec![1u8, 1, 1, 1, 1, 1, 1, 1, 1],
        vec![1u8, 0, 0, 0, 9, 0, 0, 0, 1],
        vec![1u8, 1, 1, 1, 1, 1, 1, 1, 1],
    ];

    let result = MazeGeometry {
        id: "Woods100-v0",
        matrix,
        max_episode_steps: 500,
    };

    proof {
        assert(rows_of(result.matrix@) =~~= seq![
            seq![1u8, 1, 1, 1, 1, 1, 1, 1, 1],
            seq![1u8, 0, 0, 0, 9, 0, 0, 0, 1],
            seq![1u8, 1, 1, 1, 1, 1, 1, 1, 1],
        ]);
    }
    result
}

/// The maze named `id`, among the five mazes of the benchmark.
pub fn geometry_by_id(id: &str) -> (result: Option<MazeGeometry>)
    ensures
        result is Some <==> is_known_maze(id@),
        result matches Some(geometry) ==> is_geometry(geometry, id@),
{
    if same_text(id, "Maze4-v0") {
        Some(maze4())
    } else if same_text(id, "Maze5-v0") {
        Some(maze5())
    } else if same_text(id, "Maze7-v0") {
        Some(maze7())
    } else if same_text(id, "Woods1-v0") {
        Some(woods1())
    } else if same_text(id, "Woods100-v0") {
        Some(woods100())
    } else {
        None
    }
}

/// The mazes of the benchmark, in order.
pub fn maze_geometries() -> (result: Vec<MazeGeometry>)
    ensures
        result@.len() == 5,
        is_maze4(result@[0]),
        is_maze5(result@[1]),
        is_maze7(result@[2]),
        is_woods1(result@[3]),
        is_woods100(result@[4]),
{
    let mut result: Vec<MazeGeometry> = Vec::new();

    result.push(maze4());
    result.push(maze5());
    result.push(maze7());
    result.push(woods1());
    result.push(woods100());
    result
}

} // verus!
