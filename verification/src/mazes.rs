use vstd::prelude::*;

use crate::text::same_text;

verus! {

/// Where a maze layout comes from.
#[derive(Clone, Copy, Debug, PartialEq, Eq, Structural)]
pub enum MazeSource {
    Pyalcs,
    OunoldAlcs,
}

/// A maze: its name, its cells row by row (1 a wall, 0 a path, 9 the
/// reward) and the number of steps after which an episode is cut off;
/// and where the layout comes from.
#[derive(Clone, Debug)]
pub struct MazeGeometry {
    pub id: &'static str,
    pub matrix: Vec<Vec<u8>>,
    pub max_episode_steps: u32,
    pub source: MazeSource,
}

/// The rows of a matrix.
pub open spec fn rows_of(matrix: Seq<Vec<u8>>) -> Seq<Seq<u8>> {
    Seq::new(matrix.len(), |i: int| matrix[i]@)
}

/// `geometry` is the known maze named `id`.
pub open spec fn is_geometry(geometry: MazeGeometry, id: Seq<char>) -> bool {
    (id == "Maze4-v0"@ && is_maze4(geometry))
        || (id == "Maze5-v0"@ && is_maze5(geometry))
        || (id == "Maze7-v0"@ && is_maze7(geometry))
        || (id == "Woods1-v0"@ && is_woods1(geometry))
        || (id == "Woods100-v0"@ && is_woods100(geometry))
        || (id == "Cassandra4x4-ounold"@ && is_cassandra4x4_ounold(geometry))
        || (id == "Littman89-ounold"@ && is_littman89_ounold(geometry))
        || (id == "MazeE1-ounold"@ && is_mazee1_ounold(geometry))
        || (id == "MazeE2-ounold"@ && is_mazee2_ounold(geometry))
        || (id == "MazeF4-ounold"@ && is_mazef4_ounold(geometry))
        || (id == "MiyazakiA-ounold"@ && is_miyazakia_ounold(geometry))
        || (id == "Woods1-ounold"@ && is_woods1_ounold(geometry))
        || (id == "Woods102-ounold"@ && is_woods102_ounold(geometry))
}

/// A maze of that name is known.
pub open spec fn is_known_maze(id: Seq<char>) -> bool {
    id == "Maze4-v0"@
        || id == "Maze5-v0"@
        || id == "Maze7-v0"@
        || id == "Woods1-v0"@
        || id == "Woods100-v0"@
        || id == "Cassandra4x4-ounold"@
        || id == "Littman89-ounold"@
        || id == "MazeE1-ounold"@
        || id == "MazeE2-ounold"@
        || id == "MazeF4-ounold"@
        || id == "MiyazakiA-ounold"@
        || id == "Woods1-ounold"@
        || id == "Woods102-ounold"@
}

/// The layout of Maze4-v0.
pub open spec fn is_maze4(geometry: MazeGeometry) -> bool {
    &&& geometry.id@ == "Maze4-v0"@
    &&& geometry.max_episode_steps == 50
    &&& geometry.source == MazeSource::Pyalcs
    &&& rows_of(geometry.matrix@) == seq![
        seq![1u8, 1, 1, 1, 1, 1, 1, 1],
        seq![1u8, 0, 0, 1, 0, 0, 9, 1],
        seq![1u8, 1, 0, 0, 1, 0, 0, 1],
        seq![1u8, 1, 0, 1, 0, 0, 1, 1],
        seq![1u8, 0, 0, 0, 0, 0, 0, 1],
        seq![1u8, 1, 0, 1, 0, 0, 0, 1],
        seq![1u8, 0, 0, 0, 0, 1, 0, 1],
        seq![1u8, 1, 1, 1, 1, 1, 1, 1],
    ]
}

fn maze4() -> (result: MazeGeometry)
    ensures
        is_maze4(result),
{
    let matrix: Vec<Vec<u8>> = vec![
        vec![1u8, 1, 1, 1, 1, 1, 1, 1],
        vec![1u8, 0, 0, 1, 0, 0, 9, 1],
        vec![1u8, 1, 0, 0, 1, 0, 0, 1],
        vec![1u8, 1, 0, 1, 0, 0, 1, 1],
        vec![1u8, 0, 0, 0, 0, 0, 0, 1],
        vec![1u8, 1, 0, 1, 0, 0, 0, 1],
        vec![1u8, 0, 0, 0, 0, 1, 0, 1],
        vec![1u8, 1, 1, 1, 1, 1, 1, 1],
    ];

    let result = MazeGeometry {
        id: "Maze4-v0",
        matrix,
        max_episode_steps: 50,
        source: MazeSource::Pyalcs,
    };

    proof {
        assert(rows_of(result.matrix@) =~~= seq![
            seq![1u8, 1, 1, 1, 1, 1, 1, 1],
            seq![1u8, 0, 0, 1, 0, 0, 9, 1],
            seq![1u8, 1, 0, 0, 1, 0, 0, 1],
            seq![1u8, 1, 0, 1, 0, 0, 1, 1],
            seq![1u8, 0, 0, 0, 0, 0, 0, 1],
            seq![1u8, 1, 0, 1, 0, 0, 0, 1],
            seq![1u8, 0, 0, 0, 0, 1, 0, 1],
            seq![1u8, 1, 1, 1, 1, 1, 1, 1],
        ]);
    }
    result
}

/// The layout of Maze5-v0.
pub open spec fn is_maze5(geometry: MazeGeometry) -> bool {
    &&& geometry.id@ == "Maze5-v0"@
    &&& geometry.max_episode_steps == 50
    &&& geometry.source == MazeSource::Pyalcs
    &&& rows_of(geometry.matrix@) == seq![
        seq![1u8, 1, 1, 1, 1, 1, 1, 1, 1],
        seq![1u8, 0, 0, 0, 0, 0, 0, 9, 1],
        seq![1u8, 0, 0, 1, 0, 1, 1, 0, 1],
        seq![1u8, 0, 1, 0, 0, 0, 0, 0, 1],
        seq![1u8, 0, 0, 0, 1, 1, 0, 0, 1],
        seq![1u8, 0, 1, 0, 1, 0, 0, 1, 1],
        seq![1u8, 0, 1, 0, 0, 1, 0, 0, 1],
        seq![1u8, 0, 0, 0, 0, 0, 1, 0, 1],
        seq![1u8, 1, 1, 1, 1, 1, 1, 1, 1],
    ]
}

fn maze5() -> (result: MazeGeometry)
    ensures
        is_maze5(result),
{
    let matrix: Vec<Vec<u8>> = vec![
        vec![1u8, 1, 1, 1, 1, 1, 1, 1, 1],
        vec![1u8, 0, 0, 0, 0, 0, 0, 9, 1],
        vec![1u8, 0, 0, 1, 0, 1, 1, 0, 1],
        vec![1u8, 0, 1, 0, 0, 0, 0, 0, 1],
        vec![1u8, 0, 0, 0, 1, 1, 0, 0, 1],
        vec![1u8, 0, 1, 0, 1, 0, 0, 1, 1],
        vec![1u8, 0, 1, 0, 0, 1, 0, 0, 1],
        vec![1u8, 0, 0, 0, 0, 0, 1, 0, 1],
        vec![1u8, 1, 1, 1, 1, 1, 1, 1, 1],
    ];

    let result = MazeGeometry {
        id: "Maze5-v0",
        matrix,
        max_episode_steps: 50,
        source: MazeSource::Pyalcs,
    };

    proof {
        assert(rows_of(result.matrix@) =~~= seq![
            seq![1u8, 1, 1, 1, 1, 1, 1, 1, 1],
            seq![1u8, 0, 0, 0, 0, 0, 0, 9, 1],
            seq![1u8, 0, 0, 1, 0, 1, 1, 0, 1],
            seq![1u8, 0, 1, 0, 0, 0, 0, 0, 1],
            seq![1u8, 0, 0, 0, 1, 1, 0, 0, 1],
            seq![1u8, 0, 1, 0, 1, 0, 0, 1, 1],
            seq![1u8, 0, 1, 0, 0, 1, 0, 0, 1],
            seq![1u8, 0, 0, 0, 0, 0, 1, 0, 1],
            seq![1u8, 1, 1, 1, 1, 1, 1, 1, 1],
        ]);
    }
    result
}

/// The layout of Maze7-v0.
pub open spec fn is_maze7(geometry: MazeGeometry) -> bool {
    &&& geometry.id@ == "Maze7-v0"@
    &&& geometry.max_episode_steps == 50
    &&& geometry.source == MazeSource::Pyalcs
    &&& rows_of(geometry.matrix@) == seq![
        seq![1u8, 1, 1, 1, 1, 1, 1, 1, 1],
        seq![1u8, 0, 0, 0, 0, 0, 1, 9, 1],
        seq![1u8, 0, 0, 1, 0, 1, 1, 0, 1],
        seq![1u8, 0, 1, 0, 0, 1, 0, 0, 1],
        seq![1u8, 0, 0, 0, 1, 1, 0, 0, 1],
        seq![1u8, 0, 1, 0, 1, 0, 0, 1, 1],
        seq![1u8, 0, 1, 0, 0, 0, 0, 0, 1],
        seq![1u8, 0, 0, 0, 0, 0, 1, 0, 1],
        seq![1u8, 1, 1, 1, 1, 1, 1, 1, 1],
    ]
}

fn maze7() -> (result: MazeGeometry)
    ensures
        is_maze7(result),
{
    let matrix: Vec<Vec<u8>> = vec![
        vec![1u8, 1, 1, 1, 1, 1, 1, 1, 1],
        vec![1u8, 0, 0, 0, 0, 0, 1, 9, 1],
        vec![1u8, 0, 0, 1, 0, 1, 1, 0, 1],
        vec![1u8, 0, 1, 0, 0, 1, 0, 0, 1],
        vec![1u8, 0, 0, 0, 1, 1, 0, 0, 1],
        vec![1u8, 0, 1, 0, 1, 0, 0, 1, 1],
        vec![1u8, 0, 1, 0, 0, 0, 0, 0, 1],
        vec![1u8, 0, 0, 0, 0, 0, 1, 0, 1],
        vec![1u8, 1, 1, 1, 1, 1, 1, 1, 1],
    ];

    let result = MazeGeometry {
        id: "Maze7-v0",
        matrix,
        max_episode_steps: 50,
        source: MazeSource::Pyalcs,
    };

    proof {
        assert(rows_of(result.matrix@) =~~= seq![
            seq![1u8, 1, 1, 1, 1, 1, 1, 1, 1],
            seq![1u8, 0, 0, 0, 0, 0, 1, 9, 1],
            seq![1u8, 0, 0, 1, 0, 1, 1, 0, 1],
            seq![1u8, 0, 1, 0, 0, 1, 0, 0, 1],
            seq![1u8, 0, 0, 0, 1, 1, 0, 0, 1],
            seq![1u8, 0, 1, 0, 1, 0, 0, 1, 1],
            seq![1u8, 0, 1, 0, 0, 0, 0, 0, 1],
            seq![1u8, 0, 0, 0, 0, 0, 1, 0, 1],
            seq![1u8, 1, 1, 1, 1, 1, 1, 1, 1],
        ]);
    }
    result
}

/// The layout of Woods1-v0.
pub open spec fn is_woods1(geometry: MazeGeometry) -> bool {
    &&& geometry.id@ == "Woods1-v0"@
    &&& geometry.max_episode_steps == 50
    &&& geometry.source == MazeSource::Pyalcs
    &&& rows_of(geometry.matrix@) == seq![
        seq![1u8, 1, 1, 1, 1],
        seq![1u8, 0, 0, 9, 1],
        seq![1u8, 0, 0, 0, 1],
        seq![1u8, 0, 0, 0, 1],
        seq![1u8, 1, 1, 1, 1],
    ]
}

fn woods1() -> (result: MazeGeometry)
    ensures
        is_woods1(result),
{
    let matrix: Vec<Vec<u8>> = vec![
        vec![1u8, 1, 1, 1, 1],
        vec![1u8, 0, 0, 9, 1],
        vec![1u8, 0, 0, 0, 1],
        vec![1u8, 0, 0, 0, 1],
        vec![1u8, 1, 1, 1, 1],
    ];

    let result = MazeGeometry {
        id: "Woods1-v0",
        matrix,
        max_episode_steps: 50,
        source: MazeSource::Pyalcs,
    };

    proof {
        assert(rows_of(result.matrix@) =~~= seq![
            seq![1u8, 1, 1, 1, 1],
            seq![1u8, 0, 0, 9, 1],
            seq![1u8, 0, 0, 0, 1],
            seq![1u8, 0, 0, 0, 1],
            seq![1u8, 1, 1, 1, 1],
        ]);
    }
    result
}

/// The layout of Woods100-v0.
pub open spec fn is_woods100(geometry: MazeGeometry) -> bool {
    &&& geometry.id@ == "Woods100-v0"@
    &&& geometry.max_episode_steps == 500
    &&& geometry.source == MazeSource::Pyalcs
    &&& rows_of(geometry.matrix@) == seq![
        seq![1u8, 1, 1, 1, 1, 1, 1, 1, 1],
        seq![1u8, 0, 0, 0, 9, 0, 0, 0, 1],
        seq![1u8, 1, 1, 1, 1, 1, 1, 1, 1],
    ]
}

fn woods100() -> (result: MazeGeometry)
    ensures
        is_woods100(result),
{
    let matrix: Vec<Vec<u8>> = vec![
        vec![1u8, 1, 1, 1, 1, 1, 1, 1, 1],
        vec![1u8, 0, 0, 0, 9, 0, 0, 0, 1],
        vec![1u8, 1, 1, 1, 1, 1, 1, 1, 1],
    ];

    let result = MazeGeometry {
        id: "Woods100-v0",
        matrix,
        max_episode_steps: 500,
        source: MazeSource::Pyalcs,
    };

    proof {
        assert(rows_of(result.matrix@) =~~= seq![
            seq![1u8, 1, 1, 1, 1, 1, 1, 1, 1],
            seq![1u8, 0, 0, 0, 9, 0, 0, 0, 1],
            seq![1u8, 1, 1, 1, 1, 1, 1, 1, 1],
        ]);
    }
    result
}

/// The layout of Cassandra4x4-ounold.
pub open spec fn is_cassandra4x4_ounold(geometry: MazeGeometry) -> bool {
    &&& geometry.id@ == "Cassandra4x4-ounold"@
    &&& geometry.max_episode_steps == 200
    &&& geometry.source == MazeSource::OunoldAlcs
    &&& rows_of(geometry.matrix@) == seq![
        seq![1u8, 1, 1, 1, 1, 1],
        seq![1u8, 0, 0, 0, 0, 1],
        seq![1u8, 0, 0, 0, 0, 1],
        seq![1u8, 0, 0, 0, 0, 1],
        seq![1u8, 0, 0, 0, 9, 1],
        seq![1u8, 1, 1, 1, 1, 1],
    ]
}

fn cassandra4x4_ounold() -> (result: MazeGeometry)
    ensures
        is_cassandra4x4_ounold(result),
{
    let matrix: Vec<Vec<u8>> = vec![
        vec![1u8, 1, 1, 1, 1, 1],
        vec![1u8, 0, 0, 0, 0, 1],
        vec![1u8, 0, 0, 0, 0, 1],
        vec![1u8, 0, 0, 0, 0, 1],
        vec![1u8, 0, 0, 0, 9, 1],
        vec![1u8, 1, 1, 1, 1, 1],
    ];

    let result = MazeGeometry {
        id: "Cassandra4x4-ounold",
        matrix,
        max_episode_steps: 200,
        source: MazeSource::OunoldAlcs,
    };

    proof {
        assert(rows_of(result.matrix@) =~~= seq![
            seq![1u8, 1, 1, 1, 1, 1],
            seq![1u8, 0, 0, 0, 0, 1],
            seq![1u8, 0, 0, 0, 0, 1],
            seq![1u8, 0, 0, 0, 0, 1],
            seq![1u8, 0, 0, 0, 9, 1],
            seq![1u8, 1, 1, 1, 1, 1],
        ]);
    }
    result
}

/// The layout of Littman89-ounold.
pub open spec fn is_littman89_ounold(geometry: MazeGeometry) -> bool {
    &&& geometry.id@ == "Littman89-ounold"@
    &&& geometry.max_episode_steps == 200
    &&& geometry.source == MazeSource::OunoldAlcs
    &&& rows_of(geometry.matrix@) == seq![
        seq![1u8, 1, 1, 1, 1, 1, 1, 1, 1],
        seq![1u8, 1, 0, 0, 0, 0, 0, 1, 1],
        seq![1u8, 0, 0, 1, 0, 1, 0, 0, 1],
        seq![1u8, 1, 0, 1, 0, 1, 0, 1, 1],
        seq![1u8, 0, 0, 1, 0, 1, 0, 9, 1],
        seq![1u8, 1, 0, 0, 0, 0, 0, 1, 1],
        seq![1u8, 1, 1, 1, 1, 1, 1, 1, 1],
    ]
}

fn littman89_ounold() -> (result: MazeGeometry)
    ensures
        is_littman89_ounold(result),
{
    let matrix: Vec<Vec<u8>> = vec![
        vec![1u8, 1, 1, 1, 1, 1, 1, 1, 1],
        vec![1u8, 1, 0, 0, 0, 0, 0, 1, 1],
        vec![1u8, 0, 0, 1, 0, 1, 0, 0, 1],
        vec![1u8, 1, 0, 1, 0, 1, 0, 1, 1],
        vec![1u8, 0, 0, 1, 0, 1, 0, 9, 1],
        vec![1u8, 1, 0, 0, 0, 0, 0, 1, 1],
        vec![1u8, 1, 1, 1, 1, 1, 1, 1, 1],
    ];

    let result = MazeGeometry {
        id: "Littman89-ounold",
        matrix,
        max_episode_steps: 200,
        source: MazeSource::OunoldAlcs,
    };

    proof {
        assert(rows_of(result.matrix@) =~~= seq![
            seq![1u8, 1, 1, 1, 1, 1, 1, 1, 1],
            seq![1u8, 1, 0, 0, 0, 0, 0, 1, 1],
            seq![1u8, 0, 0, 1, 0, 1, 0, 0, 1],
            seq![1u8, 1, 0, 1, 0, 1, 0, 1, 1],
            seq![1u8, 0, 0, 1, 0, 1, 0, 9, 1],
            seq![1u8, 1, 0, 0, 0, 0, 0, 1, 1],
            seq![1u8, 1, 1, 1, 1, 1, 1, 1, 1],
        ]);
    }
    result
}

/// The layout of MazeE1-ounold.
pub open spec fn is_mazee1_ounold(geometry: MazeGeometry) -> bool {
    &&& geometry.id@ == "MazeE1-ounold"@
    &&& geometry.max_episode_steps == 200
    &&& geometry.source == MazeSource::OunoldAlcs
    &&& rows_of(geometry.matrix@) == seq![
        seq![1u8, 1, 1, 1, 1, 1, 1, 1, 1],
        seq![1u8, 0, 0, 0, 0, 0, 0, 0, 1],
        seq![1u8, 0, 1, 0, 0, 0, 1, 0, 1],
        seq![1u8, 0, 0, 0, 0, 0, 0, 0, 1],
        seq![1u8, 0, 0, 0, 9, 0, 0, 0, 1],
        seq![1u8, 0, 0, 0, 0, 0, 0, 0, 1],
        seq![1u8, 0, 1, 0, 0, 0, 1, 0, 1],
        seq![1u8, 0, 0, 0, 0, 0, 0, 0, 1],
        seq![1u8, 1, 1, 1, 1, 1, 1, 1, 1],
    ]
}

fn mazee1_ounold() -> (result: MazeGeometry)
    ensures
        is_mazee1_ounold(result),
{
    let matrix: Vec<Vec<u8>> = vec![
        vec![1u8, 1, 1, 1, 1, 1, 1, 1, 1],
        vec![1u8, 0, 0, 0, 0, 0, 0, 0, 1],
        vec![1u8, 0, 1, 0, 0, 0, 1, 0, 1],
        vec![1u8, 0, 0, 0, 0, 0, 0, 0, 1],
        vec![1u8, 0, 0, 0, 9, 0, 0, 0, 1],
        vec![1u8, 0, 0, 0, 0, 0, 0, 0, 1],
        vec![1u8, 0, 1, 0, 0, 0, 1, 0, 1],
        vec![1u8, 0, 0, 0, 0, 0, 0, 0, 1],
        vec![1u8, 1, 1, 1, 1, 1, 1, 1, 1],
    ];

    let result = MazeGeometry {
        id: "MazeE1-ounold",
        matrix,
        max_episode_steps: 200,
        source: MazeSource::OunoldAlcs,
    };

    proof {
        assert(rows_of(result.matrix@) =~~= seq![
            seq![1u8, 1, 1, 1, 1, 1, 1, 1, 1],
            seq![1u8, 0, 0, 0, 0, 0, 0, 0, 1],
            seq![1u8, 0, 1, 0, 0, 0, 1, 0, 1],
            seq![1u8, 0, 0, 0, 0, 0, 0, 0, 1],
            seq![1u8, 0, 0, 0, 9, 0, 0, 0, 1],
            seq![1u8, 0, 0, 0, 0, 0, 0, 0, 1],
            seq![1u8, 0, 1, 0, 0, 0, 1, 0, 1],
            seq![1u8, 0, 0, 0, 0, 0, 0, 0, 1],
            seq![1u8, 1, 1, 1, 1, 1, 1, 1, 1],
        ]);
    }
    result
}

/// The layout of MazeE2-ounold.
pub open spec fn is_mazee2_ounold(geometry: MazeGeometry) -> bool {
    &&& geometry.id@ == "MazeE2-ounold"@
    &&& geometry.max_episode_steps == 200
    &&& geometry.source == MazeSource::OunoldAlcs
    &&& rows_of(geometry.matrix@) == seq![
        seq![1u8, 1, 1, 1, 1, 1, 1, 1, 1],
        seq![1u8, 0, 0, 0, 0, 0, 0, 0, 1],
        seq![1u8, 0, 0, 0, 0, 0, 0, 0, 1],
        seq![1u8, 0, 0, 0, 0, 0, 0, 0, 1],
        seq![1u8, 0, 0, 0, 9, 0, 0, 0, 1],
        seq![1u8, 0, 0, 0, 0, 0, 0, 0, 1],
        seq![1u8, 0, 0, 0, 0, 0, 0, 0, 1],
        seq![1u8, 0, 0, 0, 0, 0, 0, 0, 1],
        seq![1u8, 1, 1, 1, 1, 1, 1, 1, 1],
    ]
}

fn mazee2_ounold() -> (result: MazeGeometry)
    ensures
        is_mazee2_ounold(result),
{
    let matrix: Vec<Vec<u8>> = vec![
        vec![1u8, 1, 1, 1, 1, 1, 1, 1, 1],
        vec![1u8, 0, 0, 0, 0, 0, 0, 0, 1],
        vec![1u8, 0, 0, 0, 0, 0, 0, 0, 1],
        vec![1u8, 0, 0, 0, 0, 0, 0, 0, 1],
        vec![1u8, 0, 0, 0, 9, 0, 0, 0, 1],
        vec![1u8, 0, 0, 0, 0, 0, 0, 0, 1],
        vec![1u8, 0, 0, 0, 0, 0, 0, 0, 1],
        vec![1u8, 0, 0, 0, 0, 0, 0, 0, 1],
        vec![1u8, 1, 1, 1, 1, 1, 1, 1, 1],
    ];

    let result = MazeGeometry {
        id: "MazeE2-ounold",
        matrix,
        max_episode_steps: 200,
        source: MazeSource::OunoldAlcs,
    };

    proof {
        assert(rows_of(result.matrix@) =~~= seq![
            seq![1u8, 1, 1, 1, 1, 1, 1, 1, 1],
            seq![1u8, 0, 0, 0, 0, 0, 0, 0, 1],
            seq![1u8, 0, 0, 0, 0, 0, 0, 0, 1],
            seq![1u8, 0, 0, 0, 0, 0, 0, 0, 1],
            seq![1u8, 0, 0, 0, 9, 0, 0, 0, 1],
            seq![1u8, 0, 0, 0, 0, 0, 0, 0, 1],
            seq![1u8, 0, 0, 0, 0, 0, 0, 0, 1],
            seq![1u8, 0, 0, 0, 0, 0, 0, 0, 1],
            seq![1u8, 1, 1, 1, 1, 1, 1, 1, 1],
        ]);
    }
    result
}

/// The layout of MazeF4-ounold.
pub open spec fn is_mazef4_ounold(geometry: MazeGeometry) -> bool {
    &&& geometry.id@ == "MazeF4-ounold"@
    &&& geometry.max_episode_steps == 200
    &&& geometry.source == MazeSource::OunoldAlcs
    &&& rows_of(geometry.matrix@) == seq![
        seq![1u8, 1, 1, 1, 1, 1, 1],
        seq![1u8, 0, 0, 0, 0, 9, 1],
        seq![1u8, 0, 1, 1, 1, 1, 1],
        seq![1u8, 0, 0, 0, 0, 1, 1],
        seq![1u8, 0, 1, 1, 1, 1, 1],
        seq![1u8, 1, 1, 1, 1, 1, 1],
    ]
}

fn mazef4_ounold() -> (result: MazeGeometry)
    ensures
        is_mazef4_ounold(result),
{
    let matrix: Vec<Vec<u8>> = vec![
        vec![1u8, 1, 1, 1, 1, 1, 1],
        vec![1u8, 0, 0, 0, 0, 9, 1],
        vec![1u8, 0, 1, 1, 1, 1, 1],
        vec![1u8, 0, 0, 0, 0, 1, 1],
        vec![1u8, 0, 1, 1, 1, 1, 1],
        vec![1u8, 1, 1, 1, 1, 1, 1],
    ];

    let result = MazeGeometry {
        id: "MazeF4-ounold",
        matrix,
        max_episode_steps: 200,
        source: MazeSource::OunoldAlcs,
    };

    proof {
        assert(rows_of(result.matrix@) =~~= seq![
            seq![1u8, 1, 1, 1, 1, 1, 1],
            seq![1u8, 0, 0, 0, 0, 9, 1],
            seq![1u8, 0, 1, 1, 1, 1, 1],
            seq![1u8, 0, 0, 0, 0, 1, 1],
            seq![1u8, 0, 1, 1, 1, 1, 1],
            seq![1u8, 1, 1, 1, 1, 1, 1],
        ]);
    }
    result
}

/// The layout of MiyazakiA-ounold.
pub open spec fn is_miyazakia_ounold(geometry: MazeGeometry) -> bool {
    &&& geometry.id@ == "MiyazakiA-ounold"@
    &&& geometry.max_episode_steps == 200
    &&& geometry.source == MazeSource::OunoldAlcs
    &&& rows_of(geometry.matrix@) == seq![
        seq![1u8, 1, 1, 1, 1, 1, 1, 1],
        seq![1u8, 0, 0, 1, 0, 1, 1, 1],
        seq![1u8, 0, 0, 0, 0, 0, 0, 1],
        seq![1u8, 1, 0, 0, 0, 1, 0, 1],
        seq![1u8, 0, 0, 0, 0, 0, 0, 1],
        seq![1u8, 0, 0, 1, 0, 0, 0, 1],
        seq![1u8, 0, 0, 9, 0, 0, 0, 1],
        seq![1u8, 1, 1, 1, 1, 1, 1, 1],
    ]
}

fn miyazakia_ounold() -> (result: MazeGeometry)
    ensures
        is_miyazakia_ounold(result),
{
    let matrix: Vec<Vec<u8>> = vec![
        vec![1u8, 1, 1, 1, 1, 1, 1, 1],
        vec![1u8, 0, 0, 1, 0, 1, 1, 1],
        vec![1u8, 0, 0, 0, 0, 0, 0, 1],
        vec![1u8, 1, 0, 0, 0, 1, 0, 1],
        vec![1u8, 0, 0, 0, 0, 0, 0, 1],
        vec![1u8, 0, 0, 1, 0, 0, 0, 1],
        vec![1u8, 0, 0, 9, 0, 0, 0, 1],
        vec![1u8, 1, 1, 1, 1, 1, 1, 1],
    ];

    let result = MazeGeometry {
        id: "MiyazakiA-ounold",
        matrix,
        max_episode_steps: 200,
        source: MazeSource::OunoldAlcs,
    };

    proof {
        assert(rows_of(result.matrix@) =~~= seq![
            seq![1u8, 1, 1, 1, 1, 1, 1, 1],
            seq![1u8, 0, 0, 1, 0, 1, 1, 1],
            seq![1u8, 0, 0, 0, 0, 0, 0, 1],
            seq![1u8, 1, 0, 0, 0, 1, 0, 1],
            seq![1u8, 0, 0, 0, 0, 0, 0, 1],
            seq![1u8, 0, 0, 1, 0, 0, 0, 1],
            seq![1u8, 0, 0, 9, 0, 0, 0, 1],
            seq![1u8, 1, 1, 1, 1, 1, 1, 1],
        ]);
    }
    result
}

/// The layout of Woods1-ounold.
pub open spec fn is_woods1_ounold(geometry: MazeGeometry) -> bool {
    &&& geometry.id@ == "Woods1-ounold"@
    &&& geometry.max_episode_steps == 200
    &&& geometry.source == MazeSource::OunoldAlcs
    &&& rows_of(geometry.matrix@) == seq![
        seq![1u8, 1, 1, 1, 1, 1, 1],
        seq![1u8, 0, 0, 0, 0, 0, 1],
        seq![1u8, 0, 0, 0, 0, 0, 1],
        seq![1u8, 1, 1, 9, 0, 0, 1],
        seq![1u8, 1, 1, 1, 0, 0, 1],
        seq![1u8, 1, 1, 1, 0, 0, 1],
        seq![1u8, 1, 1, 1, 1, 1, 1],
    ]
}

fn woods1_ounold() -> (result: MazeGeometry)
    ensures
        is_woods1_ounold(result),
{
    let matrix: Vec<Vec<u8>> = vec![
        vec![1u8, 1, 1, 1, 1, 1, 1],
        vec![1u8, 0, 0, 0, 0, 0, 1],
        vec![1u8, 0, 0, 0, 0, 0, 1],
        vec![1u8, 1, 1, 9, 0, 0, 1],
        vec![1u8, 1, 1, 1, 0, 0, 1],
        vec![1u8, 1, 1, 1, 0, 0, 1],
        vec![1u8, 1, 1, 1, 1, 1, 1],
    ];

    let result = MazeGeometry {
        id: "Woods1-ounold",
        matrix,
        max_episode_steps: 200,
        source: MazeSource::OunoldAlcs,
    };

    proof {
        assert(rows_of(result.matrix@) =~~= seq![
            seq![1u8, 1, 1, 1, 1, 1, 1],
            seq![1u8, 0, 0, 0, 0, 0, 1],
            seq![1u8, 0, 0, 0, 0, 0, 1],
            seq![1u8, 1, 1, 9, 0, 0, 1],
            seq![1u8, 1, 1, 1, 0, 0, 1],
            seq![1u8, 1, 1, 1, 0, 0, 1],
            seq![1u8, 1, 1, 1, 1, 1, 1],
        ]);
    }
    result
}

/// The layout of Woods102-ounold.
pub open spec fn is_woods102_ounold(geometry: MazeGeometry) -> bool {
    &&& geometry.id@ == "Woods102-ounold"@
    &&& geometry.max_episode_steps == 200
    &&& geometry.source == MazeSource::OunoldAlcs
    &&& rows_of(geometry.matrix@) == seq![
        seq![1u8, 1, 1, 1, 1, 1, 1],
        seq![1u8, 0, 1, 9, 1, 0, 1],
        seq![1u8, 0, 1, 0, 1, 0, 1],
        seq![1u8, 0, 0, 0, 0, 0, 1],
        seq![1u8, 0, 1, 0, 1, 0, 1],
        seq![1u8, 1, 1, 1, 1, 1, 1],
        seq![1u8, 0, 1, 0, 1, 0, 1],
        seq![1u8, 0, 0, 0, 0, 0, 1],
        seq![1u8, 0, 1, 0, 1, 0, 1],
        seq![1u8, 0, 1, 0, 1, 0, 1],
        seq![1u8, 1, 1, 1, 1, 1, 1],
    ]
}

fn woods102_ounold() -> (result: MazeGeometry)
    ensures
        is_woods102_ounold(result),
{
    let matrix: Vec<Vec<u8>> = vec![
        vec![1u8, 1, 1, 1, 1, 1, 1],
        vec![1u8, 0, 1, 9, 1, 0, 1],
        vec![1u8, 0, 1, 0, 1, 0, 1],
        vec![1u8, 0, 0, 0, 0, 0, 1],
        vec![1u8, 0, 1, 0, 1, 0, 1],
        vec![1u8, 1, 1, 1, 1, 1, 1],
        vec![1u8, 0, 1, 0, 1, 0, 1],
        vec![1u8, 0, 0, 0, 0, 0, 1],
        vec![1u8, 0, 1, 0, 1, 0, 1],
        vec![1u8, 0, 1, 0, 1, 0, 1],
        vec![1u8, 1, 1, 1, 1, 1, 1],
    ];

    let result = MazeGeometry {
        id: "Woods102-ounold",
        matrix,
        max_episode_steps: 200,
        source: MazeSource::OunoldAlcs,
    };

    proof {
        assert(rows_of(result.matrix@) =~~= seq![
            seq![1u8, 1, 1, 1, 1, 1, 1],
            seq![1u8, 0, 1, 9, 1, 0, 1],
            seq![1u8, 0, 1, 0, 1, 0, 1],
            seq![1u8, 0, 0, 0, 0, 0, 1],
            seq![1u8, 0, 1, 0, 1, 0, 1],
            seq![1u8, 1, 1, 1, 1, 1, 1],
            seq![1u8, 0, 1, 0, 1, 0, 1],
            seq![1u8, 0, 0, 0, 0, 0, 1],
            seq![1u8, 0, 1, 0, 1, 0, 1],
            seq![1u8, 0, 1, 0, 1, 0, 1],
            seq![1u8, 1, 1, 1, 1, 1, 1],
        ]);
    }
    result
}

/// The maze named `id`, among the canonical mazes and then those of the other collection.
pub fn geometry_by_id(id: &str) -> (result: Option<MazeGeometry>)
    ensures
        result is Some <==> is_known_maze(id@),
        result matches Some(geometry) ==> is_geometry(geometry, id@),
{
    if same_text(id, "Maze4-v0") {
        Some(maze4())
    } else if same_text(id, "Maze5-v0") {
        Some(maze5())
    } else if same_text(id, "Maze7-v0") {
        Some(maze7())
    } else if same_text(id, "Woods1-v0") {
        Some(woods1())
    } else if same_text(id, "Woods100-v0") {
        Some(woods100())
    } else if same_text(id, "Cassandra4x4-ounold") {
        Some(cassandra4x4_ounold())
    } else if same_text(id, "Littman89-ounold") {
        Some(littman89_ounold())
    } else if same_text(id, "MazeE1-ounold") {
        Some(mazee1_ounold())
    } else if same_text(id, "MazeE2-ounold") {
        Some(mazee2_ounold())
    } else if same_text(id, "MazeF4-ounold") {
        Some(mazef4_ounold())
    } else if same_text(id, "MiyazakiA-ounold") {
        Some(miyazakia_ounold())
    } else if same_text(id, "Woods1-ounold") {
        Some(woods1_ounold())
    } else if same_text(id, "Woods102-ounold") {
        Some(woods102_ounold())
    } else {
        None
    }
}

/// The canonical mazes, in order.
pub fn canonical_geometries() -> (result: Vec<MazeGeometry>)
    ensures
        result@.len() == 5,
        is_maze4(result@[0]),
        is_maze5(result@[1]),
        is_maze7(result@[2]),
        is_woods1(result@[3]),
        is_woods100(result@[4]),
{
    let mut result: Vec<MazeGeometry> = Vec::new();

    result.push(maze4());
    result.push(maze5());
    result.push(maze7());
    result.push(woods1());
    result.push(woods100());
    result
}

/// The mazes of the other collection, in order.
pub fn unold_geometries() -> (result: Vec<MazeGeometry>)
    ensures
        result@.len() == 8,
        is_cassandra4x4_ounold(result@[0]),
        is_littman89_ounold(result@[1]),
        is_mazee1_ounold(result@[2]),
        is_mazee2_ounold(result@[3]),
        is_mazef4_ounold(result@[4]),
        is_miyazakia_ounold(result@[5]),
        is_woods1_ounold(result@[6]),
        is_woods102_ounold(result@[7]),
{
    let mut result: Vec<MazeGeometry> = Vec::new();

    result.push(cassandra4x4_ounold());
    result.push(littman89_ounold());
    result.push(mazee1_ounold());
    result.push(mazee2_ounold());
    result.push(mazef4_ounold());
    result.push(miyazakia_ounold());
    result.push(woods1_ounold());
    result.push(woods102_ounold());
    result
}

} // verus!
