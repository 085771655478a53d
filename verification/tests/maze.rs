use std::collections::{HashSet, VecDeque};

use acs2::maze::{is_well_laid, Maze, MAZE_PERCEPTION_LEN};
use acs2::mazes::{geometry_by_id, unold_geometries};
use acs2::rng::{ChaChaRandomSource, RandomSource};
use acs2::symbol::Symbol;

const PATH: u8 = 0;
const WALL: u8 = 1;
const GOAL: u8 = 9;

const OFFSETS: [(isize, isize); 8] = [
    (-1, 0),
    (-1, 1),
    (0, 1),
    (1, 1),
    (1, 0),
    (1, -1),
    (0, -1),
    (-1, -1),
];

fn rng() -> ChaChaRandomSource {
    ChaChaRandomSource::from_seed(0)
}

fn boundary_maze(max_episode_steps: u32) -> Maze<ChaChaRandomSource> {
    let matrix = vec![vec![1, 1, 1, 1], vec![1, 0, 9, 1], vec![1, 1, 1, 1]];
    assert!(is_well_laid(&matrix));
    Maze::new(matrix, max_episode_steps, rng())
}

#[test]
fn truncation_fires_exactly_at_cap_on_blocked_moves() {
    let geometry = geometry_by_id("Maze4-v0").unwrap();
    let mut env = Maze::from_geometry(&geometry, rng());
    env.place_agent(1, 1);

    let action_into_wall = 0;
    for step_index in 1..=geometry.max_episode_steps {
        let outcome = env.step(action_into_wall);
        assert!(!outcome.terminated, "blocked move must not terminate");
        assert_eq!(outcome.reward, 0);
        if step_index < geometry.max_episode_steps {
            assert!(!outcome.truncated, "must not truncate before cap");
        } else {
            assert!(outcome.truncated, "must truncate at cap");
        }
    }
}

#[test]
fn termination_wins_over_truncation_at_the_boundary() {
    let mut env = boundary_maze(1);
    env.place_agent(1, 1);

    let action_east = 2;
    let outcome = env.step(action_east);

    assert!(outcome.terminated, "entering reward terminates");
    assert!(!outcome.truncated, "terminated step is not truncated");
    assert_eq!(outcome.reward, 1000);
}

#[test]
fn truncation_fires_when_goal_not_reached_at_cap() {
    let mut env = boundary_maze(1);
    env.place_agent(1, 1);

    let action_into_wall = 0;
    let outcome = env.step(action_into_wall);

    assert!(!outcome.terminated);
    assert!(outcome.truncated, "non-terminal cap step truncates");
    assert_eq!(outcome.reward, 0);
}

#[test]
fn reset_places_agent_on_a_path_cell() {
    let geometry = geometry_by_id("Woods1-v0").unwrap();
    let mut env = Maze::from_geometry(&geometry, rng());
    env.reset();
    let (row, col) = env.agent_position();
    assert_eq!(geometry.matrix[row][col], 0, "reset must land on a path cell");
}

fn goal_cell(matrix: &[Vec<u8>]) -> (usize, usize) {
    for (row_index, row) in matrix.iter().enumerate() {
        for (col_index, cell) in row.iter().enumerate() {
            if *cell == GOAL {
                return (row_index, col_index);
            }
        }
    }
    panic!("no goal cell");
}

fn reachable_count(matrix: &[Vec<u8>], start: (usize, usize)) -> usize {
    let height = matrix.len();
    let width = matrix[0].len();
    let mut seen = HashSet::from([start]);
    let mut queue = VecDeque::from([start]);
    while let Some((row, col)) = queue.pop_front() {
        for (delta_row, delta_col) in OFFSETS {
            let next_row = row as isize + delta_row;
            let next_col = col as isize + delta_col;
            if next_row < 0 || next_col < 0 || next_row >= height as isize || next_col >= width as isize {
                continue;
            }
            let cell = (next_row as usize, next_col as usize);
            if matrix[cell.0][cell.1] != WALL && seen.insert(cell) {
                queue.push_back(cell);
            }
        }
    }
    seen.len()
}

#[test]
fn unold_goal_is_reachable() {
    for geometry in unold_geometries() {
        let goal = goal_cell(&geometry.matrix);
        assert!(reachable_count(&geometry.matrix, goal) > 1, "{} goal is isolated", geometry.id);
    }
}

#[test]
fn unold_transitions_match_geometry() {
    for geometry in unold_geometries() {
        let height = geometry.matrix.len();
        let width = geometry.matrix[0].len();
        for row in 0..height {
            for col in 0..width {
                if geometry.matrix[row][col] != PATH {
                    continue;
                }
                for (action, (delta_row, delta_col)) in OFFSETS.iter().enumerate() {
                    let target_row = (row as isize + delta_row) as usize;
                    let target_col = (col as isize + delta_col) as usize;
                    let target = geometry.matrix[target_row][target_col];

                    let mut env = Maze::from_geometry(&geometry, rng());
                    env.place_agent(row, col);
                    let outcome = env.step(action);
                    let position = env.agent_position();

                    if target == WALL {
                        assert_eq!(position, (row, col), "{} wall must block", geometry.id);
                        assert!(!outcome.terminated, "{} wall must not terminate", geometry.id);
                    } else {
                        assert_eq!(position, (target_row, target_col), "{} must move into open cell", geometry.id);
                        assert_eq!(outcome.terminated, target == GOAL, "{} termination must match goal cell", geometry.id);
                        if target == GOAL {
                            assert_eq!(outcome.reward, 1000, "{} goal reward", geometry.id);
                        }
                    }
                }
            }
        }
    }
}

#[test]
fn every_known_layout_can_be_run() {
    for id in ["Maze4-v0", "Maze5-v0", "Maze7-v0", "Woods1-v0", "Woods100-v0"] {
        assert!(is_well_laid(&geometry_by_id(id).unwrap().matrix), "{id}");
    }
    for geometry in unold_geometries() {
        assert!(is_well_laid(&geometry.matrix), "{}", geometry.id);
    }
    assert!(!is_well_laid(&vec![vec![0, 1], vec![1, 1]]));
    assert!(!is_well_laid(&vec![vec![1, 1, 1], vec![1, 0, 1], vec![1, 1]]));
    assert!(!is_well_laid(&vec![vec![1, 1, 1], vec![1, 12, 1], vec![1, 1, 1]]));
}

#[test]
fn the_agent_sees_its_eight_neighbours_clockwise_from_north() {
    let matrix = vec![
        vec![1, 1, 1, 1, 1],
        vec![1, 0, 0, 9, 1],
        vec![1, 0, 0, 1, 1],
        vec![1, 1, 1, 1, 1],
    ];
    let mut env = Maze::new(matrix, 10, rng());
    env.place_agent(1, 2);
    let token = |digit: u8| Symbol::Token(b'0' + digit);
    let expected: [Symbol; MAZE_PERCEPTION_LEN] =
        [token(1), token(1), token(9), token(1), token(0), token(0), token(0), token(1)];
    assert_eq!(env.perception().symbols, expected);

    let outcome = env.step(4);
    assert_eq!(env.agent_position(), (2, 2));
    assert!(!outcome.terminated && !outcome.truncated);
    let outcome = env.step(1);
    assert_eq!(env.agent_position(), (1, 3));
    assert!(outcome.terminated);
    assert_eq!(outcome.reward, 1000);
}

#[test]
fn reset_draws_the_start_among_the_path_cells_in_reading_order() {
    let geometry = geometry_by_id("Woods1-v0").unwrap();
    let paths: Vec<(usize, usize)> = geometry
        .matrix
        .iter()
        .enumerate()
        .flat_map(|(row, cells)| {
            cells.iter().enumerate().filter(|(_, cell)| **cell == PATH).map(move |(col, _)| (row, col))
        })
        .collect();
    for seed in 0..10u64 {
        let mut env = Maze::from_geometry(&geometry, ChaChaRandomSource::from_seed(seed));
        env.reset();
        let mut replay = ChaChaRandomSource::from_seed(seed);
        assert_eq!(env.agent_position(), paths[replay.gen_range(paths.len())]);
    }
}
