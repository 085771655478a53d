use std::collections::{HashSet, VecDeque};

use acs2::maze_data;
use acs2::mazes::{self, MazeSource};

const PATH: u8 = 0;
const WALL: u8 = 1;
const GOAL: u8 = 9;

fn check_well_formed(id: &str, matrix: &[Vec<u8>]) {
    let width = matrix[0].len();
    let height = matrix.len();
    assert!(matrix.iter().all(|row| row.len() == width), "{id} is not rectangular");
    assert!(
        matrix.iter().flatten().all(|&cell| cell == PATH || cell == WALL || cell == GOAL),
        "{id} has an unexpected cell value"
    );
    assert_eq!(matrix.iter().flatten().filter(|&&cell| cell == GOAL).count(), 1, "{id} must have one goal");
    let border_is_wall = (0..width).all(|col| matrix[0][col] == WALL && matrix[height - 1][col] == WALL)
        && (0..height).all(|row| matrix[row][0] == WALL && matrix[row][width - 1] == WALL);
    assert!(border_is_wall, "{id} lacks a closed wall border");
    let goal = (0..height)
        .flat_map(|row| (0..width).map(move |col| (row, col)))
        .find(|&(row, col)| matrix[row][col] == GOAL)
        .unwrap();
    let mut seen = HashSet::from([goal]);
    let mut queue = VecDeque::from([goal]);
    while let Some((row, col)) = queue.pop_front() {
        for delta_row in -1isize..=1 {
            for delta_col in -1isize..=1 {
                let next = ((row as isize + delta_row) as usize, (col as isize + delta_col) as usize);
                if next.0 < height && next.1 < width && matrix[next.0][next.1] != WALL && seen.insert(next) {
                    queue.push_back(next);
                }
            }
        }
    }
    assert!(seen.len() > 1, "{id} has a goal no path cell reaches");
}

#[test]
fn the_benchmark_mazes_are_well_formed_and_found_by_name() {
    let geometries = maze_data::maze_geometries();
    assert_eq!(geometries.len(), 5);
    for geometry in &geometries {
        check_well_formed(geometry.id, &geometry.matrix);
        let found = maze_data::geometry_by_id(geometry.id).unwrap();
        assert_eq!(found.matrix, geometry.matrix);
        assert_eq!(found.max_episode_steps, geometry.max_episode_steps);
    }
    assert_eq!(maze_data::geometry_by_id("Woods100-v0").unwrap().max_episode_steps, 500);
    assert_eq!(maze_data::geometry_by_id("Maze4-v0").unwrap().matrix[1], vec![1, 0, 0, 1, 0, 0, 9, 1]);
    assert!(maze_data::geometry_by_id("Maze6-v0").is_none());
}

#[test]
fn both_collections_are_well_formed_and_found_by_name() {
    let canonical = mazes::canonical_geometries();
    let other = mazes::unold_geometries();
    assert_eq!(canonical.len(), 5);
    assert!(canonical.iter().all(|geometry| geometry.source == MazeSource::Pyalcs));
    for geometry in other.iter() {
        assert_eq!(geometry.source, MazeSource::OunoldAlcs);
        assert_eq!(geometry.max_episode_steps, 200);
    }
    for geometry in canonical.iter().chain(other.iter()) {
        check_well_formed(geometry.id, &geometry.matrix);
        assert_eq!(mazes::geometry_by_id(geometry.id).unwrap().matrix, geometry.matrix);
    }
    assert_eq!(mazes::geometry_by_id("Woods1-ounold").unwrap().source, MazeSource::OunoldAlcs);
    assert_eq!(mazes::geometry_by_id("Woods1-v0").unwrap().source, MazeSource::Pyalcs);
    assert!(mazes::geometry_by_id("woods1-v0").is_none());
}
