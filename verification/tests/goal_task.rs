use acs2::classifier::Classifier;
use acs2::goal_task::{
    relabeled_sample, specified_goal_positions, GoalEncoding, GoalMazeEnv, GoalTask, Grid, Trajectory, ACTIONS,
    EVALUATED_TRAJECTORIES, GOAL_REWARD, STATE_LEN,
};
use acs2::mazes::geometry_by_id;
use acs2::rng::{ChaChaRandomSource, RandomSource};
use acs2::symbol::Symbol;

fn maze4_task() -> GoalTask<8, 16> {
    let geometry = geometry_by_id("Maze4-v0").expect("Maze4 is registered");
    GoalTask::new(Grid::from_geometry(&geometry), GoalEncoding::Perception).expect("Maze4 has no aliasing")
}

fn walk(task: &GoalTask<8, 16>, goal: usize, actions: &[usize]) -> Trajectory {
    let mut cells = vec![0];
    for &action in actions {
        let next = task.next(*cells.last().unwrap(), action);
        cells.push(next);
    }
    Trajectory {
        goal,
        cells,
        actions: actions.to_vec(),
    }
}

#[test]
fn a_relabeled_transition_terminates_exactly_on_its_goal() {
    let task = maze4_task();
    let trajectory = walk(&task, 7, &[2, 4, 4, 2]);
    let reached = trajectory.cells[1];
    let elsewhere = (reached + 1) % task.cell_count();

    let hit = relabeled_sample(&task, &trajectory, 0, reached, false);
    let miss = relabeled_sample(&task, &trajectory, 0, elsewhere, false);

    assert_eq!(hit.reward, GOAL_REWARD);
    assert!(hit.done);
    assert_eq!(miss.reward, 0);
    assert!(!miss.done);
    assert_eq!(
        hit.state.symbols[STATE_LEN..],
        hit.next_state.symbols[STATE_LEN..],
        "a relabeled transition keeps one goal on both sides"
    );
}

#[test]
fn a_cut_off_step_ends_the_relabeled_episode_without_paying() {
    let task = maze4_task();
    let trajectory = walk(&task, 7, &[2, 4]);
    let elsewhere = (trajectory.cells[2] + 1) % task.cell_count();
    let last = relabeled_sample(&task, &trajectory, 1, elsewhere, true);
    assert!(last.done);
    assert_eq!(last.reward, 0);
    assert_eq!(last.action, 4);
}

#[test]
fn the_grid_lists_open_cells_in_reading_order() {
    let geometry = geometry_by_id("Maze4-v0").unwrap();
    let grid = Grid::from_geometry(&geometry);
    let mut expected = Vec::new();
    for (row, line) in geometry.matrix.iter().enumerate() {
        for (col, &code) in line.iter().enumerate() {
            if code != 1 {
                expected.push((row, col));
            }
        }
    }
    assert_eq!(grid.cell_count(), expected.len());
    for (index, &cell) in expected.iter().enumerate() {
        assert_eq!(grid.cell(index), cell);
        assert_eq!(grid.index_of(cell), index);
    }
}

#[test]
fn distances_are_the_fewest_moves() {
    let task = maze4_task();
    let grid = task.grid();
    let count = task.cell_count();
    for goal in 0..count {
        assert_eq!(task.distance(goal, goal), 0);
        for action in 0..ACTIONS {
            let neighbour = task.next(goal, action);
            let expected = if neighbour == goal { 0 } else { 1 };
            assert_eq!(task.distance(goal, neighbour), expected);
        }
        for cell in 0..count {
            let here = task.distance(goal, cell);
            assert_ne!(here, u32::MAX, "Maze4 is connected");
            assert_eq!(here, task.distance(cell, goal), "moves can be undone");
            if here > 0 {
                let closer = (0..ACTIONS).any(|action| task.distance(goal, task.next(cell, action)) + 1 == here);
                assert!(closer, "a cell at {here} moves has a neighbour one move closer");
            }
        }
    }
    let start = grid.index_of((1, 1));
    let reward = grid.index_of((1, 6));
    assert_eq!(task.distance(reward, start), 5);
}

#[test]
fn reward_cells_can_be_the_only_goals() {
    let mut task = maze4_task();
    assert_eq!(task.goal_pool().len(), task.cell_count());
    assert!(task.restrict_goals_to_reward_cells());
    let reward = task.grid().index_of((1, 6));
    assert_eq!(task.goal_pool(), &vec![reward]);
    let mut rng = ChaChaRandomSource::from_seed(3);
    for _ in 0..10 {
        assert_eq!(task.draw_goal(&mut rng), reward);
    }
}

#[test]
fn coordinate_goals_are_two_digits() {
    let geometry = geometry_by_id("Maze4-v0").unwrap();
    let task = GoalTask::<2, 10>::new(Grid::from_geometry(&geometry), GoalEncoding::Coordinates).unwrap();
    let index = task.grid().index_of((1, 6));
    assert_eq!(task.goal(index), [Symbol::Token(b'1'), Symbol::Token(b'6')]);
    let view = task.perception(0, index);
    assert_eq!(view.symbols[8..], [Symbol::Token(b'1'), Symbol::Token(b'6')]);
    assert_eq!(view.symbols[..8], task.grid().perception(task.grid().cell(0)));
}

#[test]
fn view_goals_need_cells_that_look_different() {
    let matrix = vec![
        vec![1, 1, 1, 1, 1],
        vec![1, 0, 1, 0, 1],
        vec![1, 1, 1, 1, 1],
    ];
    let geometry = acs2::mazes::MazeGeometry {
        id: "twins",
        matrix,
        max_episode_steps: 10,
        source: acs2::mazes::MazeSource::Pyalcs,
    };
    assert!(GoalTask::<8, 16>::new(Grid::from_geometry(&geometry), GoalEncoding::Perception).is_none());
    let task = GoalTask::<2, 10>::new(Grid::from_geometry(&geometry), GoalEncoding::Coordinates).unwrap();
    assert_eq!(task.distance(0, 1), u32::MAX, "walled-off cells are not reached");
}

#[test]
fn goal_encodings_are_named() {
    for encoding in [GoalEncoding::Perception, GoalEncoding::Coordinates] {
        assert_eq!(GoalEncoding::parse(encoding.label()), encoding);
    }
    assert_eq!(GoalEncoding::Coordinates.label(), "coordinates");
}

#[test]
fn goal_positions_of_a_condition_are_counted() {
    let mut classifier = Classifier::<16, ()>::general(Some(0), ());
    assert_eq!(specified_goal_positions(&classifier), 0);
    classifier.condition.set(3, Symbol::Token(b'1'));
    assert_eq!(specified_goal_positions(&classifier), 0);
    classifier.condition.set(8, Symbol::Token(b'1'));
    classifier.condition.set(15, Symbol::Token(b'0'));
    assert_eq!(specified_goal_positions(&classifier), 2);
}

#[test]
fn a_trajectory_reaches_its_goal_when_it_ends_there() {
    let task = maze4_task();
    let trajectory = walk(&task, 7, &[2, 4]);
    let reached = Trajectory {
        goal: *trajectory.cells.last().unwrap(),
        ..trajectory.clone()
    };
    assert!(reached.reached_goal());
    assert!(!Trajectory { goal: 99, ..trajectory }.reached_goal());
}

#[test]
fn an_episode_never_starts_on_its_goal() {
    let task = maze4_task();
    let mut env = GoalMazeEnv::new(&task, ChaChaRandomSource::from_seed(9));
    for _ in 0..200 {
        let observation = env.reset();
        let start = env.cell();
        assert_ne!(start, env.goal());
        assert_eq!(observation, task.perception(start, env.goal()));
    }
}

#[test]
fn reaching_the_goal_pays_and_ends_the_episode() {
    let task = maze4_task();
    let mut env = GoalMazeEnv::new(&task, ChaChaRandomSource::from_seed(4));
    let mut finished = 0;
    for _ in 0..300 {
        env.reset();
        let goal = env.goal();
        loop {
            let here = env.cell();
            let action = (0..ACTIONS)
                .min_by_key(|&action| task.distance(goal, task.next(here, action)))
                .unwrap();
            let outcome = env.step(action);
            assert_eq!(outcome.observation, task.perception(env.cell(), goal));
            if outcome.terminated {
                assert_eq!(outcome.reward, GOAL_REWARD);
                assert!(!outcome.truncated);
                assert_eq!(env.cell(), goal);
                break;
            }
            assert_eq!(outcome.reward, 0);
            assert!(!outcome.truncated, "the shortest way is shorter than the step limit");
        }
        finished += 1;
        assert!(env.last_trajectory().reached_goal());
        assert_eq!(env.recent().len(), finished.min(EVALUATED_TRAJECTORIES));
    }
}

#[test]
fn an_episode_is_cut_off_at_the_step_limit() {
    let task = maze4_task();
    let mut env = GoalMazeEnv::new(&task, ChaChaRandomSource::from_seed(5));
    env.reset();
    let before = env.steps_taken();
    let limit = geometry_by_id("Maze4-v0").unwrap().max_episode_steps as usize;
    let mut steps = 0;
    loop {
        let here = env.cell();
        let goal = env.goal();
        let action = (0..ACTIONS).find(|&action| task.next(here, action) != goal).unwrap();
        let outcome = env.step(action);
        steps += 1;
        if outcome.truncated {
            assert_eq!(steps, limit);
            break;
        }
        assert!(!outcome.terminated);
        assert!(steps < limit);
    }
    assert_eq!(env.steps_taken(), before + limit as u64);
    assert!(!env.last_trajectory().reached_goal());
    assert_eq!(env.last_trajectory().actions.len(), limit);
}

#[test]
fn a_goal_pool_of_chosen_cells_is_kept_sorted_and_distinct() {
    let mut task = maze4_task();
    let every_cell: Vec<usize> = (0..task.cell_count()).collect();
    assert_eq!(task.goal_pool(), &every_cell);
    assert!(task.restrict_goals_to_cells(&[7, 2, 7, 4]));
    assert_eq!(task.goal_pool(), &vec![2, 4, 7]);
    let pool_before = task.goal_pool().clone();
    assert!(!task.restrict_goals_to_cells(&[]));
    assert!(!task.restrict_goals_to_cells(&[1, task.cell_count()]));
    assert_eq!(task.goal_pool(), &pool_before);
}

#[test]
fn a_reset_draws_the_goal_from_the_pool_and_the_start_by_an_offset_after_it() {
    let task = maze4_task();
    let count = task.cell_count();
    let pool = task.goal_pool().clone();
    for seed in 0..20u64 {
        let mut env = GoalMazeEnv::new(&task, ChaChaRandomSource::from_seed(seed));
        env.reset();
        let mut replay = ChaChaRandomSource::from_seed(seed);
        let goal = pool[replay.gen_range(pool.len())];
        let offset = replay.gen_range(count - 1);
        assert_eq!(env.goal(), goal);
        assert_eq!(env.cell(), (goal + offset + 1) % count);
    }
}
