use acs2::goal::{EpisodeEnd, Goal, GoalConditioned, GoalEnvironment, GoalLayout, GoalStart, GoalStep};
use acs2::perception::Perception;
use acs2::symbol::Symbol;

fn token(value: u8) -> Symbol {
    Symbol::Token(b'0' + value)
}

fn goal(first: u8, second: u8) -> Goal<2> {
    Goal::new([token(first), token(second)])
}

fn step(achieved: Goal<2>, terminal_state: bool, time_limit_reached: bool) -> GoalStep<3, 2> {
    GoalStep {
        observation: Perception::new([token(1), token(2), token(3)]),
        achieved,
        terminal_state,
        time_limit_reached,
    }
}

#[test]
fn a_joined_perception_splits_back_into_its_state_and_goal() {
    let state = Perception::new([token(1), token(0), token(9)]);
    let desired = goal(4, 2);

    let joined = GoalLayout::<3, 2, 5>::join(&state, &desired);

    assert_eq!(joined.symbols, [token(1), token(0), token(9), token(4), token(2)]);
    assert_eq!(GoalLayout::<3, 2, 5>::split(&joined), (state, desired));
    assert_eq!(GoalLayout::<3, 2, 5>::goal_positions(), 3..5);
}

#[test]
fn reaching_the_goal_terminates_the_episode() {
    let end = step(goal(4, 2), false, false).episode_end(true);
    assert!(end.terminated);
    assert!(!end.truncated);
}

#[test]
fn a_miss_neither_terminates_nor_truncates() {
    let end = step(goal(4, 2), false, false).episode_end(false);
    assert!(!end.terminated);
    assert!(!end.truncated);
}

#[test]
fn a_goal_reached_on_the_time_limit_terminates_rather_than_truncates_its_episode() {
    let on_limit = step(goal(4, 2), false, true);
    let reached = on_limit.episode_end(true);
    assert!(reached.terminated);
    assert!(!reached.truncated);
    let missed = on_limit.episode_end(false);
    assert!(!missed.terminated);
    assert!(missed.truncated);
}

#[test]
fn a_terminal_state_ends_the_episode_whatever_the_goal() {
    let fallen = step(goal(1, 1), true, false);
    for reached in [true, false] {
        let end = fallen.episode_end(reached);
        assert!(end.terminated);
        assert!(!end.truncated);
    }
}

/// A corridor of ten cells; the goal is a cell, the default goal the far end.
struct Corridor {
    position: u8,
    start: Option<GoalStart<1, 1>>,
    requested: Option<Goal<1>>,
}

fn corridor(position: u8) -> Corridor {
    Corridor { position, start: None, requested: None }
}

impl Corridor {
    fn here(&self) -> Goal<1> {
        Goal::new([token(self.position)])
    }
}

impl GoalEnvironment<1, 1> for Corridor {
    fn last_start(&self) -> GoalStart<1, 1> {
        self.start.expect("an episode has started")
    }

    fn requested_goal(&self) -> Option<Goal<1>> {
        self.requested
    }

    fn reset(&mut self) -> GoalStart<1, 1> {
        let start = self.reset_with_goal(Goal::new([token(9)]));
        self.requested = None;
        start
    }

    fn reset_with_goal(&mut self, desired: Goal<1>) -> GoalStart<1, 1> {
        self.position = 0;
        let start = GoalStart { observation: Perception::new([token(0)]), achieved: self.here(), desired };
        self.start = Some(start);
        self.requested = Some(desired);
        start
    }

    fn step(&mut self, action: usize) -> GoalStep<1, 1> {
        if action == 1 && self.position < 9 {
            self.position += 1;
        }
        GoalStep {
            observation: Perception::new([token(self.position)]),
            achieved: self.here(),
            terminal_state: false,
            time_limit_reached: false,
        }
    }
}

#[test]
fn no_episode_is_under_way_before_the_first_reset() {
    let env = GoalConditioned::<_, 1, 1, 2>::new(corridor(4));
    assert_eq!(env.desired(), None);
    assert_eq!(env.environment().position, 4);
}

#[test]
fn an_ended_episode_clears_its_goal() {
    let mut env = GoalConditioned::<_, 1, 1, 2>::new(corridor(0));
    let target = Goal::new([token(1)]);
    let first = env.reset_with_goal(target);
    assert_eq!(first.symbols, [token(0), token(1)]);
    assert_eq!(env.desired(), Some(target));
    assert_eq!(env.environment().requested_goal(), Some(target));
    assert_eq!(env.environment().last_start().desired, target);
    let (step, observation) = env.advance(1);
    assert_eq!(step.achieved, target);
    assert_eq!(observation.symbols, [token(1), token(1)]);
    assert!(!env.conclude(EpisodeEnd { terminated: false, truncated: false }));
    assert_eq!(env.desired(), Some(target));
    assert!(env.conclude(EpisodeEnd { terminated: true, truncated: false }));
    assert_eq!(env.desired(), None);
    assert_eq!(env.environment().position, 1);
}

#[test]
fn a_truncated_episode_also_ends_and_a_reset_starts_the_next() {
    let mut env = GoalConditioned::<_, 1, 1, 2>::new(corridor(0));
    let first = env.reset();
    assert_eq!(first.symbols, [token(0), token(9)]);
    assert_eq!(env.environment().requested_goal(), None);
    env.advance(1);
    assert!(env.conclude(EpisodeEnd { terminated: false, truncated: true }));
    assert_eq!(env.desired(), None);
    env.reset();
    assert_eq!(env.desired(), Some(Goal::new([token(9)])));
    assert_eq!(env.advance(1).0.achieved, Goal::new([token(1)]));
}
