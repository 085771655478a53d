use vstd::prelude::*;

use core::ops::Range;

use crate::perception::Perception;
use crate::symbol::Symbol;

verus! {

broadcast use vstd::array::group_array_axioms;

/// A goal: the symbols that describe a situation the agent should reach.
#[derive(Clone, Copy, PartialEq, Eq, Hash, PartialOrd, Ord, Debug)]
pub struct Goal<const G: usize> {
    pub symbols: [Symbol; G],
}

impl<const G: usize> Goal<G> {
    pub fn new(symbols: [Symbol; G]) -> (result: Self)
        ensures
            result.symbols == symbols,
    {
        Self { symbols }
    }
}

/// What a goal environment shows when an episode starts.
#[derive(Clone, Copy, PartialEq, Eq, Debug)]
pub struct GoalStart<const S: usize, const G: usize> {
    pub observation: Perception<S>,
    pub achieved: Goal<G>,
    pub desired: Goal<G>,
}

/// What a goal environment shows after a step.
#[derive(Clone, Copy, PartialEq, Eq, Debug)]
pub struct GoalStep<const S: usize, const G: usize> {
    pub observation: Perception<S>,
    pub achieved: Goal<G>,
    pub terminal_state: bool,
    pub time_limit_reached: bool,
}

/// How a step ends the episode: it terminates in a terminal state or on
/// the goal, and is truncated on the time limit only when it does not
/// terminate.
#[derive(Clone, Copy, PartialEq, Eq, Debug)]
pub struct EpisodeEnd {
    pub terminated: bool,
    pub truncated: bool,
}

impl<const S: usize, const G: usize> GoalStep<S, G> {
    /// The ending of this step, given whether the objective judged the
    /// desired goal reached.
    pub fn episode_end(&self, reached: bool) -> (result: EpisodeEnd)
        ensures
            result.terminated == (self.terminal_state || reached),
            result.truncated == (!result.terminated && self.time_limit_reached),
    {
        let terminated = self.terminal_state || reached;
        EpisodeEnd { terminated, truncated: !terminated && self.time_limit_reached }
    }
}

/// An episode never ends both ways at once, and reaching the goal on the
/// time limit terminates rather than truncates.
pub proof fn lemma_termination_wins(terminal_state: bool, reached: bool, time_limit_reached: bool)
    ensures
        ({
            let terminated = terminal_state || reached;
            let truncated = !terminated && time_limit_reached;
            &&& !(terminated && truncated)
            &&& reached ==> terminated && !truncated
            &&& terminal_state ==> terminated && !truncated
        }),
{
}

/// The layout of a goal-conditioned perception: the `S` state symbols
/// followed by the `G` goal symbols, `M = S + G` in all.
pub struct GoalLayout<const S: usize, const G: usize, const M: usize>;

/// The state symbols followed by the goal symbols.
pub open spec fn joined(state: Seq<Symbol>, goal: Seq<Symbol>) -> Seq<Symbol> {
    state + goal
}

impl<const S: usize, const G: usize, const M: usize> GoalLayout<S, G, M> {
    pub fn join(state: &Perception<S>, goal: &Goal<G>) -> (result: Perception<M>)
        requires
            S + G == M,
        ensures
            result.symbols@ == joined(state.symbols@, goal.symbols@),
    {
        let mut symbols = [Symbol::Wildcard;M];
        let mut index: usize = 0;
        while index < M
            invariant
                S + G == M,
                index <= M,
                forall|i: int| 0 <= i < index ==> #[trigger] symbols@[i] == joined(state.symbols@, goal.symbols@)[i],
            decreases M - index,
        {
            if index < S {
                symbols[index] = state.symbols[index];
            } else {
                symbols[index] = goal.symbols[index - S];
            }
            index += 1;
        }
        proof {
            assert(symbols@ =~= joined(state.symbols@, goal.symbols@));
        }
        Perception::new(symbols)
    }

    pub fn split(joined_perception: &Perception<M>) -> (result: (Perception<S>, Goal<G>))
        requires
            S + G == M,
        ensures
            result.0.symbols@ == joined_perception.symbols@.take(S as int),
            result.1.symbols@ == joined_perception.symbols@.skip(S as int),
    {
        let mut state = [Symbol::Wildcard;S];
        let mut index: usize = 0;
        while index < S
            invariant
                S + G == M,
                index <= S,
                forall|i: int| 0 <= i < index ==> #[trigger] state@[i] == joined_perception.symbols@[i],
            decreases S - index,
        {
            state[index] = joined_perception.symbols[index];
            index += 1;
        }
        let mut goal = [Symbol::Wildcard;G];
        let mut position: usize = 0;
        while position < G
            invariant
                S + G == M,
                position <= G,
                forall|i: int| 0 <= i < position ==> #[trigger] goal@[i] == joined_perception.symbols@[S + i],
            decreases G - position,
        {
            goal[position] = joined_perception.symbols[S + position];
            position += 1;
        }
        proof {
            assert(state@ =~= joined_perception.symbols@.take(S as int));
            assert(goal@ =~= joined_perception.symbols@.skip(S as int));
        }
        (Perception::new(state), Goal::new(goal))
    }

    /// The positions of the goal symbols.
    pub fn goal_positions() -> (result: Range<usize>)
        requires
            S + G == M,
        ensures
            result.start == S,
            result.end == M,
    {
        S..M
    }
}

/// Splitting a joined perception gives back the state and the goal, and
/// joining the parts of a split perception gives back the perception.
pub proof fn lemma_join_split_inverse(state: Seq<Symbol>, goal: Seq<Symbol>, whole: Seq<Symbol>, s: nat)
    requires
        state.len() == s,
    ensures
        joined(state, goal).take(s as int) == state,
        joined(state, goal).skip(s as int) == goal,
        s <= whole.len() ==> joined(whole.take(s as int), whole.skip(s as int)) == whole,
{
    assert(joined(state, goal).take(s as int) =~= state);
    assert(joined(state, goal).skip(s as int) =~= goal);
    if s <= whole.len() {
        assert(joined(whole.take(s as int), whole.skip(s as int)) =~= whole);
    }
}

/// An environment with goals: every episode starts with a desired goal,
/// and every step reports the goal that was achieved.
pub trait GoalEnvironment<const S: usize, const G: usize> {
    /// What the environment showed when its current episode started.
    spec fn last_start(&self) -> GoalStart<S, G>;

    /// The goal asked for when the current episode started, if one was.
    spec fn requested_goal(&self) -> Option<Goal<G>>;

    fn reset(&mut self) -> (result: GoalStart<S, G>)
        ensures
            result == final(self).last_start(),
            final(self).requested_goal() is None,
    ;

    fn reset_with_goal(&mut self, desired: Goal<G>) -> (result: GoalStart<S, G>)
        ensures
            result == final(self).last_start(),
            final(self).requested_goal() == Some(desired),
    ;

    fn step(&mut self, action: usize) -> GoalStep<S, G>;
}

/// A goal environment seen as an ordinary one: the desired goal of the
/// episode is appended to every observation.
pub struct GoalConditioned<E, const S: usize, const G: usize, const M: usize> {
    environment: E,
    desired: Option<Goal<G>>,
}

impl<E, const S: usize, const G: usize, const M: usize> GoalConditioned<E, S, G, M> where
    E: GoalEnvironment<S, G>,
 {
    /// The wrapped environment.
    pub closed spec fn inner(self) -> E {
        self.environment
    }

    /// The desired goal of the current episode, once one has started.
    pub closed spec fn current_goal(self) -> Option<Goal<G>> {
        self.desired
    }

    pub fn new(environment: E) -> (result: Self)
        requires
            S + G == M,
        ensures
            result.inner() == environment,
            result.current_goal() is None,
    {
        let _ = GoalLayout::<S, G, M>::goal_positions();
        Self { environment, desired: None }
    }

    pub fn environment(&self) -> (result: &E)
        ensures
            *result == self.inner(),
    {
        &self.environment
    }

    pub fn environment_mut(&mut self) -> (result: &mut E)
        ensures
            *result == old(self).inner(),
            final(self).inner() == *final(result),
            final(self).current_goal() == old(self).current_goal(),
    {
        &mut self.environment
    }

    pub fn into_environment(self) -> (result: E)
        ensures
            result == self.inner(),
    {
        self.environment
    }

    pub fn desired(&self) -> (result: Option<Goal<G>>)
        ensures
            result == self.current_goal(),
    {
        self.desired
    }

    /// Starts an episode with the given goal, which is handed to the
    /// environment; the episode's goal is the one the environment reports
    /// as desired, and the observation carries it.
    pub fn reset_with_goal(&mut self, desired: Goal<G>) -> (result: Perception<M>)
        requires
            S + G == M,
        ensures
            final(self).inner().requested_goal() == Some(desired),
            final(self).current_goal() == Some(final(self).inner().last_start().desired),
            result.symbols@ == joined(
                final(self).inner().last_start().observation.symbols@,
                final(self).inner().last_start().desired.symbols@,
            ),
    {
        let start = self.environment.reset_with_goal(desired);
        self.begin(start)
    }

    /// Starts an episode with a goal the environment picks; the
    /// observation carries it.
    pub fn reset(&mut self) -> (result: Perception<M>)
        requires
            S + G == M,
        ensures
            final(self).inner().requested_goal() is None,
            final(self).current_goal() == Some(final(self).inner().last_start().desired),
            result.symbols@ == joined(
                final(self).inner().last_start().observation.symbols@,
                final(self).inner().last_start().desired.symbols@,
            ),
    {
        let start = self.environment.reset();
        self.begin(start)
    }

    fn begin(&mut self, start: GoalStart<S, G>) -> (result: Perception<M>)
        requires
            S + G == M,
        ensures
            final(self).current_goal() == Some(start.desired),
            final(self).inner() == old(self).inner(),
            result.symbols@ == joined(start.observation.symbols@, start.desired.symbols@),
    {
        self.desired = Some(start.desired);
        GoalLayout::<S, G, M>::join(&start.observation, &start.desired)
    }

    /// Steps the wrapped environment within the current episode; the
    /// observation carries the episode's goal. An episode must be under way:
    /// one never started, or ended, has no goal (`desired` is `None`), and
    /// stepping it is refused before this is called.
    pub fn advance(&mut self, action: usize) -> (result: (GoalStep<S, G>, Perception<M>))
        requires
            S + G == M,
            old(self).current_goal() is Some,
        ensures
            final(self).current_goal() == old(self).current_goal(),
            result.1.symbols@ == joined(result.0.observation.symbols@, old(self).current_goal()->0.symbols@),
    {
        let desired = match self.desired {
            Some(goal) => goal,
            None => {
                proof {
                    assert(false);
                }
                Goal::new([Symbol::Wildcard;G])
            },
        };
        let step = self.environment.step(action);
        let observation = GoalLayout::<S, G, M>::join(&step.observation, &desired);
        (step, observation)
    }

    /// Closes the current episode when a step ended it, by termination or
    /// truncation: it then has no goal, and the next step is refused until
    /// a reset starts another.
    pub fn conclude(&mut self, end: EpisodeEnd) -> (result: bool)
        ensures
            result == (end.terminated || end.truncated),
            final(self).inner() == old(self).inner(),
            final(self).current_goal() == if result {
                None
            } else {
                old(self).current_goal()
            },
    {
        let ended = end.terminated || end.truncated;
        if ended {
            self.desired = None;
        }
        ended
    }
}

} // verus!
