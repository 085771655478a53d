# acs2

An Anticipatory Classifier System (ACS2) library with its environments and
run bookkeeping, verified with Verus.

## Layout

- `src/` is the verified library: Verus checks every function there
  against its contract, and the laws of the library are public proof
  functions.
  - Rules and their parts: `symbol`, `perception`, `condition`, `effect`,
    `mark`, `classifier`, `population`, `subsumption`.
  - Learning steps without floating point: `alp` (covering, new-list
    bookkeeping, victim removal), `ga` (crossover, timestamps, children),
    `action_selection`, `rl`, `knowledge`, `coverage` (exhaustive
    multiplexer knowledge by cells), `breakdown` (knowledge by answer
    quadrant).
  - Environments: `multiplexer`, `maze` (the maze walk), `mazes` and
    `maze_data` (the known layouts), `goal` (goal-conditioned views),
    `goal_task` (goal mazes with breadth-first distances).
  - Experience replay: `replay`.
  - Randomness: `rng` (a ChaCha8 source kept as its key, stream and word
    offset, whose draws come from a trusted wrapper and are named as
    functions of that position; and a shuffle).
  - Runs and files: `bench` and `reach` (options, labels, budgets),
    `reach_run` (the decisions of a run towards full knowledge: when it
    trains, measures, saves and stops, and how a saved run resumes),
    `reach_options` (the flags of such a run), `diagnostics` (the shape
    of multiplexer rules), `maze_bench`, `size_study` and
    `probe_options` (the flags, budgets and tables of the maze
    benchmark, the multiplexer size study and the goal-maze probe),
    `text` and `codec` (numbers, symbols, marks and generator states as
    text), `checkpoint` and `checkpoint_fields` (the checkpoint format:
    `render`, `try_parse` and `parse`, and the laws that a rendered state parses back to itself and renders again to the same text).
- `tests/` runs the library on concrete values.
- `app/` is the benchmark program: named `mpx` it runs the multiplexer
  size study, `mpx_reach` the reach study, `tu_probe` the goal-maze
  probe, and otherwise the maze benchmark (their flags are read in
  `src/`). It holds what
  computes with floating point (quality, reward,
  fitness, averages), the agents' trial loops, the loop that drives a
  run towards full knowledge, the file handling of checkpoints and the
  memory probe.

The outside crates are `rand` and `rand_chacha` (called from `src/`
through trusted wrappers in `rng`) and `libc` (called from `app/`).
