pub mod symbol;
pub mod perception;
pub mod condition;
pub mod rng;
pub mod effect;
pub mod mark;
pub mod population;
pub mod goal;
pub mod classifier;
pub mod knowledge;
pub mod multiplexer;
pub mod coverage;
pub mod breakdown;
pub mod diagnostics;
pub mod replay;
pub mod text;
pub mod config;
pub mod bench;
pub mod action_selection;
pub mod checkpoint;
pub mod checkpoint_fields;
pub mod subsumption;
pub mod ga;
pub mod alp;
pub mod maze_data;
pub mod mazes;
pub mod maze;
pub mod goal_task;
pub mod codec;
pub mod reach;
pub mod reach_run;
pub mod reach_options;
pub mod maze_bench;
pub mod size_study;
pub mod probe_options;
pub mod rl;
