//! Routing of copper traces on a printed-circuit board.
//!
//! Positions are signed 16.16 fixed-point numbers and traces run in the
//! eight directions of an octile grid. The crate holds the geometry on
//! that grid, the shortest-path search for one connection with its
//! post-processor, and the decisions of two backtracking solvers that
//! order the connections. Whether a piece of copper collides with an
//! obstacle is for the caller to say: every function that needs to know
//! takes an oracle, a function value that answers the question, and its
//! contract is stated over the answers of that oracle. Where the oracle
//! answers as a test on the copper itself would, a path that the search
//! returns is free of collisions with everything the oracle knows of.

pub mod fixed_point;
pub mod vec2;
pub mod direction;
pub mod trace_path;
pub mod grid;
pub mod quad_tree;
pub mod line;
pub mod oracle;
pub mod post_process;
pub mod collision_free;
pub mod astar;
pub mod search_tree;
pub mod search;
pub mod clear_tree;
pub mod naive_backtrack_algo;
pub mod ordering;
pub mod proba_model;
pub mod sample_plan;
pub mod backtrack_node;
pub mod astar_check_struct;
pub mod bayesian_backtrack_algo;
pub mod pcb_problem;
pub mod command_flags;
pub mod settings_enum;
pub mod pcb_problem_solve;
pub mod hyperparameters;
