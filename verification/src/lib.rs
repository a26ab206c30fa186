//! A cover tree over a whole-number metric, and the tour search that is
//! built on it: tours through cities by nearest neighbour and by brute
//! force, and the crossing and selection of tours in a genetic search.
pub mod adaptive_solver;
pub mod cover_tree;
pub mod euclid;
pub mod genetic;
pub mod lengths;
pub mod plane;
pub mod population;
pub mod problem;
pub mod random_perm;
pub mod scale;
pub mod tour;
