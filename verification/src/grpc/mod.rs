pub mod solver;
