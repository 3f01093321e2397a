pub mod sexpr;
pub mod pddl;
pub mod display;
pub mod readback;
