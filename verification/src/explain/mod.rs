pub mod state2;
pub mod matrix;
pub mod explain;
pub mod question;
pub mod weighted;
pub mod threats;
pub mod necessity;
pub mod choice;
pub mod coordination;
pub mod abstraction;
pub mod cause;
pub mod centralite;
pub mod compare;
