pub mod messages;
pub mod serialize;
