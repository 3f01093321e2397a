pub mod groundings;
pub mod boxes;
pub mod supports;
pub mod transitions;
pub mod lprelax;
pub mod ground_rows;
