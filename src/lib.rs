pub mod fetch;
pub mod graph;
pub mod lock;
pub mod order;
pub mod package;
pub mod render;
