pub mod cli;
pub mod task;
pub mod tree;
pub mod utils;
