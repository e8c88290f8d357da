//! Parsers for a compact line-oriented notation that tracks tasks, habits and
//! time-block statistics.

pub mod block_tracker;
pub mod date;
pub mod integer;
pub mod regex_utils;
pub mod scanner;
pub mod section;
pub mod stat;
pub mod task;
pub mod task_tree;
pub mod text;
pub mod utils;
