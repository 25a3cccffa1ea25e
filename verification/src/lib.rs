pub mod agents;
pub mod eval;
pub mod io;
pub mod laws;
pub mod logic;
pub mod looping;
pub mod prompt_lab;
pub mod scan;
pub mod select;
pub mod start;
pub mod step;
pub mod text;
pub mod tree;
pub mod ui;
pub mod validate;
