pub mod order;
pub mod output;
pub mod paths;
pub mod scanner;
pub mod text;
pub mod tree;
pub mod ui;
