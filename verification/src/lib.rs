pub mod markdown;
pub mod shortcuts;
pub mod text;
pub mod theme;
pub mod tree;
pub mod viewer;
