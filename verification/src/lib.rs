//! Pictures for the terminal and a Markdown mirror of book annotations.
pub mod image;
pub mod text;
pub mod book;
pub mod export;
pub mod order;
pub mod vault;
