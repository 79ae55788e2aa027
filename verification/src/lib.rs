//! Generative-art building blocks: L-system expansion, argument parsing and
//! the small integer rules that drive the drawings.

pub mod arguments;
pub mod color;
pub mod lsystem;
pub mod pieces;
pub mod text;
pub mod texture;
