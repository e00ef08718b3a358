//! Conway's Game of Life: a toroidal board stepper, a text-format board
//! parser, a viewport layout engine, and a flat-frame renderer.

pub mod board;
pub mod config;
pub mod layout;
pub mod life;
pub mod parse;
pub mod render;

pub use board::Board;
pub use config::anchor_from_code;
pub use config::Anchor;
pub use config::Config;
pub use layout::calculate_anchored_padding;
pub use parse::mkboard;
pub use render::board_as_str;
pub use layout::calculate_padding;
pub use layout::Padding;
pub use life::neighbors;
pub use life::tick;
