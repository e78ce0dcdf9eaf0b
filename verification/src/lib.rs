use vstd::prelude::*;

pub mod font;
pub mod model;
pub mod machine;
pub mod laws;

pub use machine::Emu;
pub use model::Chip8Error;

verus! {

/// Width of the display in cells.
pub const SCREEN_WIDTH: usize = 64;

/// Height of the display in cells.
pub const SCREEN_HEIGHT: usize = 32;

} // verus!
