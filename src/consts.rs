use vstd::prelude::*;

verus! {

/// Number of rows of the board that a fresh session starts with.
pub const MAX_BOARD_HEIGHT: usize = 20;

/// Number of columns of the board that a fresh session starts with.
pub const MAX_BOARD_WIDTH: usize = 20;

} // verus!
