use vstd::prelude::*;
use crate::grid::{Cell, GameData};

verus! {

/// How a square of the board is drawn.
#[derive(Clone, Copy, Debug, PartialEq, Eq, Structural)]
pub enum Button {
    Empty,
    Solid,
    Open,
    Closed,
    Path,
    Point,
}

/// Whether `path` holds a cell equal to `c`.
pub open spec fn on_path(path: Seq<Cell>, c: Cell) -> bool {
    exists|i: int| 0 <= i < path.len() && path[i] == c
}

/// How the cell at `(x, y)` is drawn: a cell on the found path as path, else an endpoint
/// as a point, else solid or empty.
pub open spec fn style_of(game: &GameData, path: Seq<Cell>, x: int, y: int) -> Button {
    if on_path(path, game.cell_at(x, y)) {
        Button::Path
    } else if (game.point_a matches Some(a) && a.x == x && a.y == y) || (game.point_b matches Some(
        b,
    ) && b.x == x && b.y == y) {
        Button::Point
    } else if game.cell_at(x, y).solid {
        Button::Solid
    } else {
        Button::Empty
    }
}

/// The style of the square at `(x, y)`, given the route found last.
pub fn cell_style(game: &GameData, path: &Vec<Cell>, x: usize, y: usize) -> (r: Button)
    requires
        game.wf(),
        game.in_bounds(x as int, y as int),
    ensures
        r == style_of(game, path@, x as int, y as int),
{
    let cell = game.board[y][x];
    let mut i: usize = 0;
    while i < path.len()
        invariant
            i <= path.len(),
            cell == game.cell_at(x as int, y as int),
            forall|j: int| 0 <= j < i ==> #[trigger] path@[j] != cell,
        decreases path.len() - i,
    {
        if path[i] == cell {
            return Button::Path;
        }
        i += 1;
    }
    let mut style = if cell.solid {
        Button::Solid
    } else {
        Button::Empty
    };
    if let Some(a) = &game.point_a {
        if a.x == x && a.y == y {
            style = Button::Point;
        }
    }
    if let Some(b) = &game.point_b {
        if b.x == x && b.y == y {
            style = Button::Point;
        }
    }
    style
}

} // verus!
