use vstd::prelude::*;

verus! {

/// One square of the board: its column `x`, its row `y`, and whether it blocks movement.
#[derive(Clone, Copy, Debug, PartialEq, Eq, Structural)]
pub struct Cell {
    pub x: usize,
    pub y: usize,
    pub solid: bool,
}

impl Default for Cell {
    fn default() -> (r: Self)
        ensures
            r.x == 0 && r.y == 0 && !r.solid,
    {
        Cell { x: 0, y: 0, solid: false }
    }
}

/// The board: rows of cells indexed `board[y][x]`, its declared size, and the two chosen endpoints.
pub struct GameData {
    pub board: Vec<Vec<Cell>>,
    pub board_size_x: i32,
    pub board_size_y: i32,
    pub point_a: Option<Cell>,
    pub point_b: Option<Cell>,
}

impl GameData {
    /// Declared width, as an integer.
    pub open spec fn width(&self) -> int {
        self.board_size_x as int
    }

    /// Declared height, as an integer.
    pub open spec fn height(&self) -> int {
        self.board_size_y as int
    }

    /// Whether `(x, y)` lies inside the declared bounds.
    pub open spec fn in_bounds(&self, x: int, y: int) -> bool {
        0 <= x < self.width() && 0 <= y < self.height()
    }

    /// The cell stored for `(x, y)`.
    pub open spec fn cell_at(&self, x: int, y: int) -> Cell {
        self.board@[y]@[x]
    }

    /// Whether a route may step onto `(x, y)`: it is in bounds and not solid.
    pub open spec fn passable(&self, x: int, y: int) -> bool {
        self.in_bounds(x, y) && !self.cell_at(x, y).solid
    }

    /// Every in-bounds coordinate pair has a stored cell that carries those coordinates.
    pub open spec fn wf(&self) -> bool {
        &&& 0 <= self.board_size_x
        &&& 0 <= self.board_size_y
        &&& self.board@.len() >= self.height()
        &&& forall|y: int| 0 <= y < self.height() ==> #[trigger] self.board@[y]@.len() >= self.width()
        &&& forall|x: int, y: int|
            self.in_bounds(x, y) ==> (#[trigger] self.cell_at(x, y)).x == x && self.cell_at(x, y).y == y
    }
}

impl Default for GameData {
    fn default() -> (r: Self)
        ensures
            r.board@.len() == 0,
            r.board_size_x == 0,
            r.board_size_y == 0,
            r.point_a.is_none(),
            r.point_b.is_none(),
            r.wf(),
    {
        GameData { board: Vec::new(), board_size_x: 0, board_size_y: 0, point_a: None, point_b: None }
    }
}

/// Relies on rand::random: draws a value from the standard distribution. Nothing is
/// promised of the value drawn.
pub assume_specification<T>[ rand::random::<T> ]() -> (r: T)
    where
        rand::distributions::Standard: rand::distributions::Distribution<T>,
;

/// The board is `width` by `height`, each cell at its own coordinates, and no endpoint is chosen.
pub open spec fn fresh_board(g: GameData, width: int, height: int) -> bool {
    &&& g.board_size_x == width
    &&& g.board_size_y == height
    &&& g.board@.len() == height
    &&& forall|y: int| 0 <= y < height ==> (#[trigger] g.board@[y])@.len() == width
    &&& forall|x: int, y: int| g.in_bounds(x, y) ==> (#[trigger] g.cell_at(x, y)).x == x && g.cell_at(x, y).y == y
    &&& g.point_a is None
    &&& g.point_b is None
    &&& g.wf()
}

impl GameData {
    /// Builds a board of the given size; with `random` each cell is solid by a coin toss,
    /// otherwise every cell is open.
    fn build(width: u16, height: u16, random: bool) -> (r: GameData)
        ensures
            fresh_board(r, width as int, height as int),
            !random ==> forall|x: int, y: int| r.in_bounds(x, y) ==> !(#[trigger] r.cell_at(x, y)).solid,
    {
        let mut board: Vec<Vec<Cell>> = Vec::new();
        let mut y: u16 = 0;
        while y < height
            invariant
                y <= height,
                board@.len() == y,
                forall|j: int| 0 <= j < y ==> (#[trigger] board@[j])@.len() == width,
                forall|i: int, j: int|
                    0 <= j < y && 0 <= i < width ==> (#[trigger] board@[j]@[i]).x == i && board@[j]@[i].y == j
                        && (!random ==> !board@[j]@[i].solid),
            decreases height - y,
        {
            let mut row: Vec<Cell> = Vec::new();
            let mut x: u16 = 0;
            while x < width
                invariant
                    x <= width,
                    row@.len() == x,
                    forall|i: int| 0 <= i < x ==> (#[trigger] row@[i]).x == i && row@[i].y == y && (!random ==> !row@[i].solid),
                decreases width - x,
            {
                let solid = if random {
                    rand::random::<bool>()
                } else {
                    false
                };
                row.push(Cell { x: x as usize, y: y as usize, solid });
                x += 1;
            }
            board.push(row);
            y += 1;
        }
        GameData { board, board_size_x: width as i32, board_size_y: height as i32, point_a: None, point_b: None }
    }

    /// A `width` by `height` board whose cells are all open.
    pub fn open_board(width: u16, height: u16) -> (r: GameData)
        ensures
            fresh_board(r, width as int, height as int),
            forall|x: int, y: int| r.in_bounds(x, y) ==> !(#[trigger] r.cell_at(x, y)).solid,
    {
        GameData::build(width, height, false)
    }

    /// A square board of side `size` whose cells are each solid or open at random.
    pub fn random_board(size: u16) -> (r: GameData)
        ensures
            fresh_board(r, size as int, size as int),
    {
        GameData::build(size, size, true)
    }

    /// Puts an endpoint on the open cell `(x, y)`: the first one when `first`, else the
    /// second. A solid cell is refused and nothing changes. Returns whether it was placed.
    pub fn place_point(&mut self, x: usize, y: usize, first: bool) -> (placed: bool)
        requires
            old(self).wf(),
            old(self).in_bounds(x as int, y as int),
        ensures
            placed == !old(self).cell_at(x as int, y as int).solid,
            final(self).board == old(self).board,
            final(self).board_size_x == old(self).board_size_x,
            final(self).board_size_y == old(self).board_size_y,
            final(self).point_a == (if placed && first {
                Some(Cell { x, y, solid: false })
            } else {
                old(self).point_a
            }),
            final(self).point_b == (if placed && !first {
                Some(Cell { x, y, solid: false })
            } else {
                old(self).point_b
            }),
    {
        if self.board[y][x].solid {
            return false;
        }
        let point = Cell { x, y, solid: false };
        if first {
            self.point_a = Some(point);
        } else {
            self.point_b = Some(point);
        }
        true
    }
}

} // verus!
