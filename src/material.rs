use vstd::prelude::*;

use crate::grid::{Grid, GridView};

verus! {

/// A cell coordinate: `x` counts columns from the left, `y` rows from the top.
#[derive(Clone, Copy, Debug, PartialEq, Eq, Structural)]
pub struct Position {
    pub x: usize,
    pub y: usize,
}

impl Position {
    pub fn new(x: usize, y: usize) -> (r: Position)
        ensures
            r.x == x,
            r.y == y,
    {
        Position { x, y }
    }
}

/// An RGB colour used to render a particle.
#[derive(Clone, Copy, Debug, PartialEq, Eq, Structural)]
pub struct Color {
    pub r: u8,
    pub g: u8,
    pub b: u8,
}

/// Granular material: falls straight down, else slides diagonally down-left,
/// else diagonally down-right, else rests.
#[derive(Clone, Copy, Debug, PartialEq, Eq, Structural)]
pub struct Sand;

/// The colour in which sand is drawn.
pub open spec fn sand_color() -> Color {
    Color { r: 198, g: 178, b: 128 }
}

impl Sand {
    /// Where a grain of sand at `(x, y)` goes in the next tick of `g`.
    pub open spec fn target(self, g: GridView, x: int, y: int) -> (int, int) {
        if g.is_free(x, y + 1) {
            (x, y + 1)
        } else if g.is_free(x - 1, y + 1) {
            (x - 1, y + 1)
        } else if g.is_free(x + 1, y + 1) {
            (x + 1, y + 1)
        } else {
            (x, y)
        }
    }

    /// The next position of a grain at `position`, decided on the current grid.
    pub fn update(&self, grid: &Grid, position: Position) -> (r: Position)
        requires
            grid.wf(),
            grid@.in_bounds(position.x as int, position.y as int),
        ensures
            (r.x as int, r.y as int) == self.target(grid@, position.x as int, position.y as int),
            grid@.in_bounds(r.x as int, r.y as int),
    {
        let x = position.x;
        let y = position.y;
        let width = grid.width();
        let height = grid.height();
        if y + 1 < height {
            if grid.get(Position::new(x, y + 1)).is_none() {
                return Position::new(x, y + 1);
            }
            if x > 0 && grid.get(Position::new(x - 1, y + 1)).is_none() {
                return Position::new(x - 1, y + 1);
            }
            if x + 1 < width && grid.get(Position::new(x + 1, y + 1)).is_none() {
                return Position::new(x + 1, y + 1);
            }
        }
        position
    }

    /// The colour in which sand is drawn.
    pub fn color(&self) -> (r: Color)
        ensures
            r == sand_color(),
    {
        Color { r: 198, g: 178, b: 128 }
    }
}

/// The kinds of particle a cell can hold.
#[derive(Clone, Copy, Debug, PartialEq, Eq, Structural)]
pub enum Material {
    Sand(Sand),
}

impl Material {
    /// Where a particle of this material at `(x, y)` goes in the next tick of `g`.
    pub open spec fn target(self, g: GridView, x: int, y: int) -> (int, int) {
        match self {
            Material::Sand(s) => s.target(g, x, y),
        }
    }

    pub open spec fn spec_color(self) -> Color {
        match self {
            Material::Sand(_) => sand_color(),
        }
    }

    /// The position this particle, standing at `position`, moves to next tick.
    pub fn next_position(&self, grid: &Grid, position: Position) -> (r: Position)
        requires
            grid.wf(),
            grid@.in_bounds(position.x as int, position.y as int),
        ensures
            (r.x as int, r.y as int) == self.target(grid@, position.x as int, position.y as int),
            grid@.in_bounds(r.x as int, r.y as int),
    {
        match self {
            Material::Sand(s) => s.update(grid, position),
        }
    }

    /// The colour in which this material is drawn.
    pub fn color(&self) -> (r: Color)
        ensures
            r == self.spec_color(),
    {
        match self {
            Material::Sand(s) => s.color(),
        }
    }
}

} // verus!
