use vstd::prelude::*;

verus! {

/// A cell of the grid: column `x`, row `y`, row 0 at the bottom.
#[derive(Copy, Clone, PartialEq, Eq, Structural, Debug)]
pub struct GridPos {
    pub x: u32,
    pub y: u32,
}

/// Opaque identifier of the renderable that the presentation layer keeps for a tile.
#[derive(Copy, Clone, PartialEq, Eq, Structural, Debug)]
pub struct Handle(pub u64);

/// A point of the world plane, in whole pixels.
#[derive(Copy, Clone, PartialEq, Eq, Structural, Debug)]
pub struct WorldPos {
    pub x: i64,
    pub y: i64,
}

pub open spec fn abs_diff(a: u32, b: u32) -> nat {
    if a >= b {
        (a - b) as nat
    } else {
        (b - a) as nat
    }
}

/// Manhattan distance between two cells.
pub open spec fn l_distance(a: GridPos, b: GridPos) -> nat {
    abs_diff(a.x, b.x) + abs_diff(a.y, b.y)
}

/// Chebyshev distance between two cells.
pub open spec fn c_distance(a: GridPos, b: GridPos) -> nat {
    if abs_diff(a.x, b.x) >= abs_diff(a.y, b.y) {
        abs_diff(a.x, b.x)
    } else {
        abs_diff(a.y, b.y)
    }
}

fn u32_abs_diff(a: u32, b: u32) -> (r: u32)
    ensures
        r == abs_diff(a, b),
{
    if a >= b {
        a - b
    } else {
        b - a
    }
}

impl GridPos {
    pub fn new(x: u32, y: u32) -> (r: GridPos)
        ensures
            r.x == x && r.y == y,
    {
        GridPos { x, y }
    }

    /// Number of orthogonal steps between `self` and `rhs`.
    pub fn ldistance(&self, rhs: GridPos) -> (r: u64)
        ensures
            r == l_distance(*self, rhs),
    {
        u32_abs_diff(self.x, rhs.x) as u64 + u32_abs_diff(self.y, rhs.y) as u64
    }

    /// Number of king moves between `self` and `rhs`.
    pub fn cdistance(&self, rhs: GridPos) -> (r: u64)
        ensures
            r == c_distance(*self, rhs),
    {
        let dx = u32_abs_diff(self.x, rhs.x) as u64;
        let dy = u32_abs_diff(self.y, rhs.y) as u64;
        if dx >= dy {
            dx
        } else {
            dy
        }
    }
}

/// The cell that a tile stands on.
#[derive(Copy, Clone, PartialEq, Eq, Structural, Debug)]
pub struct TilePosition(pub GridPos);

impl TilePosition {
    pub fn grid(&self) -> (r: GridPos)
        ensures
            r == self.0,
    {
        self.0
    }

    /// Component-wise sum of two positions.
    pub fn add(self, rhs: TilePosition) -> (r: TilePosition)
        requires
            self.0.x + rhs.0.x <= u32::MAX,
            self.0.y + rhs.0.y <= u32::MAX,
        ensures
            r.0.x == self.0.x + rhs.0.x,
            r.0.y == self.0.y + rhs.0.y,
    {
        TilePosition(GridPos { x: self.0.x + rhs.0.x, y: self.0.y + rhs.0.y })
    }

    /// Component-wise difference of two positions, stopping at zero.
    pub fn sub(self, rhs: TilePosition) -> (r: TilePosition)
        ensures
            r.0.x == (if self.0.x >= rhs.0.x { self.0.x - rhs.0.x } else { 0 }),
            r.0.y == (if self.0.y >= rhs.0.y { self.0.y - rhs.0.y } else { 0 }),
    {
        TilePosition(GridPos { x: self.0.x.saturating_sub(rhs.0.x), y: self.0.y.saturating_sub(rhs.0.y) })
    }
}

} // verus!
