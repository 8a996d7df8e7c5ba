use crate::board::{
    GameBoard, HALF_TILE_HEIGHT, HALF_TILE_WIDTH, TILE_HEIGHT, TILE_WIDTH,
};
use crate::components::{GridPos, WorldPos};
use vstd::prelude::*;

verus! {

/// Centre of a cell relative to the board's corner, in pixels.
pub open spec fn local_of(p: GridPos) -> WorldPos {
    WorldPos {
        x: (p.x as int * TILE_WIDTH + HALF_TILE_WIDTH) as i64,
        y: (p.y as int * TILE_HEIGHT + HALF_TILE_HEIGHT) as i64,
    }
}

impl GameBoard {
    /// The cell under a world point: the point is taken relative to the board's
    /// corner, and any point outside `[0, width * TILE_WIDTH) x [0, height * TILE_HEIGHT)`
    /// is on no cell.
    pub open spec fn cell_at_world(&self, position: WorldPos) -> Option<GridPos> {
        let gx = position.x - HALF_TILE_WIDTH - self.origin.x;
        let gy = position.y - HALF_TILE_HEIGHT - self.origin.y;
        if 0 <= gx < self.width() * TILE_WIDTH && 0 <= gy < self.height() * TILE_HEIGHT {
            Some(GridPos { x: (gx / (TILE_WIDTH as int)) as u32, y: (gy / (TILE_HEIGHT as int)) as u32 })
        } else {
            None
        }
    }

    /// Pixel offset of the board's corner in the world.
    pub open spec fn offsets_spec(&self) -> WorldPos {
        WorldPos {
            x: (HALF_TILE_WIDTH + self.origin.x) as i64,
            y: (HALF_TILE_HEIGHT + self.origin.y) as i64,
        }
    }

    /// Centre of a cell relative to the board's corner.
    pub fn find_local_from_grid(&self, position: GridPos) -> (r: WorldPos)
        ensures
            r == local_of(position),
    {
        WorldPos {
            x: position.x as i64 * TILE_WIDTH + HALF_TILE_WIDTH,
            y: position.y as i64 * TILE_HEIGHT + HALF_TILE_HEIGHT,
        }
    }

    /// Centre of a cell relative to the board's corner (tiles are square).
    pub fn get_board_pos(&self, grid_pos: GridPos) -> (r: WorldPos)
        ensures
            r == local_of(grid_pos),
    {
        self.find_local_from_grid(grid_pos)
    }

    pub fn get_offsets(&self) -> (r: WorldPos)
        requires
            self.shape_ok(),
        ensures
            r == self.offsets_spec(),
    {
        WorldPos { x: HALF_TILE_WIDTH + self.origin.x, y: HALF_TILE_HEIGHT + self.origin.y }
    }

    /// World point of a cell as the renderer draws it, rows growing downwards.
    pub fn get_world_pos(&self, grid_pos: GridPos) -> (r: WorldPos)
        requires
            self.shape_ok(),
        ensures
            r.x == grid_pos.x as int * TILE_WIDTH + self.offsets_spec().x,
            r.y == -(grid_pos.y as int * TILE_HEIGHT + self.offsets_spec().y),
    {
        let offsets = self.get_offsets();
        WorldPos {
            x: grid_pos.x as i64 * TILE_WIDTH + offsets.x,
            y: -(grid_pos.y as i64 * TILE_HEIGHT + offsets.y),
        }
    }

    /// The cell under a world point, as a linear index.
    pub fn find_index_from_world(&self, position: WorldPos) -> (r: Option<usize>)
        requires
            self.shape_ok(),
        ensures
            r == (match self.cell_at_world(position) {
                Some(p) => Some(self.index_spec(p) as usize),
                None => None,
            }),
            r matches Some(i) ==> i < self.n_cells(),
    {
        match self.find_grid_from_world(position) {
            Some(p) => Some(self.idx(p)),
            None => None,
        }
    }

    /// The cell under a world point; `None` off the board.
    pub fn find_grid_from_world(&self, position: WorldPos) -> (r: Option<GridPos>)
        requires
            self.shape_ok(),
        ensures
            r == self.cell_at_world(position),
            r matches Some(p) ==> self.in_bounds(p),
    {
        let gx: i128 = position.x as i128 - HALF_TILE_WIDTH as i128 - self.origin.x as i128;
        let gy: i128 = position.y as i128 - HALF_TILE_HEIGHT as i128 - self.origin.y as i128;
        let tw: i128 = TILE_WIDTH as i128;
        let th: i128 = TILE_HEIGHT as i128;
        let board_width: i128 = self.dimensions.x as i128 * tw;
        let board_height: i128 = self.dimensions.y as i128 * th;
        if gx < 0 || gx >= board_width || gy < 0 || gy >= board_height {
            return None;
        }
        let cx: i128 = gx / tw;
        let cy: i128 = gy / th;
        assert(cx < self.width());
        assert(cy < self.height());
        Some(GridPos { x: cx as u32, y: cy as u32 })
    }
}

} // verus!
