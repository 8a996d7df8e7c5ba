use crate::components::{GridPos, Handle, WorldPos};
use crate::tile::{seeded_rng, TileDesc};
use rand::rngs::StdRng;
use vstd::prelude::*;

verus! {

pub const BOARD_WIDTH: u32 = 8;

pub const BOARD_HEIGHT: u32 = 8;

/// Side of a tile in world pixels.
pub const TILE_WIDTH: i64 = 64;

pub const TILE_HEIGHT: i64 = 64;

pub const HALF_TILE_WIDTH: i64 = 32;

pub const HALF_TILE_HEIGHT: i64 = 32;

/// Bound on each coordinate of the board's origin, which keeps the pixel
/// arithmetic of the addressing functions inside `i64`.
pub const ORIGIN_LIMIT: i64 = 0x1_0000_0000_0000;

#[derive(Copy, Clone, PartialEq, Eq, Structural, Debug)]
pub enum EngineError {
    /// A coordinate outside the board.
    OutOfBounds,
    /// A cell without a render handle where one was needed.
    MissingBinding,
    /// The board broke one of its invariants, or a guard gave up.
    InvariantViolation,
    /// A swap between cells that are not orthogonal neighbours.
    InvalidSwap,
}

/// The authoritative grid: a descriptor and a render handle per cell, both
/// indexed by `y * width + x`.
pub struct GameBoard {
    pub dimensions: GridPos,
    pub forward: Vec<Option<TileDesc>>,
    pub backward: Vec<Option<Handle>>,
    pub origin: WorldPos,
    pub next_handle: u64,
    pub rng: StdRng,
}

/// Linear index of cell `(x, y)` on a board `w` cells wide.
pub open spec fn index_of(w: int, x: int, y: int) -> int {
    y * w + x
}

pub proof fn lemma_index_in_range(w: int, h: int, x: int, y: int)
    requires
        0 <= x < w,
        0 <= y < h,
    ensures
        0 <= index_of(w, x, y) < w * h,
        index_of(w, x, y) % w == x,
        index_of(w, x, y) / w == y,
{
    assert(0 <= y * w + x < w * h) by (nonlinear_arith)
        requires
            0 <= x < w,
            0 <= y < h,
    ;
    vstd::arithmetic::div_mod::lemma_fundamental_div_mod_converse(y * w + x, w, y, x);
}

pub proof fn lemma_index_split(w: int, h: int, i: int)
    requires
        0 <= i < w * h,
        w > 0,
    ensures
        0 <= i % w < w,
        0 <= i / w < h,
        index_of(w, i % w, i / w) == i,
{
    vstd::arithmetic::div_mod::lemma_fundamental_div_mod(i, w);
    vstd::arithmetic::div_mod::lemma_div_pos_is_pos(i, w);
    vstd::arithmetic::div_mod::lemma_mod_bound(i, w);
    let q = i / w;
    let m = i % w;
    assert(q < h) by (nonlinear_arith)
        requires
            i == w * q + m,
            0 <= m,
            i < w * h,
            w > 0,
    ;
    vstd::arithmetic::mul::lemma_mul_is_commutative(w, q);
}

impl GameBoard {
    pub open spec fn width(&self) -> int {
        self.dimensions.x as int
    }

    pub open spec fn height(&self) -> int {
        self.dimensions.y as int
    }

    pub open spec fn n_cells(&self) -> int {
        self.width() * self.height()
    }

    pub open spec fn in_bounds(&self, p: GridPos) -> bool {
        p.x < self.dimensions.x && p.y < self.dimensions.y
    }

    pub open spec fn index_spec(&self, p: GridPos) -> int {
        index_of(self.width(), p.x as int, p.y as int)
    }

    /// The descriptor at column `x`, row `y`.
    pub open spec fn cell(&self, x: int, y: int) -> Option<TileDesc> {
        self.forward@[index_of(self.width(), x, y)]
    }

    /// The render handle bound at column `x`, row `y`.
    pub open spec fn handle_of(&self, x: int, y: int) -> Option<Handle> {
        self.backward@[index_of(self.width(), x, y)]
    }

    /// Both per-cell arrays have one entry per cell.
    pub open spec fn shape_ok(&self) -> bool {
        &&& self.forward@.len() == self.n_cells()
        &&& self.backward@.len() == self.n_cells()
        &&& -ORIGIN_LIMIT <= self.origin.x <= ORIGIN_LIMIT
        &&& -ORIGIN_LIMIT <= self.origin.y <= ORIGIN_LIMIT
    }

    /// The forward and backward maps agree: a cell holds a descriptor exactly
    /// when it holds a handle, no handle is bound twice, and every bound handle
    /// was issued before `next_handle`.
    pub open spec fn inv(&self) -> bool {
        &&& self.shape_ok()
        &&& forall|i: int|
            0 <= i < self.n_cells() ==> (#[trigger] self.forward@[i]).is_some()
                == self.backward@[i].is_some()
        &&& forall|i: int|
            0 <= i < self.n_cells() && (#[trigger] self.backward@[i]).is_some()
                ==> self.backward@[i].unwrap().0 < self.next_handle
        &&& forall|i: int, j: int|
            0 <= i < self.n_cells() && 0 <= j < self.n_cells() && i != j
                && (#[trigger] self.backward@[i]).is_some() && (#[trigger] self.backward@[j]).is_some()
                ==> self.backward@[i] != self.backward@[j]
    }

    /// Every cell holds a descriptor.
    pub open spec fn is_full(&self) -> bool {
        forall|i: int| 0 <= i < self.n_cells() ==> (#[trigger] self.forward@[i]).is_some()
    }

    /// Room is left to issue a fresh handle for every cell of the board.
    pub open spec fn has_handle_room(&self) -> bool {
        self.next_handle + self.n_cells() <= u64::MAX
    }

    /// An empty board: no cell holds a descriptor or a handle.
    pub fn new(dimensions: GridPos, window_width: u32, window_height: u32, seed: u64) -> (r:
        GameBoard)
        requires
            dimensions.x * dimensions.y <= usize::MAX,
        ensures
            r.inv(),
            r.dimensions == dimensions,
            r.origin == find_origin_spec(window_width as int, window_height as int),
            r.next_handle == 0,
            forall|i: int| 0 <= i < r.n_cells() ==> (#[trigger] r.forward@[i]).is_none(),
    {
        let n = dimensions.x as usize * dimensions.y as usize;
        let mut forward: Vec<Option<TileDesc>> = Vec::new();
        let mut backward: Vec<Option<Handle>> = Vec::new();
        let mut i: usize = 0;
        while i < n
            invariant
                i <= n,
                forward@.len() == i,
                backward@.len() == i,
                forall|k: int| 0 <= k < i ==> (#[trigger] forward@[k]).is_none(),
                forall|k: int| 0 <= k < i ==> (#[trigger] backward@[k]).is_none(),
            decreases n - i,
        {
            forward.push(None);
            backward.push(None);
            i = i + 1;
        }
        GameBoard {
            dimensions,
            forward,
            backward,
            origin: find_origin(window_width, window_height),
            next_handle: 0,
            rng: seeded_rng(seed),
        }
    }

    pub fn width_usize(&self) -> (r: usize)
        ensures
            r == self.width(),
    {
        self.dimensions.x as usize
    }

    pub fn height_usize(&self) -> (r: usize)
        ensures
            r == self.height(),
    {
        self.dimensions.y as usize
    }

    /// Number of cells, `width * height`.
    pub fn len(&self) -> (r: usize)
        requires
            self.shape_ok(),
        ensures
            r == self.n_cells(),
    {
        self.forward.len()
    }

    pub fn in_board(&self, p: GridPos) -> (r: bool)
        ensures
            r == self.in_bounds(p),
    {
        p.x < self.dimensions.x && p.y < self.dimensions.y
    }

    /// Linear index of a cell: `y * width + x`.
    pub fn idx(&self, grid_pos: GridPos) -> (r: usize)
        requires
            self.shape_ok(),
            self.in_bounds(grid_pos),
        ensures
            r == self.index_spec(grid_pos),
            r < self.n_cells(),
    {
        let n = self.forward.len();
        proof {
            lemma_index_in_range(self.width(), self.height(), grid_pos.x as int, grid_pos.y as int);
            assert(grid_pos.y as int * self.width() <= index_of(self.width(), grid_pos.x as int, grid_pos.y as int));
        }
        grid_pos.y as usize * self.dimensions.x as usize + grid_pos.x as usize
    }

    /// The cell of a linear index: `(index % width, index / width)`.
    pub fn find_grid_from_index(&self, index: usize) -> (r: GridPos)
        requires
            self.shape_ok(),
            index < self.n_cells(),
        ensures
            r.x == index as int % self.width(),
            r.y == index as int / self.width(),
            self.in_bounds(r),
            self.index_spec(r) == index,
    {
        proof {
            lemma_index_split(self.width(), self.height(), index as int);
        }
        let w = self.dimensions.x as usize;
        GridPos { x: (index % w) as u32, y: (index / w) as u32 }
    }

    /// The descriptor of a cell; `None` for an empty cell or one off the board.
    pub fn get_tile(&self, grid_pos: GridPos) -> (r: Option<TileDesc>)
        requires
            self.shape_ok(),
        ensures
            r == (if self.in_bounds(grid_pos) {
                self.cell(grid_pos.x as int, grid_pos.y as int)
            } else {
                None
            }),
    {
        if self.in_board(grid_pos) {
            let i = self.idx(grid_pos);
            self.forward[i]
        } else {
            None
        }
    }

    /// The render handle bound to a cell; `None` for an unbound cell or one off the board.
    pub fn get_entity(&self, grid_pos: GridPos) -> (r: Option<Handle>)
        requires
            self.shape_ok(),
        ensures
            r == (if self.in_bounds(grid_pos) {
                self.handle_of(grid_pos.x as int, grid_pos.y as int)
            } else {
                None
            }),
    {
        if self.in_board(grid_pos) {
            let i = self.idx(grid_pos);
            self.backward[i]
        } else {
            None
        }
    }

    /// Writes the descriptor of a cell, leaving its binding alone.
    pub fn set_tile(&mut self, grid_pos: GridPos, tile: Option<TileDesc>) -> (r: Result<(), EngineError>)
        requires
            old(self).shape_ok(),
        ensures
            final(self).shape_ok(),
            final(self).dimensions == old(self).dimensions,
            final(self).backward == old(self).backward,
            final(self).next_handle == old(self).next_handle,
            final(self).origin == old(self).origin,
            old(self).in_bounds(grid_pos) ==> r is Ok && final(self).forward@ == old(self).forward@.update(
                old(self).index_spec(grid_pos),
                tile,
            ),
            !old(self).in_bounds(grid_pos) ==> r == Err::<(), EngineError>(EngineError::OutOfBounds)
                && final(self).forward == old(self).forward,
    {
        if !self.in_board(grid_pos) {
            return Err(EngineError::OutOfBounds);
        }
        let i = self.idx(grid_pos);
        self.forward.set(i, tile);
        Ok(())
    }

    /// Binds a render handle to a cell, replacing any earlier binding.
    pub fn bind(&mut self, grid_pos: GridPos, handle: Handle) -> (r: Result<(), EngineError>)
        requires
            old(self).shape_ok(),
        ensures
            final(self).shape_ok(),
            final(self).dimensions == old(self).dimensions,
            final(self).forward == old(self).forward,
            final(self).next_handle == old(self).next_handle,
            final(self).origin == old(self).origin,
            old(self).in_bounds(grid_pos) ==> r is Ok && final(self).backward@ == old(self).backward@.update(
                old(self).index_spec(grid_pos),
                Some(handle),
            ),
            !old(self).in_bounds(grid_pos) ==> r == Err::<(), EngineError>(EngineError::OutOfBounds)
                && final(self).backward == old(self).backward,
    {
        if !self.in_board(grid_pos) {
            return Err(EngineError::OutOfBounds);
        }
        let i = self.idx(grid_pos);
        self.backward.set(i, Some(handle));
        Ok(())
    }

    /// Removes and returns the render handle of a cell.
    pub fn unbind(&mut self, grid_pos: GridPos) -> (r: Result<Handle, EngineError>)
        requires
            old(self).shape_ok(),
        ensures
            final(self).shape_ok(),
            final(self).dimensions == old(self).dimensions,
            final(self).forward == old(self).forward,
            final(self).next_handle == old(self).next_handle,
            final(self).origin == old(self).origin,
            !old(self).in_bounds(grid_pos) ==> r == Err::<Handle, EngineError>(EngineError::OutOfBounds)
                && final(self).backward == old(self).backward,
            old(self).in_bounds(grid_pos) ==> match old(self).handle_of(grid_pos.x as int, grid_pos.y as int) {
                Some(h) => r == Ok::<Handle, EngineError>(h) && final(self).backward@ == old(self).backward@.update(
                    old(self).index_spec(grid_pos),
                    None,
                ),
                None => r == Err::<Handle, EngineError>(EngineError::MissingBinding) && final(self).backward == old(self).backward,
            },
    {
        if !self.in_board(grid_pos) {
            return Err(EngineError::OutOfBounds);
        }
        let i = self.idx(grid_pos);
        match self.backward[i] {
            Some(h) => {
                self.backward.set(i, None);
                Ok(h)
            },
            None => Err(EngineError::MissingBinding),
        }
    }
}

/// Top-left corner of a board of the standard size, centred vertically in a
/// window and kept off its right edge by the same margin; half pixels round down.
pub open spec fn find_origin_spec(window_width: int, window_height: int) -> WorldPos {
    let board_height = BOARD_HEIGHT as int * TILE_HEIGHT;
    let board_width = BOARD_WIDTH as int * TILE_WIDTH;
    let top_margin = window_height / 2 - board_height / 2;
    WorldPos { x: (window_width / 2 - (top_margin + board_width)) as i64, y: (-(board_height / 2)) as i64 }
}

pub fn find_origin(window_width: u32, window_height: u32) -> (r: WorldPos)
    ensures
        r == find_origin_spec(window_width as int, window_height as int),
        -ORIGIN_LIMIT <= r.x <= ORIGIN_LIMIT,
        -ORIGIN_LIMIT <= r.y <= ORIGIN_LIMIT,
{
    let board_height: i64 = BOARD_HEIGHT as i64 * TILE_HEIGHT;
    let board_width: i64 = BOARD_WIDTH as i64 * TILE_WIDTH;
    let top_margin: i64 = window_height as i64 / 2 - board_height / 2;
    WorldPos { x: window_width as i64 / 2 - (top_margin + board_width), y: -(board_height / 2) }
}

} // verus!
