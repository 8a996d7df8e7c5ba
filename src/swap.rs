use crate::board::{EngineError, GameBoard};
use crate::components::{l_distance, GridPos, WorldPos};
use vstd::prelude::*;

verus! {

/// The one cell that the player has selected, if any.
#[derive(Copy, Clone, PartialEq, Eq, Structural, Debug)]
pub struct SelectedTile(pub GridPos);

impl SelectedTile {
    pub fn as_uvec2(&self) -> (r: GridPos)
        ensures
            r == self.0,
    {
        self.0
    }
}

#[derive(Copy, Clone, PartialEq, Eq, Structural, Debug)]
pub enum SwapResult {
    Applied,
    Rejected(EngineError),
}

/// What a click did: the selection that follows it and whether two tiles swapped.
#[derive(Copy, Clone, PartialEq, Eq, Structural, Debug)]
pub struct ClickOutcome {
    pub selected: Option<SelectedTile>,
    pub swapped: bool,
}

/// The selection after a click on `clicked` (`None`: off the board): a click off
/// the board, on the selected cell, or on its neighbour clears the selection;
/// any other cell becomes the selection.
pub open spec fn next_selection(selected: Option<SelectedTile>, clicked: Option<GridPos>) -> Option<SelectedTile> {
    match clicked {
        None => None,
        Some(c) => match selected {
            None => Some(SelectedTile(c)),
            Some(s) => if l_distance(c, s.0) <= 1 {
                None
            } else {
                Some(SelectedTile(c))
            },
        },
    }
}

/// A click swaps when it lands on an orthogonal neighbour of the selected cell.
pub open spec fn click_swaps(selected: Option<SelectedTile>, clicked: Option<GridPos>) -> bool {
    match (selected, clicked) {
        (Some(s), Some(c)) => l_distance(c, s.0) == 1,
        _ => false,
    }
}

impl GameBoard {
    /// The board with the contents (descriptor and handle) of cells `a` and `b` exchanged.
    pub open spec fn swapped_with(&self, other: &GameBoard, a: GridPos, b: GridPos) -> bool {
        let ia = self.index_spec(a);
        let ib = self.index_spec(b);
        &&& other.forward@ == self.forward@.update(ia, self.forward@[ib]).update(ib, self.forward@[ia])
        &&& other.backward@ == self.backward@.update(ia, self.backward@[ib]).update(ib, self.backward@[ia])
    }

    /// Exchanges the tiles of two orthogonally adjacent cells, with their handles.
    pub fn request_swap(&mut self, a: GridPos, b: GridPos) -> (r: SwapResult)
        requires
            old(self).inv(),
        ensures
            final(self).inv(),
            final(self).dimensions == old(self).dimensions,
            final(self).origin == old(self).origin,
            final(self).next_handle == old(self).next_handle,
            !(old(self).in_bounds(a) && old(self).in_bounds(b)) ==> r == SwapResult::Rejected(
                EngineError::OutOfBounds,
            ) && *final(self) == *old(self),
            old(self).in_bounds(a) && old(self).in_bounds(b) && l_distance(a, b) != 1 ==> r
                == SwapResult::Rejected(EngineError::InvalidSwap) && *final(self) == *old(self),
            old(self).in_bounds(a) && old(self).in_bounds(b) && l_distance(a, b) == 1 ==> r
                == SwapResult::Applied && old(self).swapped_with(final(self), a, b),
            old(self).is_full() ==> final(self).is_full(),
    {
        if !self.in_board(a) || !self.in_board(b) {
            return SwapResult::Rejected(EngineError::OutOfBounds);
        }
        if a.ldistance(b) != 1 {
            return SwapResult::Rejected(EngineError::InvalidSwap);
        }
        let ia = self.idx(a);
        let ib = self.idx(b);
        let ghost f0 = self.forward@;
        let ghost b0 = self.backward@;
        let ta = self.forward[ia];
        let tb = self.forward[ib];
        let ha = self.backward[ia];
        let hb = self.backward[ib];
        self.forward.set(ia, tb);
        self.forward.set(ib, ta);
        self.backward.set(ia, hb);
        self.backward.set(ib, ha);
        proof {
            let n = self.n_cells();
            let src = |i: int|
                if i == ia {
                    ib as int
                } else if i == ib {
                    ia as int
                } else {
                    i
                };
            assert forall|i: int| 0 <= i < n implies (#[trigger] self.forward@[i] == f0[src(i)])
                && self.backward@[i] == b0[src(i)] && 0 <= src(i) < n by {}
            assert forall|i: int, j: int|
                0 <= i < n && 0 <= j < n && i != j && (#[trigger] self.backward@[i]).is_some() && (
                #[trigger] self.backward@[j]).is_some() implies self.backward@[i] != self.backward@[j] by {
                assert(self.backward@[i] == b0[src(i)]);
                assert(self.backward@[j] == b0[src(j)]);
            }
            assert(forall|i: int| 0 <= i < n ==> (#[trigger] self.forward@[i]).is_some() == f0[src(i)].is_some());
        }
        SwapResult::Applied
    }

    /// The selection protocol on a clicked cell (`None`: a click off the board).
    /// A click with nothing selected selects the cell; a click on the selected
    /// cell deselects it; a click on an orthogonal neighbour swaps the two tiles
    /// and clears the selection; any other cell becomes the selection.
    pub fn click_cell(&mut self, selected: Option<SelectedTile>, clicked: Option<GridPos>) -> (r: ClickOutcome)
        requires
            old(self).inv(),
            selected matches Some(s) ==> old(self).in_bounds(s.0),
            clicked matches Some(c) ==> old(self).in_bounds(c),
        ensures
            final(self).inv(),
            final(self).dimensions == old(self).dimensions,
            final(self).origin == old(self).origin,
            final(self).next_handle == old(self).next_handle,
            r.selected == next_selection(selected, clicked),
            r.swapped == click_swaps(selected, clicked),
            r.swapped ==> old(self).swapped_with(final(self), selected.unwrap().0, clicked.unwrap()),
            !r.swapped ==> *final(self) == *old(self),
            old(self).is_full() ==> final(self).is_full(),
    {
        match clicked {
            None => ClickOutcome { selected: None, swapped: false },
            Some(grid_pos) => match selected {
                None => ClickOutcome { selected: Some(SelectedTile(grid_pos)), swapped: false },
                Some(s) => {
                    let selected_pos = s.as_uvec2();
                    let distance = grid_pos.ldistance(selected_pos);
                    if distance == 0 {
                        ClickOutcome { selected: None, swapped: false }
                    } else if distance == 1 {
                        self.request_swap(selected_pos, grid_pos);
                        proof {
                            assert(l_distance(selected_pos, grid_pos) == l_distance(grid_pos, selected_pos));
                        }
                        ClickOutcome { selected: None, swapped: true }
                    } else {
                        ClickOutcome { selected: Some(SelectedTile(grid_pos)), swapped: false }
                    }
                },
            },
        }
    }

    /// The selection protocol on a click at a world point.
    pub fn click_processor(&mut self, selected: Option<SelectedTile>, position: WorldPos) -> (r: ClickOutcome)
        requires
            old(self).inv(),
            selected matches Some(s) ==> old(self).in_bounds(s.0),
        ensures
            final(self).inv(),
            final(self).dimensions == old(self).dimensions,
            final(self).next_handle == old(self).next_handle,
            r.selected == next_selection(selected, old(self).cell_at_world(position)),
            r.swapped == click_swaps(selected, old(self).cell_at_world(position)),
            r.swapped ==> old(self).swapped_with(
                final(self),
                selected.unwrap().0,
                old(self).cell_at_world(position).unwrap(),
            ),
            !r.swapped ==> *final(self) == *old(self),
            final(self).origin == old(self).origin,
            old(self).is_full() ==> final(self).is_full(),
    {
        let clicked = self.find_grid_from_world(position);
        self.click_cell(selected, clicked)
    }
}

} // verus!
