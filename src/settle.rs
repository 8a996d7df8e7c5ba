use crate::board::{find_origin_spec, index_of, lemma_index_in_range, lemma_index_split, EngineError, GameBoard};
use crate::components::{GridPos, Handle};
use crate::gravity::{
    collapsed, despawn_events, lemma_packed_len, lemma_packed_member, moved_source, moved_target, packed, BoardEvent, Slot,
};
use crate::tile::{color_ordinal, is_rolled, mark_ordinal, TileDesc, ROLLED_COLORS, ROLLED_MARKS};
use crate::laws::lemma_bijection;
use crate::matching::MIN_MATCH_LENGTH;
use vstd::prelude::*;

verus! {

/// Rounds of re-rolling that a new board may take before its creation gives up.
pub const MAX_REROLL_ROUNDS: u32 = 1000;

/// Whether any entry of `mask` is set.
pub fn any_marked(mask: &Vec<bool>) -> (r: bool)
    ensures
        r == exists|i: int| 0 <= i < mask@.len() && #[trigger] mask@[i],
{
    let mut i: usize = 0;
    while i < mask.len()
        invariant
            i <= mask@.len(),
            forall|k: int| 0 <= k < i ==> !#[trigger] mask@[k],
        decreases mask@.len() - i,
    {
        if mask[i] {
            return true;
        }
        i = i + 1;
    }
    false
}

impl GameBoard {
    proof fn lemma_unmarked_mask_means_no_matches(&self, mask: Seq<bool>)
        requires
            self.shape_ok(),
            self.is_match_mask(mask),
            !(exists|i: int| 0 <= i < mask.len() && #[trigger] mask[i]),
        ensures
            self.no_matches(),
    {
        assert forall|x: int, y: int| 0 <= x < self.width() && 0 <= y < self.height() implies !#[trigger] self.matched(
            x,
            y,
        ) by {
            lemma_index_in_range(self.width(), self.height(), x, y);
            assert(!mask[index_of(self.width(), x, y)]);
        }
    }

    /// Cell `i` holds `tiles[i]` and is bound to handle `i`.
    pub open spec fn laid_out(&self, tiles: Seq<TileDesc>) -> bool {
        forall|i: int|
            0 <= i < tiles.len() ==> #[trigger] self.forward@[i] == Some(tiles[i]) && self.backward@[i] == Some(
                Handle(i as u64),
            )
    }

    proof fn lemma_marked_mask_means_matches(&self, mask: Seq<bool>)
        requires
            self.shape_ok(),
            self.is_match_mask(mask),
            exists|i: int| 0 <= i < mask.len() && #[trigger] mask[i],
        ensures
            !self.no_matches(),
    {
        let i = choose|i: int| 0 <= i < mask.len() && #[trigger] mask[i];
        assert(self.width() > 0) by {
            if self.width() == 0 {
                assert(self.n_cells() == 0);
            }
        }
        lemma_index_split(self.width(), self.height(), i);
        assert(mask[index_of(self.width(), i % self.width(), i / self.width())]);
        assert(self.matched(i % self.width(), i / self.width()));
    }

    /// A board laid out from the given descriptors, in index order, each bound to
    /// a fresh handle: the handle of cell `i` is `i`. `None` when the number of
    /// descriptors is not `width * height`.
    pub fn from_tiles(
        dimensions: GridPos,
        tiles: Vec<TileDesc>,
        window_width: u32,
        window_height: u32,
        seed: u64,
    ) -> (r: Option<GameBoard>)
        ensures
            (tiles@.len() == dimensions.x * dimensions.y) <==> r.is_some(),
            r matches Some(b) ==> b.inv() && b.is_full(),
            r matches Some(b) ==> b.dimensions == dimensions && b.next_handle == tiles@.len(),
            r matches Some(b) ==> b.origin == find_origin_spec(window_width as int, window_height as int),
            r matches Some(b) ==> b.laid_out(tiles@),
    {
        let wx = dimensions.x as u64;
        let hy = dimensions.y as u64;
        assert(wx * hy <= 0xffff_ffff * 0xffff_ffffu64) by (nonlinear_arith)
            requires
                wx <= 0xffff_ffff,
                hy <= 0xffff_ffff,
        ;
        if tiles.len() as u64 != wx * hy {
            return None;
        }
        let mut board = GameBoard::new(dimensions, window_width, window_height, seed);
        let n = board.len();
        let mut i: usize = 0;
        while i < n
            invariant
                board.inv(),
                board.dimensions == dimensions,
                board.origin == find_origin_spec(window_width as int, window_height as int),
                n == board.n_cells(),
                n == tiles@.len(),
                i <= n,
                board.next_handle == i,
                forall|k: int|
                    0 <= k < i ==> #[trigger] board.forward@[k] == Some(tiles@[k]) && board.backward@[k] == Some(
                        Handle(k as u64),
                    ),
                forall|k: int| i <= k < n ==> (#[trigger] board.forward@[k]).is_none(),
            decreases n - i,
        {
            board.place_new_tile(i, tiles[i]);
            i = i + 1;
        }
        assert(board.is_full()) by {
            assert forall|k: int| 0 <= k < n implies (#[trigger] board.forward@[k]).is_some() by {
                assert(board.forward@[k] == Some(tiles@[k]));
            }
        }
        assert(board.next_handle == tiles@.len());
        assert(board.laid_out(tiles@));
        Some(board)
    }

    /// Rolls a random descriptor, with a fresh handle, into every cell of a board
    /// whose cells are all empty.
    pub fn populate(&mut self)
        requires
            old(self).inv(),
            old(self).has_handle_room(),
            forall|i: int| 0 <= i < old(self).n_cells() ==> (#[trigger] old(self).forward@[i]).is_none(),
        ensures
            final(self).inv(),
            final(self).is_full(),
            final(self).dimensions == old(self).dimensions,
            final(self).origin == old(self).origin,
            final(self).next_handle == old(self).next_handle + old(self).n_cells(),
    {
        let n = self.len();
        let mut i: usize = 0;
        while i < n
            invariant
                self.inv(),
                self.dimensions == old(self).dimensions,
                self.origin == old(self).origin,
                n == self.n_cells(),
                i <= n,
                self.next_handle == old(self).next_handle + i,
                old(self).has_handle_room(),
                forall|k: int| 0 <= k < i ==> (#[trigger] self.forward@[k]).is_some(),
                forall|k: int| i <= k < n ==> (#[trigger] self.forward@[k]).is_none(),
            decreases n - i,
        {
            let tile = TileDesc::new(&mut self.rng);
            self.place_new_tile(i, tile);
            i = i + 1;
        }
    }

    /// Writes `tiles[i]` into every marked cell `i`, in place: bindings stay
    /// where they are and unmarked cells keep their descriptors.
    pub fn reroll_marked(&mut self, mask: &Vec<bool>, tiles: &Vec<TileDesc>)
        requires
            old(self).inv(),
            old(self).is_full(),
            mask@.len() == old(self).n_cells(),
            tiles@.len() == old(self).n_cells(),
        ensures
            final(self).inv(),
            final(self).is_full(),
            final(self).dimensions == old(self).dimensions,
            final(self).origin == old(self).origin,
            final(self).next_handle == old(self).next_handle,
            final(self).backward == old(self).backward,
            forall|i: int|
                0 <= i < old(self).n_cells() ==> #[trigger] final(self).forward@[i] == if mask@[i] {
                    Some(tiles@[i])
                } else {
                    old(self).forward@[i]
                },
    {
        let n = self.len();
        let mut i: usize = 0;
        while i < n
            invariant
                self.inv(),
                self.is_full(),
                self.dimensions == old(self).dimensions,
                self.origin == old(self).origin,
                self.next_handle == old(self).next_handle,
                self.backward == old(self).backward,
                n == self.n_cells(),
                old(self).forward@.len() == n,
                mask@.len() == n,
                tiles@.len() == n,
                i <= n,
                forall|k: int|
                    0 <= k < n ==> #[trigger] self.forward@[k] == if k < i && mask@[k] {
                        Some(tiles@[k])
                    } else {
                        old(self).forward@[k]
                    },
            decreases n - i,
        {
            if mask[i] {
                let ghost f0 = self.forward@;
                self.forward.set(i, Some(tiles[i]));
                assert(forall|k: int| 0 <= k < n && k != i ==> #[trigger] self.forward@[k] == f0[k]);
                assert(forall|k: int| 0 <= k < n ==> (#[trigger] self.forward@[k]).is_some() == f0[k].is_some());
            }
            i = i + 1;
        }
    }

    /// One round of re-rolling: when some cell lies in a run, every such cell
    /// gets a fresh random descriptor in place and the call returns `true`;
    /// a cell in no run keeps its descriptor, and bindings stay where they are.
    pub fn reroll_matches(&mut self) -> (rerolled: bool)
        requires
            old(self).inv(),
            old(self).is_full(),
        ensures
            final(self).inv(),
            final(self).is_full(),
            final(self).dimensions == old(self).dimensions,
            final(self).origin == old(self).origin,
            final(self).next_handle == old(self).next_handle,
            final(self).backward == old(self).backward,
            rerolled == !old(self).no_matches(),
            !rerolled ==> *final(self) == *old(self),
            forall|x: int, y: int|
                0 <= x < old(self).width() && 0 <= y < old(self).height() && !old(self).matched(x, y)
                    ==> #[trigger] final(self).cell(x, y) == old(self).cell(x, y),
            forall|x: int, y: int|
                0 <= x < old(self).width() && 0 <= y < old(self).height() && old(self).matched(x, y)
                    ==> is_rolled(#[trigger] final(self).cell(x, y)),
    {
        let to_be_deleted = self.find_matches();
        if !any_marked(&to_be_deleted) {
            proof {
                self.lemma_unmarked_mask_means_no_matches(to_be_deleted@);
            }
            return false;
        }
        proof {
            self.lemma_marked_mask_means_matches(to_be_deleted@);
        }
        let n = self.len();
        let mut tiles: Vec<TileDesc> = Vec::new();
        let mut i: usize = 0;
        while i < n
            invariant
                self.inv(),
                self.is_full(),
                self.dimensions == old(self).dimensions,
                self.origin == old(self).origin,
                self.next_handle == old(self).next_handle,
                self.forward == old(self).forward,
                self.backward == old(self).backward,
                n == self.n_cells(),
                to_be_deleted@.len() == n,
                i <= n,
                tiles@.len() == i,
                forall|k: int|
                    0 <= k < i && to_be_deleted@[k] ==> color_ordinal((#[trigger] tiles@[k]).color) < ROLLED_COLORS
                        && mark_ordinal(tiles@[k].mark) < ROLLED_MARKS,
            decreases n - i,
        {
            if to_be_deleted[i] {
                tiles.push(TileDesc::new(&mut self.rng));
            } else {
                assert(self.forward@[i as int].is_some());
                tiles.push(self.forward[i].unwrap());
            }
            i = i + 1;
        }
        let ghost b0 = *self;
        self.reroll_marked(&to_be_deleted, &tiles);
        proof {
            assert forall|x: int, y: int|
                0 <= x < old(self).width() && 0 <= y < old(self).height() implies (!old(self).matched(x, y)
                    ==> self.cell(x, y) == old(self).cell(x, y)) && (old(self).matched(x, y) ==> is_rolled(self.cell(x, y))) by {
                lemma_index_in_range(self.width(), self.height(), x, y);
                let i = index_of(self.width(), x, y);
                assert(self.forward@[i] == if to_be_deleted@[i] {
                    Some(tiles@[i])
                } else {
                    b0.forward@[i]
                });
                assert(b0.forward@[i] == old(self).forward@[i]);
            }
        }
        true
    }

    /// Re-rolls, in place, the descriptor of every cell that lies in a run
    /// (see `reroll_matches`), and looks again, for at most `max_rounds` rounds.
    /// Handles stay where they are. Returns whether the board came out without
    /// matches.
    pub fn check_intial_tiles(&mut self, max_rounds: u32) -> (settled: bool)
        requires
            old(self).inv(),
            old(self).is_full(),
        ensures
            final(self).inv(),
            final(self).is_full(),
            final(self).dimensions == old(self).dimensions,
            final(self).origin == old(self).origin,
            final(self).next_handle == old(self).next_handle,
            final(self).backward == old(self).backward,
            settled == final(self).no_matches(),
            old(self).no_matches() ==> *final(self) == *old(self),
    {
        let mut round: u32 = 0;
        while round < max_rounds
            invariant
                self.inv(),
                self.is_full(),
                self.dimensions == old(self).dimensions,
                self.origin == old(self).origin,
                self.next_handle == old(self).next_handle,
                self.backward == old(self).backward,
                round == 0 ==> *self == *old(self),
                old(self).no_matches() ==> round == 0,
            decreases max_rounds - round,
        {
            let ghost before = *self;
            if !self.reroll_matches() {
                assert(before.no_matches());
                return true;
            }
            round = round + 1;
        }
        let to_be_deleted = self.find_matches();
        if any_marked(&to_be_deleted) {
            proof {
                self.lemma_marked_mask_means_matches(to_be_deleted@);
            }
            false
        } else {
            proof {
                self.lemma_unmarked_mask_means_no_matches(to_be_deleted@);
            }
            true
        }
    }

    /// `events` holds one `Spawned` event per cell, in index order, each tile
    /// appearing on its own cell with the handle bound there.
    pub open spec fn initial_events(&self, events: Seq<BoardEvent>) -> bool {
        &&& events.len() == self.n_cells()
        &&& forall|i: int|
            0 <= i < self.n_cells() ==> #[trigger] events[i] == (BoardEvent::Spawned {
                handle: self.backward@[i].unwrap(),
                tile: self.forward@[i].unwrap(),
                origin_row: (i / self.width()) as u64,
                to: GridPos { x: (i % self.width()) as u32, y: (i / self.width()) as u32 },
            })
    }

    /// A board less than `MIN_MATCH_LENGTH` cells wide and high holds no run.
    pub proof fn lemma_small_board_has_no_matches(&self)
        requires
            self.width() < MIN_MATCH_LENGTH,
            self.height() < MIN_MATCH_LENGTH,
        ensures
            self.no_matches(),
    {
        assert forall|x: int, y: int| 0 <= x < self.width() && 0 <= y < self.height() implies !#[trigger] self.matched(
            x,
            y,
        ) by {
            assert(self.row_line(y).len() < MIN_MATCH_LENGTH);
            assert(self.column_line(x).len() < MIN_MATCH_LENGTH);
        }
    }

    /// One `Spawned` event per cell, in index order, each tile appearing on its
    /// own cell: what the presentation layer needs to draw a new board.
    pub fn fill_gameboard(&self) -> (events: Vec<BoardEvent>)
        requires
            self.inv(),
            self.is_full(),
        ensures
            self.initial_events(events@),
    {
        let n = self.len();
        let mut events: Vec<BoardEvent> = Vec::new();
        let mut i: usize = 0;
        while i < n
            invariant
                self.inv(),
                self.is_full(),
                n == self.n_cells(),
                i <= n,
                events@.len() == i,
                forall|k: int|
                    0 <= k < i ==> #[trigger] events@[k] == (BoardEvent::Spawned {
                        handle: self.backward@[k].unwrap(),
                        tile: self.forward@[k].unwrap(),
                        origin_row: (k / self.width()) as u64,
                        to: GridPos { x: (k % self.width()) as u32, y: (k / self.width()) as u32 },
                    }),
            decreases n - i,
        {
            let to = self.find_grid_from_index(i);
            assert(self.forward@[i as int].is_some());
            events.push(
                BoardEvent::Spawned {
                    handle: self.backward[i].unwrap(),
                    tile: self.forward[i].unwrap(),
                    origin_row: to.y as u64,
                    to,
                },
            );
            i = i + 1;
        }
        events
    }
}

impl GameBoard {
    /// The mask of the cells that clear, by linear index.
    pub open spec fn match_mask(&self) -> Seq<bool> {
        Seq::new(self.n_cells() as nat, |i: int| self.matched(i % self.width(), i / self.width()))
    }

    /// Column `x` with the cells that clear emptied.
    pub open spec fn cleared_column(&self, x: int) -> Seq<Slot> {
        Seq::new(
            self.dimensions.y as nat,
            |y: int|
                if self.matched(x, y) {
                    (None, None)
                } else {
                    (self.cell(x, y), self.handle_of(x, y))
                },
        )
    }

    proof fn lemma_mask_is_match_mask(&self, mask: Seq<bool>)
        requires
            self.shape_ok(),
            self.width() > 0,
            self.is_match_mask(mask),
        ensures
            mask == self.match_mask(),
    {
        assert forall|i: int| 0 <= i < self.n_cells() implies #[trigger] mask[i] == self.match_mask()[i] by {
            lemma_index_split(self.width(), self.height(), i);
            let x = i % self.width();
            let y = i / self.width();
            assert(mask[index_of(self.width(), x, y)] == self.matched(x, y));
        }
        assert(mask =~= self.match_mask());
    }

    /// One settle cycle: clears every cell that lies in a run, lets the columns
    /// fall and refills them from the top. Returns the `Despawned` events of the
    /// cleared cells, in index order, then the `Moved` and `Spawned` events.
    pub fn match_remove_refill(&mut self) -> (events: Vec<BoardEvent>)
        requires
            old(self).inv(),
            old(self).is_full(),
            old(self).has_handle_room(),
        ensures
            final(self).inv(),
            final(self).is_full(),
            final(self).dimensions == old(self).dimensions,
            final(self).origin == old(self).origin,
            old(self).next_handle <= final(self).next_handle <= old(self).next_handle + old(self).n_cells(),
            forall|x: int, y: int|
                0 <= x < old(self).width() && 0 <= y < old(self).height() ==> if y < packed(
                    old(self).cleared_column(x),
                ).len() {
                    #[trigger] final(self).column_slots(x)[y] == packed(old(self).cleared_column(x))[y]
                } else {
                    final(self).column_slots(x)[y].1.is_some() && final(self).column_slots(x)[y].1.unwrap().0
                        >= old(self).next_handle
                },
            forall|x: int, y: int, x2: int, y2: int|
                0 <= x < old(self).width() && 0 <= y < old(self).height() && 0 <= x2 < old(self).width() && 0
                    <= y2 < old(self).height() && old(self).matched(x2, y2) ==> #[trigger] final(self).handle_of(x, y)
                    != #[trigger] old(self).handle_of(x2, y2),
            ({
                let d = despawn_events(old(self).backward@, old(self).match_mask(), old(self).n_cells() as nat);
                &&& d.len() <= events@.len()
                &&& events@.subrange(0, d.len() as int) == d
                &&& forall|k: int|
                    d.len() <= k < events@.len() ==> old(self).moved_within(*final(self), #[trigger] events@[k])
                        || final(self).spawned_on(events@[k], old(self).next_handle)
            }),
    {
        let ghost b0 = *self;
        let ghost w = self.width();
        let ghost h = self.height();
        let to_be_deleted = self.find_matches();
        assert forall|i: int| 0 <= i < self.n_cells() && #[trigger] to_be_deleted@[i] implies self.backward@[i].is_some() by {
            assert(self.forward@[i].is_some());
        }
        let mut events = self.remove_matches(&to_be_deleted);
        let ghost b1 = *self;
        let ghost e1 = events@;
        proof {
            assert forall|x: int| 0 <= x < w implies #[trigger] b1.column_slots(x) == b0.cleared_column(x) by {
                assert forall|y: int| 0 <= y < h implies #[trigger] b1.column_slots(x)[y] == b0.cleared_column(x)[y] by {
                    lemma_index_in_range(w, h, x, y);
                }
                assert(b1.column_slots(x) =~= b0.cleared_column(x));
            }
        }
        let column_spaces = self.shuffle_tiles_down(&mut events);
        let ghost b2 = *self;
        let ghost e2 = events@;
        proof {
            assert forall|x: int, y: int|
                0 <= x < w && h - column_spaces@[x] <= y < h implies (#[trigger] b2.cell(x, y)).is_none() by {
                lemma_packed_len(b0.cleared_column(x));
                assert(b2.column_slots(x)[y] == collapsed(b1.column_slots(x))[y]);
            }
            assert forall|x: int| 0 <= x < w implies #[trigger] column_spaces@[x] <= h by {
                assert(b2.column_slots(x) == collapsed(b1.column_slots(x)));
                lemma_packed_len(b1.column_slots(x));
            }
        }
        self.spawn_new_tiles(&column_spaces, &mut events);
        proof {
            assert forall|i: int| 0 <= i < self.n_cells() implies (#[trigger] self.forward@[i]).is_some() by {
                if w > 0 {
                    lemma_index_split(w, h, i);
                    let x = i % w;
                    let y = i / w;
                    let c1 = b1.column_slots(x);
                    lemma_packed_len(c1);
                    assert(b2.column_slots(x) == collapsed(c1));
                    assert(column_spaces@[x] == h - packed(c1).len());
                    if y < packed(c1).len() {
                        assert(collapsed(c1)[y] == packed(c1)[y]);
                        assert(b2.column_slots(x)[y].0.is_some());
                        assert(b2.cell(x, y).is_some());
                    }
                    assert(self.cell(x, y).is_some());
                }
            }
            assert forall|x: int, y: int| 0 <= x < w && 0 <= y < h implies if y < packed(b0.cleared_column(x)).len() {
                #[trigger] self.column_slots(x)[y] == packed(b0.cleared_column(x))[y]
            } else {
                self.column_slots(x)[y].1.is_some() && self.column_slots(x)[y].1.unwrap().0 >= b0.next_handle
            } by {
                lemma_packed_len(b0.cleared_column(x));
                assert(b2.column_slots(x) == collapsed(b1.column_slots(x)));
                assert(self.cell(x, y) == self.column_slots(x)[y].0);
                assert(self.handle_of(x, y) == self.column_slots(x)[y].1);
                if y < packed(b0.cleared_column(x)).len() {
                    assert(b2.column_slots(x)[y] == collapsed(b1.column_slots(x))[y]);
                    assert(b2.cell(x, y) == b2.column_slots(x)[y].0);
                }
            }
            lemma_bijection(&b0);
            assert forall|x: int, y: int, x2: int, y2: int|
                0 <= x < w && 0 <= y < h && 0 <= x2 < w && 0 <= y2 < h && b0.matched(x2, y2) implies #[trigger] self.handle_of(
                x,
                y,
            ) != #[trigger] b0.handle_of(x2, y2) by {
                lemma_index_in_range(w, h, x2, y2);
                assert(b0.handle_of(x2, y2).is_some());
                assert(b0.handle_of(x2, y2).unwrap().0 < b0.next_handle);
                let c = b0.cleared_column(x);
                lemma_packed_len(c);
                assert(self.handle_of(x, y) == self.column_slots(x)[y].1);
                if y < packed(c).len() {
                    lemma_packed_member(c, y);
                    let j = choose|j: int| 0 <= j < c.len() && #[trigger] c[j] == packed(c)[y];
                    assert(packed(c)[y].0.is_some());
                    assert(!b0.matched(x, j));
                    assert(c[j].1 == b0.handle_of(x, j));
                    assert(b0.handle_of(x, j).is_some()) by {
                        lemma_index_in_range(w, h, x, j);
                    }
                    assert(x != x2 || j != y2);
                }
            }
            if w > 0 {
                b0.lemma_mask_is_match_mask(to_be_deleted@);
            } else {
                assert(to_be_deleted@ =~= b0.match_mask());
            }
            assert(events@.subrange(0, e1.len() as int) =~= e1);
            assert forall|k: int| e1.len() <= k < events@.len() implies b0.moved_within(*self, #[trigger] events@[k])
                || self.spawned_on(events@[k], b0.next_handle) by {
                if k < e2.len() {
                    let e = e2[k];
                    assert(events@[k] == e);
                    assert(b1.moved_within(b2, e));
                    let f = moved_source(e);
                    let t = moved_target(e);
                    lemma_index_in_range(w, h, f.x as int, f.y as int);
                    lemma_index_in_range(w, h, t.x as int, t.y as int);
                    let fi = index_of(w, f.x as int, f.y as int);
                    assert(b1.forward@[fi] == (if to_be_deleted@[fi] {
                        None
                    } else {
                        b0.forward@[fi]
                    }));
                    assert(b1.backward@[fi] == b0.backward@[fi]);
                    assert(b2.cell(t.x as int, t.y as int).is_some());
                    let c1 = b1.column_slots(t.x as int);
                    lemma_packed_len(c1);
                    assert(b2.column_slots(t.x as int) == collapsed(c1));
                    assert(b2.column_slots(t.x as int)[t.y as int].0 == b2.cell(t.x as int, t.y as int));
                    assert(column_spaces@[t.x as int] == h - packed(c1).len());
                    assert(self.cell(t.x as int, t.y as int) == b2.cell(t.x as int, t.y as int));
                }
            }
        }
        events
    }
}

impl GameBoard {
    /// Whether a settle cycle may still issue a fresh handle for every cell.
    pub fn handle_room(&self) -> (r: bool)
        requires
            self.shape_ok(),
        ensures
            r == self.has_handle_room(),
    {
        let n = self.len() as u64;
        self.next_handle <= u64::MAX - n
    }

    /// Runs settle cycles until no run is left, for at most `max_cycles` cycles.
    /// Returns the events of all cycles and whether the board settled; a settled
    /// board ends its events with `SettleComplete`.
    pub fn settle(&mut self, max_cycles: u32) -> (r: (Vec<BoardEvent>, bool))
        requires
            old(self).inv(),
            old(self).is_full(),
        ensures
            final(self).inv(),
            final(self).is_full(),
            final(self).dimensions == old(self).dimensions,
            final(self).origin == old(self).origin,
            r.1 == final(self).no_matches(),
            r.1 ==> r.0@.len() > 0 && r.0@.last() == BoardEvent::SettleComplete,
            old(self).no_matches() ==> r.1 && r.0@ == seq![BoardEvent::SettleComplete]
                && final(self).forward == old(self).forward && final(self).backward == old(self).backward,
            !old(self).no_matches() && max_cycles > 0 && !old(self).has_handle_room() ==> !r.1 && r.0@.len()
                == 0 && *final(self) == *old(self),
            !old(self).no_matches() && max_cycles > 0 && old(self).has_handle_room() ==> ({
                let d = despawn_events(old(self).backward@, old(self).match_mask(), old(self).n_cells() as nat);
                d.len() <= r.0@.len() && r.0@.subrange(0, d.len() as int) == d
            }),
    {
        let ghost d = despawn_events(old(self).backward@, old(self).match_mask(), old(self).n_cells() as nat);
        let mut events: Vec<BoardEvent> = Vec::new();
        let mut cycle: u32 = 0;
        while cycle < max_cycles
            invariant
                self.inv(),
                self.is_full(),
                self.dimensions == old(self).dimensions,
                self.origin == old(self).origin,
                cycle == 0 ==> *self == *old(self) && events@.len() == 0,
                old(self).no_matches() ==> cycle == 0,
                cycle > 0 ==> d.len() <= events@.len() && events@.subrange(0, d.len() as int) == d,
                cycle > 0 ==> old(self).has_handle_room(),
                d == despawn_events(old(self).backward@, old(self).match_mask(), old(self).n_cells() as nat),
            decreases max_cycles - cycle,
        {
            let to_be_deleted = self.find_matches();
            if !any_marked(&to_be_deleted) {
                proof {
                    self.lemma_unmarked_mask_means_no_matches(to_be_deleted@);
                }
                let ghost e0 = events@;
                events.push(BoardEvent::SettleComplete);
                assert(cycle > 0 ==> events@.subrange(0, d.len() as int) =~= e0.subrange(0, d.len() as int));
                return (events, true);
            }
            proof {
                self.lemma_marked_mask_means_matches(to_be_deleted@);
            }
            if !self.handle_room() {
                return (events, false);
            }
            let ghost e0 = events@;
            let mut cycle_events = self.match_remove_refill();
            let ghost ce = cycle_events@;
            events.append(&mut cycle_events);
            proof {
                if cycle == 0 {
                    assert(events@ =~= ce);
                    assert(events@.subrange(0, d.len() as int) =~= ce.subrange(0, d.len() as int));
                } else {
                    assert(events@.subrange(0, d.len() as int) =~= e0.subrange(0, d.len() as int));
                }
            }
            cycle = cycle + 1;
        }
        let to_be_deleted = self.find_matches();
        if any_marked(&to_be_deleted) {
            proof {
                self.lemma_marked_mask_means_matches(to_be_deleted@);
            }
            (events, false)
        } else {
            proof {
                self.lemma_unmarked_mask_means_no_matches(to_be_deleted@);
            }
            let ghost e0 = events@;
            events.push(BoardEvent::SettleComplete);
            assert(old(self).no_matches() ==> events@ =~= seq![BoardEvent::SettleComplete]);
            assert(cycle > 0 ==> events@.subrange(0, d.len() as int) =~= e0.subrange(0, d.len() as int));
            (events, true)
        }
    }
}

/// A new board of the given size: every cell rolled at random, cells that
/// start in a run re-rolled until none does, then each tile bound to a fresh
/// handle. Returns the board with a `Spawned` event per cell, or
/// `InvariantViolation` when re-rolling gives up after `MAX_REROLL_ROUNDS`.
pub fn create_gameboard(dimensions: GridPos, window_width: u32, window_height: u32, seed: u64) -> (r:
    Result<(GameBoard, Vec<BoardEvent>), EngineError>)
    requires
        dimensions.x * dimensions.y <= usize::MAX,
    ensures
        r matches Ok((b, events)) ==> {
            &&& b.inv()
            &&& b.is_full()
            &&& b.no_matches()
            &&& b.dimensions == dimensions
            &&& b.origin == find_origin_spec(window_width as int, window_height as int)
            &&& b.next_handle == b.n_cells()
            &&& b.initial_events(events@)
        },
        r matches Err(e) ==> e == EngineError::InvariantViolation,
        dimensions.x < MIN_MATCH_LENGTH && dimensions.y < MIN_MATCH_LENGTH ==> r is Ok,
{
    let mut board = GameBoard::new(dimensions, window_width, window_height, seed);
    board.populate();
    proof {
        if dimensions.x < MIN_MATCH_LENGTH && dimensions.y < MIN_MATCH_LENGTH {
            board.lemma_small_board_has_no_matches();
        }
    }
    if !board.check_intial_tiles(MAX_REROLL_ROUNDS) {
        return Err(EngineError::InvariantViolation);
    }
    let events = board.fill_gameboard();
    Ok((board, events))
}

} // verus!
