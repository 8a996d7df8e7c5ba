use crate::board::{index_of, lemma_index_in_range, GameBoard};
use crate::components::{GridPos, Handle};
use crate::tile::{is_rolled, TileDesc};
use vstd::prelude::*;

verus! {

/// What the engine tells the presentation layer while it settles the board.
#[derive(Copy, Clone, PartialEq, Eq, Structural, Debug)]
pub enum BoardEvent {
    /// The tile of this handle was cleared.
    Despawned { handle: Handle },
    /// An existing tile fell from one cell to another of its column.
    Moved { handle: Handle, from: GridPos, to: GridPos },
    /// A new tile entered the board at `to`, dropping from row `origin_row`
    /// of its column, counted as if the column went on above the board.
    Spawned { handle: Handle, tile: TileDesc, origin_row: u64, to: GridPos },
    /// The board reached a state without matches.
    SettleComplete,
}

/// A cell's contents: its descriptor and its render handle.
pub type Slot = (Option<TileDesc>, Option<Handle>);

/// The occupied slots of a column, in order, bottom first.
pub open spec fn packed(s: Seq<Slot>) -> Seq<Slot>
    decreases s.len(),
{
    if s.len() == 0 {
        Seq::empty()
    } else if s.last().0.is_some() {
        packed(s.drop_last()).push(s.last())
    } else {
        packed(s.drop_last())
    }
}

pub open spec fn empty_slots(n: nat) -> Seq<Slot> {
    Seq::new(n, |i: int| (None, None))
}

/// A column after gravity: the occupied slots in their order at the bottom,
/// empty slots above them.
pub open spec fn collapsed(s: Seq<Slot>) -> Seq<Slot> {
    packed(s) + empty_slots((s.len() - packed(s).len()) as nat)
}

pub proof fn lemma_packed_len(s: Seq<Slot>)
    ensures
        packed(s).len() <= s.len(),
        forall|i: int| 0 <= i < packed(s).len() ==> (#[trigger] packed(s)[i]).0.is_some(),
    decreases s.len(),
{
    if s.len() > 0 {
        lemma_packed_len(s.drop_last());
    }
}

/// Every occupied slot of `packed(s)` comes from `s`.
pub proof fn lemma_packed_member(s: Seq<Slot>, i: int)
    requires
        0 <= i < packed(s).len(),
    ensures
        exists|j: int| 0 <= j < s.len() && #[trigger] s[j] == packed(s)[i],
    decreases s.len(),
{
    let t = s.drop_last();
    lemma_packed_len(t);
    if s.last().0.is_some() && i == packed(t).len() {
        assert(s[s.len() - 1] == packed(s)[i]);
    } else {
        assert(packed(s)[i] == packed(t)[i]);
        lemma_packed_member(t, i);
        let j = choose|j: int| 0 <= j < t.len() && #[trigger] t[j] == packed(t)[i];
        assert(s[j] == t[j]);
    }
}

pub(crate) proof fn lemma_packed_add(a: Seq<Slot>, b: Seq<Slot>)
    ensures
        packed(a + b) == packed(a) + packed(b),
    decreases b.len(),
{
    if b.len() == 0 {
        assert(a + b =~= a);
        assert(packed(b) =~= Seq::<Slot>::empty());
        assert(packed(a) + packed(b) =~= packed(a));
    } else {
        lemma_packed_add(a, b.drop_last());
        assert((a + b).drop_last() =~= a + b.drop_last());
        assert((a + b).last() == b.last());
        if b.last().0.is_some() {
            assert(packed(a) + packed(b.drop_last()).push(b.last()) =~= (packed(a) + packed(
                b.drop_last(),
            )).push(b.last()));
        }
    }
}

pub(crate) proof fn lemma_packed_all_empty(s: Seq<Slot>)
    requires
        forall|i: int| 0 <= i < s.len() ==> (#[trigger] s[i]).0.is_none(),
    ensures
        packed(s) == Seq::<Slot>::empty(),
    decreases s.len(),
{
    if s.len() > 0 {
        lemma_packed_all_empty(s.drop_last());
    }
}

pub(crate) proof fn lemma_packed_all_full(s: Seq<Slot>)
    requires
        forall|i: int| 0 <= i < s.len() ==> (#[trigger] s[i]).0.is_some(),
    ensures
        packed(s) == s,
    decreases s.len(),
{
    if s.len() > 0 {
        lemma_packed_all_full(s.drop_last());
        assert(s.drop_last().push(s.last()) =~= s);
    }
}

/// Moving the first occupied slot above an empty one down into it keeps the
/// occupied slots and their order.
proof fn lemma_packed_move_down(s: Seq<Slot>, y: int, r: int)
    requires
        0 <= y < r < s.len(),
        forall|j: int| y <= j < r ==> (#[trigger] s[j]).0.is_none(),
        s[r].0.is_some(),
    ensures
        packed(s.update(y, s[r]).update(r, (None, None))) == packed(s),
{
    let t = s.update(y, s[r]).update(r, (None, None));
    let pre = s.subrange(0, y);
    let gap = s.subrange(y, r);
    let rest = s.subrange(r + 1, s.len() as int);
    let one = seq![s[r]];
    let tgap = t.subrange(y + 1, r + 1);
    assert(s =~= pre + (gap + (one + rest)));
    assert(t =~= pre + (one + (tgap + rest)));
    lemma_packed_all_empty(gap);
    assert forall|j: int| 0 <= j < tgap.len() implies (#[trigger] tgap[j]).0.is_none() by {
        if y + 1 + j < r {
            assert(tgap[j] == s[y + 1 + j]);
        }
    }
    lemma_packed_all_empty(tgap);
    lemma_packed_add(pre, gap + (one + rest));
    lemma_packed_add(gap, one + rest);
    lemma_packed_add(one, rest);
    lemma_packed_add(pre, one + (tgap + rest));
    lemma_packed_add(one, tgap + rest);
    lemma_packed_add(tgap, rest);
    assert(packed(gap) + (packed(one) + packed(rest)) =~= packed(one) + packed(rest));
    assert(packed(tgap) + packed(rest) =~= packed(rest));
}

/// A column whose occupied slots all sit below its empty ones is collapsed.
pub(crate) proof fn lemma_settled_is_collapsed(s: Seq<Slot>, filled: int)
    requires
        0 <= filled <= s.len(),
        forall|j: int| 0 <= j < filled ==> (#[trigger] s[j]).0.is_some(),
        forall|j: int| filled <= j < s.len() ==> #[trigger] s[j] == (None::<TileDesc>, None::<Handle>),
    ensures
        s == collapsed(s),
        packed(s).len() == filled,
{
    let lo = s.subrange(0, filled);
    let hi = s.subrange(filled, s.len() as int);
    assert(s =~= lo + hi);
    lemma_packed_all_full(lo);
    lemma_packed_all_empty(hi);
    lemma_packed_add(lo, hi);
    assert(packed(lo) + packed(hi) =~= lo);
    assert(hi =~= empty_slots((s.len() - filled) as nat));
}

impl GameBoard {
    /// Slots of column `x`, bottom to top.
    pub open spec fn column_slots(&self, x: int) -> Seq<Slot> {
        Seq::new(self.dimensions.y as nat, |y: int| (self.cell(x, y), self.handle_of(x, y)))
    }

    fn is_empty_at(&self, x: u32, y: u32) -> (r: bool)
        requires
            self.shape_ok(),
            x < self.dimensions.x,
            y < self.dimensions.y,
        ensures
            r == self.cell(x as int, y as int).is_none(),
    {
        let i = self.idx(GridPos { x, y });
        self.forward[i].is_none()
    }

    /// Moves the contents of cell `(x, r)` down into the empty cell `(x, y)`.
    fn move_slot_down(&mut self, x: u32, r: u32, y: u32) -> (handle: Handle)
        requires
            old(self).inv(),
            x < old(self).dimensions.x,
            y < r < old(self).dimensions.y,
            old(self).cell(x as int, y as int).is_none(),
            old(self).cell(x as int, r as int).is_some(),
        ensures
            final(self).inv(),
            final(self).dimensions == old(self).dimensions,
            final(self).next_handle == old(self).next_handle,
            final(self).origin == old(self).origin,
            final(self).column_slots(x as int) == old(self).column_slots(x as int).update(
                y as int,
                old(self).column_slots(x as int)[r as int],
            ).update(r as int, (None, None)),
            Some(handle) == old(self).handle_of(x as int, r as int),
            forall|xx: int, yy: int|
                0 <= xx < old(self).width() && 0 <= yy < old(self).height() && xx != x ==> (
                #[trigger] final(self).cell(xx, yy)) == old(self).cell(xx, yy) && final(self).handle_of(
                    xx,
                    yy,
                ) == old(self).handle_of(xx, yy),
    {
        let ghost w = self.width();
        let ghost h = self.height();
        let from = self.idx(GridPos { x, y: r });
        let to = self.idx(GridPos { x, y });
        proof {
            lemma_index_in_range(w, h, x as int, r as int);
            lemma_index_in_range(w, h, x as int, y as int);
        }
        let ghost b0 = self.backward@;
        let t = self.forward[from];
        let hd = self.backward[from];
        self.forward.set(to, t);
        self.forward.set(from, None);
        self.backward.set(to, hd);
        self.backward.set(from, None);
        let ghost b1 = self.backward@;
        proof {
            assert(b1 =~= b0.update(to as int, hd).update(from as int, None));
            assert forall|i: int, j: int|
                0 <= i < self.n_cells() && 0 <= j < self.n_cells() && i != j && (#[trigger] b1[i]).is_some()
                    && (#[trigger] b1[j]).is_some() implies b1[i] != b1[j] by {
                let oi = if i == to {
                    from as int
                } else {
                    i
                };
                let oj = if j == to {
                    from as int
                } else {
                    j
                };
                assert(b1[i] == b0[oi]);
                assert(b1[j] == b0[oj]);
            }
            assert(self.column_slots(x as int) =~= old(self).column_slots(x as int).update(
                y as int,
                old(self).column_slots(x as int)[r as int],
            ).update(r as int, (None, None))) by {
                assert forall|yy: int| 0 <= yy < h implies #[trigger] self.column_slots(x as int)[yy]
                    == old(self).column_slots(x as int).update(
                    y as int,
                    old(self).column_slots(x as int)[r as int],
                ).update(r as int, (None, None))[yy] by {
                    lemma_index_in_range(w, h, x as int, yy);
                }
            }
            assert forall|xx: int, yy: int|
                0 <= xx < w && 0 <= yy < h && xx != x implies (#[trigger] self.cell(xx, yy))
                == old(self).cell(xx, yy) && self.handle_of(xx, yy) == old(self).handle_of(xx, yy) by {
                lemma_index_in_range(w, h, xx, yy);
            }
        }
        hd.unwrap()
    }

    proof fn lemma_column_pairing(&self, x: int)
        requires
            self.inv(),
            0 <= x < self.width(),
        ensures
            forall|y: int|
                0 <= y < self.height() ==> (#[trigger] self.column_slots(x)[y]).0.is_some()
                    == self.column_slots(x)[y].1.is_some(),
    {
        assert forall|y: int| 0 <= y < self.height() implies (#[trigger] self.column_slots(x)[y]).0.is_some()
            == self.column_slots(x)[y].1.is_some() by {
            lemma_index_in_range(self.width(), self.height(), x, y);
        }
    }

    /// Lets the tiles of column `x` fall: each empty cell, bottom up, takes the
    /// nearest occupied cell above it. Returns the number of cells left empty.
    fn collapse_column(&mut self, x: u32, events: &mut Vec<BoardEvent>) -> (spaces: u32)
        requires
            old(self).inv(),
            x < old(self).dimensions.x,
        ensures
            final(self).inv(),
            final(self).dimensions == old(self).dimensions,
            final(self).next_handle == old(self).next_handle,
            final(self).origin == old(self).origin,
            final(self).column_slots(x as int) == collapsed(old(self).column_slots(x as int)),
            spaces == old(self).height() - packed(old(self).column_slots(x as int)).len(),
            forall|xx: int, yy: int|
                0 <= xx < old(self).width() && 0 <= yy < old(self).height() && xx != x ==> (
                #[trigger] final(self).cell(xx, yy)) == old(self).cell(xx, yy) && final(self).handle_of(
                    xx,
                    yy,
                ) == old(self).handle_of(xx, yy),
            old(events)@.len() <= final(events)@.len(),
            forall|k: int| 0 <= k < old(events)@.len() ==> #[trigger] final(events)@[k] == old(events)@[k],
            forall|k: int|
                old(events)@.len() <= k < final(events)@.len() ==> old(self).moved_within(*final(self), #[trigger] final(events)@[k])
                    && moved_target(final(events)@[k]).x == x,
            forall|k1: int, k2: int|
                old(events)@.len() <= k1 < final(events)@.len() && old(events)@.len() <= k2 < final(events)@.len()
                    && k1 != k2 ==> moved_target(#[trigger] final(events)@[k1]) != moved_target(
                    #[trigger] final(events)@[k2],
                ),
            forall|yy: int|
                0 <= yy < old(self).height() && (#[trigger] final(self).handle_of(x as int, yy)).is_some()
                    && final(self).handle_of(x as int, yy) != old(self).handle_of(x as int, yy) ==> has_move_into(
                    final(events)@,
                    old(events)@.len() as int,
                    x as int,
                    yy,
                ),
    {
        let h = self.dimensions.y;
        let ghost col0 = self.column_slots(x as int);
        let mut filled: u32 = 0;
        let mut y: u32 = 0;
        while y < h
            invariant
                self.inv(),
                self.dimensions == old(self).dimensions,
                self.next_handle == old(self).next_handle,
                self.origin == old(self).origin,
                h == self.dimensions.y,
                x < self.dimensions.x,
                col0 == old(self).column_slots(x as int),
                packed(self.column_slots(x as int)) == packed(col0),
                filled <= y <= h,
                forall|j: int| 0 <= j < filled ==> (#[trigger] self.column_slots(x as int)[j]).0.is_some(),
                forall|j: int|
                    filled <= j < y ==> #[trigger] self.column_slots(x as int)[j] == (None::<TileDesc>, None::<Handle>),
                filled < y ==> forall|j: int|
                    y <= j < h ==> #[trigger] self.column_slots(x as int)[j] == (None::<TileDesc>, None::<Handle>),
                forall|xx: int, yy: int|
                    0 <= xx < old(self).width() && 0 <= yy < old(self).height() && xx != x ==> (
                    #[trigger] self.cell(xx, yy)) == old(self).cell(xx, yy) && self.handle_of(xx, yy)
                        == old(self).handle_of(xx, yy),
                old(events)@.len() <= events@.len(),
                forall|k: int| 0 <= k < old(events)@.len() ==> #[trigger] events@[k] == old(events)@[k],
                forall|k: int|
                    old(events)@.len() <= k < events@.len() ==> old(self).moved_within(*self, #[trigger] events@[k])
                        && moved_target(events@[k]).x == x && moved_target(events@[k]).y < y,
                forall|j: int|
                    y <= j < h ==> #[trigger] self.column_slots(x as int)[j] == col0[j] || self.column_slots(x as int)[j]
                        == (None::<TileDesc>, None::<Handle>),
                forall|k1: int, k2: int|
                    old(events)@.len() <= k1 < events@.len() && old(events)@.len() <= k2 < events@.len() && k1 != k2
                        ==> moved_target(#[trigger] events@[k1]) != moved_target(#[trigger] events@[k2]),
                forall|j: int|
                    0 <= j < y ==> #[trigger] self.column_slots(x as int)[j] == col0[j] || self.column_slots(
                        x as int,
                    )[j].1.is_none() || has_move_into(events@, old(events)@.len() as int, x as int, j),
            decreases h - y,
        {
            proof {
                self.lemma_column_pairing(x as int);
            }
            if !self.is_empty_at(x, y) {
                assert(self.column_slots(x as int)[y as int].0.is_some());
                assert(filled == y);
                assert(self.column_slots(x as int)[y as int] == col0[y as int]);
                filled = filled + 1;
            } else {
                let mut r: u32 = y + 1;
                while r < h && self.is_empty_at(x, r)
                    invariant
                        self.inv(),
                        h == self.dimensions.y,
                        x < self.dimensions.x,
                        y < r <= h,
                        forall|j: int| y < j < r ==> (#[trigger] self.column_slots(x as int)[j]).0.is_none(),
                    decreases h - r,
                {
                    r = r + 1;
                }
                if r < h {
                    let ghost col = self.column_slots(x as int);
                    assert(col[r as int].0.is_some());
                    assert(filled == y);
                    assert(col[r as int] == col0[r as int]);
                    let handle = self.move_slot_down(x, r, y);
                    proof {
                        lemma_packed_move_down(col, y as int, r as int);
                    }
                    let ghost e0 = events@;
                    events.push(BoardEvent::Moved { handle, from: GridPos { x, y: r }, to: GridPos { x, y } });
                    assert(self.column_slots(x as int)[y as int] == col[r as int]);
                    assert(forall|j: int| 0 <= j < y ==> #[trigger] self.column_slots(x as int)[j] == col[j]);
                    assert(forall|j: int| y < j < h && j != r ==> #[trigger] self.column_slots(x as int)[j] == col[j]);
                    proof {
                        assert forall|k: int| old(events)@.len() <= k < events@.len() implies old(self).moved_within(
                            *self,
                            #[trigger] events@[k],
                        ) && moved_target(events@[k]).x == x && moved_target(events@[k]).y < y + 1 by {
                            if k < e0.len() {
                                assert(events@[k] == e0[k]);
                                let t = moved_target(e0[k]);
                                assert(self.column_slots(x as int)[t.y as int] == col[t.y as int]);
                            }
                        }
                    }
                    proof {
                        let last = events@.len() - 1;
                        assert(moved_target(events@[last]) == GridPos { x, y });
                        assert(forall|k: int| 0 <= k < e0.len() ==> #[trigger] events@[k] == e0[k]);
                        assert forall|j: int| 0 <= j < y + 1 implies #[trigger] self.column_slots(x as int)[j] == col0[j]
                            || self.column_slots(x as int)[j].1.is_none() || has_move_into(
                            events@,
                            old(events)@.len() as int,
                            x as int,
                            j,
                        ) by {
                            if j == y {
                                assert(moved_target(events@[last]) == GridPos { x: x as int as u32, y: j as u32 });
                            } else {
                                assert(self.column_slots(x as int)[j] == col[j]);
                                if has_move_into(e0, old(events)@.len() as int, x as int, j) {
                                    lemma_move_into_extends(e0, events@, old(events)@.len() as int, old(events)@.len() as int, x as int, j);
                                }
                            }
                        }
                    }
                    filled = filled + 1;
                }
            }
            y = y + 1;
        }
        proof {
            lemma_settled_is_collapsed(self.column_slots(x as int), filled as int);
            assert forall|yy: int|
                0 <= yy < old(self).height() && (#[trigger] self.handle_of(x as int, yy)).is_some()
                    && self.handle_of(x as int, yy) != old(self).handle_of(x as int, yy) implies has_move_into(
                events@,
                old(events)@.len() as int,
                x as int,
                yy,
            ) by {
                assert(self.column_slots(x as int)[yy].1 == self.handle_of(x as int, yy));
                assert(col0[yy].1 == old(self).handle_of(x as int, yy));
            }
        }
        h - filled
    }

    /// Lets every column fall (see `collapse_column`), appending exactly one
    /// `Moved` event for each tile that changes cell. Returns, per column, the number of cells
    /// left empty at its top.
    pub fn shuffle_tiles_down(&mut self, events: &mut Vec<BoardEvent>) -> (column_spaces: Vec<u32>)
        requires
            old(self).inv(),
        ensures
            final(self).inv(),
            final(self).dimensions == old(self).dimensions,
            final(self).next_handle == old(self).next_handle,
            final(self).origin == old(self).origin,
            column_spaces@.len() == old(self).width(),
            forall|x: int|
                0 <= x < old(self).width() ==> #[trigger] final(self).column_slots(x) == collapsed(
                    old(self).column_slots(x),
                ) && column_spaces@[x] == old(self).height() - packed(old(self).column_slots(x)).len(),
            old(events)@.len() <= final(events)@.len(),
            forall|k: int| 0 <= k < old(events)@.len() ==> #[trigger] final(events)@[k] == old(events)@[k],
            forall|k: int|
                old(events)@.len() <= k < final(events)@.len() ==> old(self).moved_within(*final(self), #[trigger] final(events)@[k]),
            forall|k1: int, k2: int|
                old(events)@.len() <= k1 < final(events)@.len() && old(events)@.len() <= k2 < final(events)@.len()
                    && k1 != k2 ==> moved_target(#[trigger] final(events)@[k1]) != moved_target(
                    #[trigger] final(events)@[k2],
                ),
            forall|x: int, y: int|
                0 <= x < old(self).width() && 0 <= y < old(self).height() && (#[trigger] final(self).handle_of(
                    x,
                    y,
                )).is_some() && final(self).handle_of(x, y) != old(self).handle_of(x, y) ==> has_move_into(
                    final(events)@,
                    old(events)@.len() as int,
                    x,
                    y,
                ),
    {
        let w = self.dimensions.x;
        let mut column_spaces: Vec<u32> = Vec::new();
        let mut x: u32 = 0;
        while x < w
            invariant
                self.inv(),
                self.dimensions == old(self).dimensions,
                self.next_handle == old(self).next_handle,
                self.origin == old(self).origin,
                w == self.dimensions.x,
                x <= w,
                column_spaces@.len() == x,
                forall|xx: int|
                    0 <= xx < x ==> #[trigger] self.column_slots(xx) == collapsed(old(self).column_slots(xx))
                        && column_spaces@[xx] == old(self).height() - packed(old(self).column_slots(xx)).len(),
                forall|xx: int|
                    x <= xx < w ==> #[trigger] self.column_slots(xx) == old(self).column_slots(xx),
                old(events)@.len() <= events@.len(),
                forall|k: int| 0 <= k < old(events)@.len() ==> #[trigger] events@[k] == old(events)@[k],
                forall|k: int|
                    old(events)@.len() <= k < events@.len() ==> old(self).moved_within(*self, #[trigger] events@[k])
                        && moved_target(events@[k]).x < x,
                forall|k1: int, k2: int|
                    old(events)@.len() <= k1 < events@.len() && old(events)@.len() <= k2 < events@.len() && k1 != k2
                        ==> moved_target(#[trigger] events@[k1]) != moved_target(#[trigger] events@[k2]),
                forall|xx: int, yy: int|
                    0 <= xx < x && 0 <= yy < old(self).height() && (#[trigger] self.handle_of(xx, yy)).is_some()
                        && self.handle_of(xx, yy) != old(self).handle_of(xx, yy) ==> has_move_into(
                        events@,
                        old(events)@.len() as int,
                        xx,
                        yy,
                    ),
            decreases w - x,
        {
            let ghost before = *self;
            let ghost e0 = events@;
            let spaces = self.collapse_column(x, events);
            column_spaces.push(spaces);
            proof {
                assert forall|k: int| old(events)@.len() <= k < events@.len() implies old(self).moved_within(
                    *self,
                    #[trigger] events@[k],
                ) && moved_target(events@[k]).x < x + 1 by {
                    if k < e0.len() {
                        assert(events@[k] == e0[k]);
                        let t = moved_target(e0[k]);
                        assert(old(self).moved_within(before, e0[k]));
                        assert(self.cell(t.x as int, t.y as int) == before.cell(t.x as int, t.y as int));
                    } else {
                        let f = moved_source(events@[k]);
                        assert(before.moved_within(*self, events@[k]));
                        assert(before.column_slots(x as int) == old(self).column_slots(x as int));
                        assert(before.column_slots(x as int)[f.y as int] == old(self).column_slots(x as int)[f.y as int]);
                    }
                }
                assert forall|k1: int, k2: int|
                    old(events)@.len() <= k1 < events@.len() && old(events)@.len() <= k2 < events@.len() && k1 != k2
                        implies moved_target(#[trigger] events@[k1]) != moved_target(#[trigger] events@[k2]) by {
                    if k1 < e0.len() {
                        assert(events@[k1] == e0[k1]);
                    }
                    if k2 < e0.len() {
                        assert(events@[k2] == e0[k2]);
                    }
                }
                assert forall|xx: int, yy: int|
                    0 <= xx < x + 1 && 0 <= yy < old(self).height() && (#[trigger] self.handle_of(xx, yy)).is_some()
                        && self.handle_of(xx, yy) != old(self).handle_of(xx, yy) implies has_move_into(
                    events@,
                    old(events)@.len() as int,
                    xx,
                    yy,
                ) by {
                    if xx < x {
                        assert(self.cell(xx, yy) == before.cell(xx, yy));
                        lemma_move_into_extends(e0, events@, old(events)@.len() as int, old(events)@.len() as int, xx, yy);
                    } else {
                        assert(before.column_slots(x as int)[yy] == old(self).column_slots(x as int)[yy]);
                        lemma_move_into_extends(events@, events@, e0.len() as int, old(events)@.len() as int, xx, yy);
                    }
                }
                assert forall|xx: int| 0 <= xx < w && xx != x implies #[trigger] self.column_slots(xx)
                    == before.column_slots(xx) by {
                    assert(self.column_slots(xx) =~= before.column_slots(xx));
                }
            }
            x = x + 1;
        }
        column_spaces
    }

    /// Clears every marked cell: its descriptor and its binding go, and a
    /// `Despawned` event names the handle that was bound there. Every marked
    /// cell must be bound; an unbound one would be a broken board.
    pub fn remove_matches(&mut self, to_be_deleted: &Vec<bool>) -> (events: Vec<BoardEvent>)
        requires
            old(self).inv(),
            to_be_deleted@.len() == old(self).n_cells(),
            forall|i: int|
                0 <= i < old(self).n_cells() && #[trigger] to_be_deleted@[i] ==> old(self).backward@[i].is_some(),
        ensures
            final(self).inv(),
            final(self).dimensions == old(self).dimensions,
            final(self).next_handle == old(self).next_handle,
            final(self).origin == old(self).origin,
            forall|i: int|
                0 <= i < old(self).n_cells() ==> #[trigger] final(self).forward@[i] == (if to_be_deleted@[i] {
                    None
                } else {
                    old(self).forward@[i]
                }) && final(self).backward@[i] == (if to_be_deleted@[i] {
                    None
                } else {
                    old(self).backward@[i]
                }),
            events@ == despawn_events(old(self).backward@, to_be_deleted@, old(self).n_cells() as nat),
    {
        let n = self.len();
        let mut events: Vec<BoardEvent> = Vec::new();
        let mut i: usize = 0;
        while i < n
            invariant
                self.inv(),
                self.dimensions == old(self).dimensions,
                self.next_handle == old(self).next_handle,
                self.origin == old(self).origin,
                n == self.n_cells(),
                n == old(self).n_cells(),
                old(self).forward@.len() == n,
                old(self).backward@.len() == n,
                i <= n,
                to_be_deleted@.len() == n,
                forall|k: int|
                    0 <= k < n ==> #[trigger] self.forward@[k] == (if k < i && to_be_deleted@[k] {
                        None
                    } else {
                        old(self).forward@[k]
                    }) && self.backward@[k] == (if k < i && to_be_deleted@[k] {
                        None
                    } else {
                        old(self).backward@[k]
                    }),
                events@ == despawn_events(old(self).backward@, to_be_deleted@, i as nat),
            decreases n - i,
        {
            assert(self.forward@[i as int] == old(self).forward@[i as int]);
            assert(self.backward@[i as int] == old(self).backward@[i as int]);
            assert(despawn_events(old(self).backward@, to_be_deleted@, (i + 1) as nat) == (if to_be_deleted@[i as int]
                && old(self).backward@[i as int].is_some() {
                despawn_events(old(self).backward@, to_be_deleted@, i as nat).push(
                    BoardEvent::Despawned { handle: old(self).backward@[i as int].unwrap() },
                )
            } else {
                despawn_events(old(self).backward@, to_be_deleted@, i as nat)
            }));
            if to_be_deleted[i] {
                match self.backward[i] {
                    Some(handle) => events.push(BoardEvent::Despawned { handle }),
                    None => {},
                }
                let ghost b0 = self.backward@;
                self.forward.set(i, None);
                self.backward.set(i, None);
                proof {
                    assert forall|a: int, b: int|
                        0 <= a < n && 0 <= b < n && a != b && (#[trigger] self.backward@[a]).is_some()
                            && (#[trigger] self.backward@[b]).is_some() implies self.backward@[a]
                        != self.backward@[b] by {
                        assert(self.backward@[a] == b0[a]);
                        assert(self.backward@[b] == b0[b]);
                    }
                }
            }
            i = i + 1;
        }
        events
    }
}

/// Total of the first `k` entries of `spaces`: the number of cells that a
/// refill fills in the first `k` columns.
pub open spec fn spaces_total(spaces: Seq<u32>, k: int) -> int
    decreases k,
{
    if k <= 0 {
        0
    } else {
        spaces_total(spaces, k - 1) + spaces[k - 1]
    }
}

/// Some event of `events` from index `lo` on moves a tile into cell `(x, y)`.
pub open spec fn has_move_into(events: Seq<BoardEvent>, lo: int, x: int, y: int) -> bool {
    exists|k: int| lo <= k < events.len() && #[trigger] moved_target(events[k]) == (GridPos { x: x as u32, y: y as u32 })
}

proof fn lemma_move_into_extends(a: Seq<BoardEvent>, b: Seq<BoardEvent>, lo: int, lo2: int, x: int, y: int)
    requires
        has_move_into(a, lo, x, y),
        0 <= lo2 <= lo,
        a.len() <= b.len(),
        forall|k: int| 0 <= k < a.len() ==> #[trigger] b[k] == a[k],
    ensures
        has_move_into(b, lo2, x, y),
{
    let k = choose|k: int| lo <= k < a.len() && #[trigger] moved_target(a[k]) == (GridPos { x: x as u32, y: y as u32 });
    assert(b[k] == a[k]);
    assert(moved_target(b[k]) == GridPos { x: x as u32, y: y as u32 });
}

/// The cell that a `Moved` event leaves.
pub open spec fn moved_source(e: BoardEvent) -> GridPos {
    match e {
        BoardEvent::Moved { from, .. } => from,
        _ => GridPos { x: 0, y: 0 },
    }
}

/// The cell that a `Moved` event leads to.
pub open spec fn moved_target(e: BoardEvent) -> GridPos {
    match e {
        BoardEvent::Moved { to, .. } => to,
        _ => GridPos { x: 0, y: 0 },
    }
}

/// The cell that a `Spawned` event fills.
pub open spec fn spawn_target(e: BoardEvent) -> GridPos {
    match e {
        BoardEvent::Spawned { to, .. } => to,
        _ => GridPos { x: 0, y: 0 },
    }
}

impl GameBoard {
    /// `e` moves a tile down its column: the handle stood at `from` on this
    /// board and stands at `to` on `after`.
    pub open spec fn moved_within(&self, after: GameBoard, e: BoardEvent) -> bool {
        match e {
            BoardEvent::Moved { handle, from, to } => {
                &&& from.x == to.x
                &&& to.y < from.y
                &&& self.in_bounds(from)
                &&& self.handle_of(from.x as int, from.y as int) == Some(handle)
                &&& after.handle_of(to.x as int, to.y as int) == Some(handle)
            },
            _ => false,
        }
    }

    /// `e` announces a tile that stands on the board: its cell holds the event's
    /// descriptor and handle, the handle was issued at or after `base`, and the
    /// tile drops from `height` rows above its cell.
    pub open spec fn spawned_on(&self, e: BoardEvent, base: u64) -> bool {
        match e {
            BoardEvent::Spawned { handle, tile, origin_row, to } => {
                &&& self.in_bounds(to)
                &&& self.cell(to.x as int, to.y as int) == Some(tile)
                &&& self.handle_of(to.x as int, to.y as int) == Some(handle)
                &&& handle.0 >= base
                &&& origin_row == to.y + self.height()
            },
            _ => false,
        }
    }

    /// Puts a descriptor into an empty cell and binds a freshly issued handle to it.
    pub(crate) fn place_new_tile(&mut self, i: usize, tile: TileDesc) -> (handle: Handle)
        requires
            old(self).inv(),
            i < old(self).n_cells(),
            old(self).forward@[i as int].is_none(),
            old(self).next_handle < u64::MAX,
        ensures
            final(self).inv(),
            final(self).dimensions == old(self).dimensions,
            final(self).origin == old(self).origin,
            final(self).next_handle == old(self).next_handle + 1,
            handle.0 == old(self).next_handle,
            final(self).forward@ == old(self).forward@.update(i as int, Some(tile)),
            final(self).backward@ == old(self).backward@.update(i as int, Some(handle)),
    {
        let handle = Handle(self.next_handle);
        let ghost b0 = self.backward@;
        assert(b0[i as int].is_none());
        self.forward.set(i, Some(tile));
        self.backward.set(i, Some(handle));
        self.next_handle = self.next_handle + 1;
        proof {
            assert forall|a: int, b: int|
                0 <= a < self.n_cells() && 0 <= b < self.n_cells() && a != b && (
                #[trigger] self.backward@[a]).is_some() && (#[trigger] self.backward@[b]).is_some() implies self.backward@[a]
                != self.backward@[b] by {
                if a != i && b != i {
                    assert(self.backward@[a] == b0[a]);
                    assert(self.backward@[b] == b0[b]);
                } else if a == i {
                    assert(self.backward@[b] == b0[b]);
                } else {
                    assert(self.backward@[a] == b0[a]);
                }
            }
        }
        handle
    }

    /// Fills the top `column_spaces[x]` cells of each column `x` with the given
    /// tiles (`tiles[i]` for cell `i`), top cell first, each with a fresh handle.
    /// Exactly one `Spawned` event goes out per filled cell, dropping the tile
    /// from `height` rows above it.
    pub fn refill_with(&mut self, column_spaces: &Vec<u32>, tiles: &Vec<TileDesc>, events: &mut Vec<BoardEvent>)
        requires
            old(self).inv(),
            old(self).has_handle_room(),
            column_spaces@.len() == old(self).width(),
            tiles@.len() == old(self).n_cells(),
            forall|x: int| 0 <= x < old(self).width() ==> #[trigger] column_spaces@[x] <= old(self).height(),
            forall|x: int, y: int|
                0 <= x < old(self).width() && old(self).height() - column_spaces@[x] <= y < old(self).height()
                    ==> (#[trigger] old(self).cell(x, y)).is_none(),
        ensures
            final(self).inv(),
            final(self).dimensions == old(self).dimensions,
            final(self).origin == old(self).origin,
            old(self).next_handle <= final(self).next_handle <= old(self).next_handle + old(self).n_cells(),
            forall|x: int, y: int|
                0 <= x < old(self).width() && 0 <= y < old(self).height() ==> if y < old(self).height()
                    - column_spaces@[x] {
                    (#[trigger] final(self).cell(x, y)) == old(self).cell(x, y) && final(self).handle_of(x, y)
                        == old(self).handle_of(x, y)
                } else {
                    final(self).cell(x, y) == Some(tiles@[index_of(old(self).width(), x, y)])
                        && final(self).handle_of(x, y).is_some() && final(self).handle_of(x, y).unwrap().0
                        >= old(self).next_handle
                },
            old(events)@.len() <= final(events)@.len(),
            forall|k: int| 0 <= k < old(events)@.len() ==> #[trigger] final(events)@[k] == old(events)@[k],
            forall|k: int|
                old(events)@.len() <= k < final(events)@.len() ==> final(self).spawned_on(
                    #[trigger] final(events)@[k],
                    old(self).next_handle,
                ),
            forall|k1: int, k2: int|
                old(events)@.len() <= k1 < final(events)@.len() && old(events)@.len() <= k2 < final(events)@.len()
                    && k1 != k2 ==> spawn_target(#[trigger] final(events)@[k1]) != spawn_target(
                    #[trigger] final(events)@[k2],
                ),
            final(events)@.len() - old(events)@.len() == spaces_total(column_spaces@, column_spaces@.len() as int),
    {
        let w = self.dimensions.x;
        let h = self.dimensions.y;
        let ghost base = self.next_handle;
        let ghost wi = w as int;
        let ghost hi = h as int;
        let mut x: u32 = 0;
        while x < w
            invariant
                self.inv(),
                self.dimensions == old(self).dimensions,
                self.origin == old(self).origin,
                w == self.dimensions.x,
                h == self.dimensions.y,
                wi == w,
                hi == h,
                base == old(self).next_handle,
                old(self).has_handle_room(),
                x <= w,
                column_spaces@.len() == w,
                forall|xx: int| 0 <= xx < w ==> #[trigger] column_spaces@[xx] <= h,
                forall|xx: int, yy: int|
                    0 <= xx < w && h - column_spaces@[xx] <= yy < h ==> (#[trigger] old(self).cell(xx, yy)).is_none(),
                base <= self.next_handle <= base + x * hi,
                forall|xx: int, yy: int|
                    0 <= xx < w && 0 <= yy < h ==> if xx < x && yy >= h - column_spaces@[xx] {
                        #[trigger] self.cell(xx, yy) == Some(tiles@[index_of(wi, xx, yy)]) && self.handle_of(
                            xx,
                            yy,
                        ).is_some() && self.handle_of(xx, yy).unwrap().0 >= base
                    } else {
                        self.cell(xx, yy) == old(self).cell(xx, yy) && self.handle_of(xx, yy)
                            == old(self).handle_of(xx, yy)
                    },
                old(events)@.len() <= events@.len(),
                forall|k: int| 0 <= k < old(events)@.len() ==> #[trigger] events@[k] == old(events)@[k],
                forall|kk: int|
                    old(events)@.len() <= kk < events@.len() ==> self.spawned_on(#[trigger] events@[kk], base)
                        && spawn_target(events@[kk]).x < x && spawn_target(events@[kk]).y >= h - column_spaces@[spawn_target(events@[kk]).x as int],
                tiles@.len() == wi * hi,
                forall|k1: int, k2: int|
                    old(events)@.len() <= k1 < events@.len() && old(events)@.len() <= k2 < events@.len() && k1 != k2
                        ==> spawn_target(#[trigger] events@[k1]) != spawn_target(#[trigger] events@[k2]),
                events@.len() - old(events)@.len() == spaces_total(column_spaces@, x as int),
            decreases w - x,
        {
            let num_spaces = column_spaces[x as usize];
            proof {
                assert(x * hi + hi <= wi * hi) by (nonlinear_arith)
                    requires
                        x < wi,
                        hi >= 0,
                ;
            }
            let mut k: u32 = 0;
            while k < num_spaces
                invariant
                    self.inv(),
                    self.dimensions == old(self).dimensions,
                    self.origin == old(self).origin,
                    w == self.dimensions.x,
                    h == self.dimensions.y,
                    wi == w,
                    hi == h,
                    base == old(self).next_handle,
                    old(self).has_handle_room(),
                    x < w,
                    num_spaces == column_spaces@[x as int],
                    k <= num_spaces <= h,
                    x * hi + hi <= wi * hi,
                    column_spaces@.len() == w,
                    forall|xx: int| 0 <= xx < w ==> #[trigger] column_spaces@[xx] <= h,
                    forall|xx: int, yy: int|
                        0 <= xx < w && h - column_spaces@[xx] <= yy < h ==> (#[trigger] old(self).cell(xx, yy)).is_none(),
                    base <= self.next_handle <= base + x * hi + k,
                    forall|xx: int, yy: int|
                        0 <= xx < w && 0 <= yy < h ==> if (xx < x && yy >= h - column_spaces@[xx]) || (xx
                            == x && yy >= h - k) {
                            #[trigger] self.cell(xx, yy) == Some(tiles@[index_of(wi, xx, yy)]) && self.handle_of(
                                xx,
                                yy,
                            ).is_some() && self.handle_of(xx, yy).unwrap().0 >= base
                        } else {
                            self.cell(xx, yy) == old(self).cell(xx, yy) && self.handle_of(xx, yy)
                                == old(self).handle_of(xx, yy)
                        },
                    old(events)@.len() <= events@.len(),
                    forall|k: int| 0 <= k < old(events)@.len() ==> #[trigger] events@[k] == old(events)@[k],
                    forall|kk: int|
                        old(events)@.len() <= kk < events@.len() ==> self.spawned_on(#[trigger] events@[kk], base) && ((
                        spawn_target(events@[kk]).x < x && spawn_target(events@[kk]).y >= h
                            - column_spaces@[spawn_target(events@[kk]).x as int]) || (spawn_target(events@[kk]).x == x
                            && spawn_target(events@[kk]).y >= h - k)),
                    tiles@.len() == wi * hi,
                    forall|k1: int, k2: int|
                        old(events)@.len() <= k1 < events@.len() && old(events)@.len() <= k2 < events@.len() && k1
                            != k2 ==> spawn_target(#[trigger] events@[k1]) != spawn_target(#[trigger] events@[k2]),
                    events@.len() - old(events)@.len() == spaces_total(column_spaces@, x as int) + k,
                decreases num_spaces - k,
            {
                let ghost start = *self;
                let y = h - 1 - k;
                let to = GridPos { x, y };
                let i = self.idx(to);
                assert(self.cell(x as int, y as int) == old(self).cell(x as int, y as int));
                assert(old(self).cell(x as int, y as int).is_none());
                let tile = tiles[i];
                let ghost before = *self;
                let handle = self.place_new_tile(i, tile);
                proof {
                    assert forall|xx: int, yy: int| 0 <= xx < w && 0 <= yy < h && (xx != x || yy != y) implies
                        #[trigger] self.cell(xx, yy) == before.cell(xx, yy) && self.handle_of(xx, yy)
                        == before.handle_of(xx, yy) by {
                        lemma_index_in_range(wi, hi, xx, yy);
                        lemma_index_in_range(wi, hi, x as int, y as int);
                    }
                    assert(self.cell(x as int, y as int) == Some(tile));
                    assert(self.handle_of(x as int, y as int) == Some(handle));
                    assert forall|xx: int, yy: int| 0 <= xx < w && 0 <= yy < h implies if (xx < x && yy >= h
                        - column_spaces@[xx]) || (xx == x && yy >= h - (k + 1)) {
                        #[trigger] self.cell(xx, yy) == Some(tiles@[index_of(wi, xx, yy)]) && self.handle_of(
                            xx,
                            yy,
                        ).is_some() && self.handle_of(xx, yy).unwrap().0 >= base
                    } else {
                        self.cell(xx, yy) == old(self).cell(xx, yy) && self.handle_of(xx, yy)
                            == old(self).handle_of(xx, yy)
                    } by {
                        if xx != x || yy != y {
                            assert(self.cell(xx, yy) == before.cell(xx, yy));
                            assert(before.cell(xx, yy) == start.cell(xx, yy));
                            assert(before.handle_of(xx, yy) == start.handle_of(xx, yy));
                        }
                    }
                }
                let ghost e0 = events@;
                proof {
                    assert forall|kk: int| old(events)@.len() <= kk < e0.len() implies self.spawned_on(
                        #[trigger] e0[kk],
                        base,
                    ) by {
                        let t = spawn_target(e0[kk]);
                        assert(start.spawned_on(e0[kk], base));
                        assert(t.x != x || t.y != y);
                        assert(self.cell(t.x as int, t.y as int) == before.cell(t.x as int, t.y as int));
                    }
                }
                events.push(BoardEvent::Spawned { handle, tile, origin_row: y as u64 + h as u64, to });
                proof {
                    let last = events@.len() - 1;
                    assert(events@[last] == BoardEvent::Spawned { handle, tile, origin_row: (y + h) as u64, to });
                    assert(forall|kk: int| old(events)@.len() <= kk < e0.len() ==> #[trigger] events@[kk] == e0[kk]);
                }
                k = k + 1;
            }
            proof {
                assert((x + 1) * hi == x * hi + hi) by (nonlinear_arith);
                assert(spaces_total(column_spaces@, x + 1) == spaces_total(column_spaces@, x as int) + column_spaces@[x as int]);
            }
            x = x + 1;
        }
        proof {
            assert(x * hi <= wi * hi);
        }
    }

    /// Fills the top `column_spaces[x]` cells of each column `x` with new random
    /// tiles (see `refill_with`): one draw per empty cell.
    pub fn spawn_new_tiles(&mut self, column_spaces: &Vec<u32>, events: &mut Vec<BoardEvent>)
        requires
            old(self).inv(),
            old(self).has_handle_room(),
            column_spaces@.len() == old(self).width(),
            forall|x: int| 0 <= x < old(self).width() ==> #[trigger] column_spaces@[x] <= old(self).height(),
            forall|x: int, y: int|
                0 <= x < old(self).width() && old(self).height() - column_spaces@[x] <= y < old(self).height()
                    ==> (#[trigger] old(self).cell(x, y)).is_none(),
        ensures
            final(self).inv(),
            final(self).dimensions == old(self).dimensions,
            final(self).origin == old(self).origin,
            old(self).next_handle <= final(self).next_handle <= old(self).next_handle + old(self).n_cells(),
            forall|x: int, y: int|
                0 <= x < old(self).width() && 0 <= y < old(self).height() ==> if y < old(self).height()
                    - column_spaces@[x] {
                    (#[trigger] final(self).cell(x, y)) == old(self).cell(x, y) && final(self).handle_of(x, y)
                        == old(self).handle_of(x, y)
                } else {
                    is_rolled(final(self).cell(x, y)) && final(self).handle_of(x, y).is_some()
                        && final(self).handle_of(x, y).unwrap().0 >= old(self).next_handle
                },
            old(events)@.len() <= final(events)@.len(),
            forall|k: int| 0 <= k < old(events)@.len() ==> #[trigger] final(events)@[k] == old(events)@[k],
            forall|k: int|
                old(events)@.len() <= k < final(events)@.len() ==> final(self).spawned_on(
                    #[trigger] final(events)@[k],
                    old(self).next_handle,
                ),
            forall|k1: int, k2: int|
                old(events)@.len() <= k1 < final(events)@.len() && old(events)@.len() <= k2 < final(events)@.len()
                    && k1 != k2 ==> spawn_target(#[trigger] final(events)@[k1]) != spawn_target(
                    #[trigger] final(events)@[k2],
                ),
            final(events)@.len() - old(events)@.len() == spaces_total(column_spaces@, column_spaces@.len() as int),
    {
        let n = self.len();
        let mut tiles: Vec<TileDesc> = Vec::new();
        let mut i: usize = 0;
        while i < n
            invariant
                self.dimensions == old(self).dimensions,
                self.origin == old(self).origin,
                self.next_handle == old(self).next_handle,
                self.forward == old(self).forward,
                self.backward == old(self).backward,
                n == old(self).n_cells(),
                old(self).forward@.len() == n,
                i <= n,
                tiles@.len() == i,
                forall|k: int|
                    0 <= k < i && old(self).forward@[k].is_none() ==> is_rolled(Some(#[trigger] tiles@[k])),
            decreases n - i,
        {
            match self.forward[i] {
                Some(t) => tiles.push(t),
                None => tiles.push(TileDesc::new(&mut self.rng)),
            }
            i = i + 1;
        }
        let ghost b0 = *self;
        assert(b0.forward@ == old(self).forward@);
        assert forall|x: int, y: int|
            0 <= x < b0.width() && b0.height() - column_spaces@[x] <= y < b0.height() implies (
            #[trigger] b0.cell(x, y)).is_none() by {
            assert(b0.cell(x, y) == old(self).cell(x, y));
        }
        self.refill_with(column_spaces, &tiles, events);
        proof {
            assert forall|x: int, y: int|
                0 <= x < old(self).width() && old(self).height() - column_spaces@[x] <= y < old(self).height()
                    implies is_rolled(#[trigger] self.cell(x, y)) by {
                lemma_index_in_range(old(self).width(), old(self).height(), x, y);
                assert(b0.cell(x, y) == old(self).cell(x, y));
                assert(b0.forward@[index_of(b0.width(), x, y)].is_none());
            }
        }
    }
}

/// The `Despawned` events for the marked cells among the first `k`, in index order.
pub open spec fn despawn_events(backward: Seq<Option<Handle>>, mask: Seq<bool>, k: nat) -> Seq<BoardEvent>
    decreases k,
{
    if k == 0 {
        Seq::empty()
    } else {
        let earlier = despawn_events(backward, mask, (k - 1) as nat);
        if mask[k - 1] && backward[k - 1].is_some() {
            earlier.push(BoardEvent::Despawned { handle: backward[k - 1].unwrap() })
        } else {
            earlier
        }
    }
}

} // verus!
