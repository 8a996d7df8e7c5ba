use crate::board::{index_of, lemma_index_in_range, GameBoard};
use crate::components::GridPos;
use crate::tile::TileColor;
use vstd::prelude::*;

verus! {

/// Shortest run of equal colours that clears.
pub const MIN_MATCH_LENGTH: usize = 3;

/// Position `k` of `line` lies in a run of at least `MIN_MATCH_LENGTH` equal colours.
pub open spec fn run_at(line: Seq<TileColor>, k: int) -> bool {
    exists|s: int|
        #![trigger line[s]]
        0 <= s <= k < s + MIN_MATCH_LENGTH && s + MIN_MATCH_LENGTH <= line.len() && forall|j: int|
            s <= j < s + MIN_MATCH_LENGTH ==> #[trigger] line[j] == line[s]
}

/// In a maximal run `[a, b)` of equal colours, a position is in a long enough
/// run exactly when the whole run is long enough.
proof fn lemma_maximal_run(line: Seq<TileColor>, a: int, b: int)
    requires
        0 <= a < b <= line.len(),
        forall|j: int| a <= j < b ==> #[trigger] line[j] == line[a],
        a == 0 || line[a - 1] != line[a],
        b == line.len() || line[b] != line[a],
    ensures
        forall|j: int| a <= j < b ==> run_at(line, j) == (b - a >= MIN_MATCH_LENGTH),
{
    let m = MIN_MATCH_LENGTH as int;
    assert forall|j: int| a <= j < b implies run_at(line, j) == (b - a >= m) by {
        if b - a >= m {
            let s = if j + m <= b {
                j
            } else {
                b - m
            };
            assert(line[s] == line[a]);
            assert(forall|i: int| s <= i < s + m ==> #[trigger] line[i] == line[s]);
            assert(0 <= s <= j < s + m && s + m <= line.len());
            assert(run_at(line, j));
        } else if run_at(line, j) {
            let s = choose|s: int|
                #![trigger line[s]]
                0 <= s <= j < s + m && s + m <= line.len() && forall|i: int|
                    s <= i < s + m ==> #[trigger] line[i] == line[s];
            if s < a {
                assert(line[a - 1] == line[s]);
                assert(line[a] == line[s]);
            } else {
                assert(line[b] == line[s]);
                assert(line[b - 1] == line[s]);
            }
        }
    }
}

/// Marks every position of `line` that lies in a run of at least
/// `MIN_MATCH_LENGTH` equal colours, walking the line once and closing each
/// run when the colour changes or the line ends.
pub fn line_runs(line: &Vec<TileColor>) -> (r: Vec<bool>)
    ensures
        r@.len() == line@.len(),
        forall|k: int| 0 <= k < line@.len() ==> #[trigger] r@[k] == run_at(line@, k),
{
    let n = line.len();
    let mut r: Vec<bool> = Vec::new();
    let mut i: usize = 0;
    while i < n
        invariant
            i <= n,
            n == line@.len(),
            r@.len() == i,
            forall|k: int| 0 <= k < i ==> !#[trigger] r@[k],
        decreases n - i,
    {
        r.push(false);
        i = i + 1;
    }
    if n == 0 {
        return r;
    }
    let mut count: usize = 1;
    let mut color = line[0];
    let mut x: usize = 1;
    while x < n
        invariant
            1 <= x <= n,
            n == line@.len(),
            r@.len() == n,
            1 <= count <= x,
            color == line@[x - 1],
            forall|j: int| x - count <= j < x ==> #[trigger] line@[j] == color,
            x - count == 0 || line@[x - count - 1] != color,
            forall|j: int| 0 <= j < x - count ==> #[trigger] r@[j] == run_at(line@, j),
            forall|j: int| x - count <= j < n ==> !#[trigger] r@[j],
        decreases n - x,
    {
        let next = line[x];
        if next == color {
            count = count + 1;
        } else {
            proof {
                lemma_maximal_run(line@, x - count, x as int);
            }
            if count >= MIN_MATCH_LENGTH {
                let first = x - count;
                let mut b: usize = first;
                while b < x
                    invariant
                        first <= b <= x,
                        first == x - count,
                        r@.len() == n,
                        x < n,
                        forall|j: int| 0 <= j < first ==> #[trigger] r@[j] == run_at(line@, j),
                        forall|j: int| first <= j < b ==> #[trigger] r@[j],
                        forall|j: int| b <= j < n ==> !#[trigger] r@[j],
                    decreases x - b,
                {
                    r.set(b, true);
                    b = b + 1;
                }
            }
            color = next;
            count = 1;
        }
        x = x + 1;
    }
    proof {
        lemma_maximal_run(line@, n - count, n as int);
    }
    if count >= MIN_MATCH_LENGTH {
        let first = n - count;
        let mut b: usize = first;
        while b < n
            invariant
                first <= b <= n,
                first == n - count,
                r@.len() == n,
                forall|j: int| 0 <= j < first ==> #[trigger] r@[j] == run_at(line@, j),
                forall|j: int| first <= j < b ==> #[trigger] r@[j],
                forall|j: int| b <= j < n ==> !#[trigger] r@[j],
            decreases n - b,
        {
            r.set(b, true);
            b = b + 1;
        }
    }
    r
}

impl GameBoard {
    /// Colours of row `y`, left to right.
    pub open spec fn row_line(&self, y: int) -> Seq<TileColor> {
        Seq::new(self.dimensions.x as nat, |k: int| self.cell(k, y).unwrap().color)
    }

    /// Colours of column `x`, bottom to top.
    pub open spec fn column_line(&self, x: int) -> Seq<TileColor> {
        Seq::new(self.dimensions.y as nat, |k: int| self.cell(x, k).unwrap().color)
    }

    pub open spec fn h_matched(&self, x: int, y: int) -> bool {
        run_at(self.row_line(y), x)
    }

    pub open spec fn v_matched(&self, x: int, y: int) -> bool {
        run_at(self.column_line(x), y)
    }

    /// Cell `(x, y)` lies in a horizontal or a vertical run that clears.
    pub open spec fn matched(&self, x: int, y: int) -> bool {
        self.h_matched(x, y) || self.v_matched(x, y)
    }

    /// No cell of the board lies in a run that clears.
    pub open spec fn no_matches(&self) -> bool {
        forall|x: int, y: int|
            0 <= x < self.width() && 0 <= y < self.height() ==> !#[trigger] self.matched(x, y)
    }

    /// A mask over the cells marks exactly the cells that clear.
    pub open spec fn is_match_mask(&self, mask: Seq<bool>) -> bool {
        &&& mask.len() == self.n_cells()
        &&& forall|x: int, y: int|
            0 <= x < self.width() && 0 <= y < self.height() ==> mask[index_of(self.width(), x, y)]
                == #[trigger] self.matched(x, y)
    }

    fn row_colors(&self, y: u32) -> (r: Vec<TileColor>)
        requires
            self.shape_ok(),
            self.is_full(),
            y < self.dimensions.y,
        ensures
            r@ == self.row_line(y as int),
    {
        let w = self.dimensions.x;
        let mut r: Vec<TileColor> = Vec::new();
        let mut x: u32 = 0;
        while x < w
            invariant
                self.shape_ok(),
                self.is_full(),
                y < self.dimensions.y,
                w == self.dimensions.x,
                x <= w,
                r@.len() == x,
                forall|k: int| 0 <= k < x ==> #[trigger] r@[k] == self.cell(k, y as int).unwrap().color,
            decreases w - x,
        {
            let i = self.idx(GridPos { x, y });
            r.push(self.forward[i].unwrap().color);
            x = x + 1;
        }
        assert(r@ =~= self.row_line(y as int));
        r
    }

    fn column_colors(&self, x: u32) -> (r: Vec<TileColor>)
        requires
            self.shape_ok(),
            self.is_full(),
            x < self.dimensions.x,
        ensures
            r@ == self.column_line(x as int),
    {
        let h = self.dimensions.y;
        let mut r: Vec<TileColor> = Vec::new();
        let mut y: u32 = 0;
        while y < h
            invariant
                self.shape_ok(),
                self.is_full(),
                x < self.dimensions.x,
                h == self.dimensions.y,
                y <= h,
                r@.len() == y,
                forall|k: int| 0 <= k < y ==> #[trigger] r@[k] == self.cell(x as int, k).unwrap().color,
            decreases h - y,
        {
            let i = self.idx(GridPos { x, y });
            r.push(self.forward[i].unwrap().color);
            y = y + 1;
        }
        assert(r@ =~= self.column_line(x as int));
        r
    }

    /// Adds to the mask every cell that lies in a horizontal run that clears.
    pub fn resolve_horizontal_matches(&self, to_be_deleted: &mut Vec<bool>)
        requires
            self.shape_ok(),
            self.is_full(),
            old(to_be_deleted)@.len() == self.n_cells(),
        ensures
            final(to_be_deleted)@.len() == self.n_cells(),
            forall|x: int, y: int|
                0 <= x < self.width() && 0 <= y < self.height() ==> #[trigger] final(to_be_deleted)@[index_of(
                    self.width(),
                    x,
                    y,
                )] == (old(to_be_deleted)@[index_of(self.width(), x, y)] || self.h_matched(x, y)),
    {
        let w = self.dimensions.x;
        let h = self.dimensions.y;
        let mut y: u32 = 0;
        while y < h
            invariant
                self.shape_ok(),
                self.is_full(),
                w == self.dimensions.x,
                h == self.dimensions.y,
                y <= h,
                to_be_deleted@.len() == self.n_cells(),
                forall|xx: int, yy: int|
                    0 <= xx < w && 0 <= yy < h ==> #[trigger] to_be_deleted@[index_of(w as int, xx, yy)]
                        == (old(to_be_deleted)@[index_of(w as int, xx, yy)] || (yy < y
                        && self.h_matched(xx, yy))),
            decreases h - y,
        {
            let colors = self.row_colors(y);
            let runs = line_runs(&colors);
            let mut x: u32 = 0;
            while x < w
                invariant
                    self.shape_ok(),
                    w == self.dimensions.x,
                    h == self.dimensions.y,
                    x <= w,
                    y < h,
                    runs@.len() == w,
                    forall|k: int| 0 <= k < w ==> #[trigger] runs@[k] == self.h_matched(k, y as int),
                    to_be_deleted@.len() == self.n_cells(),
                    forall|xx: int, yy: int|
                        0 <= xx < w && 0 <= yy < h ==> #[trigger] to_be_deleted@[index_of(w as int, xx, yy)]
                            == (old(to_be_deleted)@[index_of(w as int, xx, yy)] || (yy < y
                            && self.h_matched(xx, yy)) || (yy == y && xx < x && self.h_matched(xx, yy))),
                decreases w - x,
            {
                let i = self.idx(GridPos { x, y });
                let v = to_be_deleted[i] || runs[x as usize];
                to_be_deleted.set(i, v);
                proof {
                    assert forall|xx: int, yy: int| 0 <= xx < w && 0 <= yy < h implies #[trigger] to_be_deleted@[index_of(w as int, xx, yy)]
                        == (old(to_be_deleted)@[index_of(w as int, xx, yy)] || (yy < y
                        && self.h_matched(xx, yy)) || (yy == y && xx < x + 1 && self.h_matched(xx, yy))) by {
                        lemma_index_in_range(w as int, h as int, xx, yy);
                        lemma_index_in_range(w as int, h as int, x as int, y as int);
                    }
                }
                x = x + 1;
            }
            y = y + 1;
        }
    }

    /// Adds to the mask every cell that lies in a vertical run that clears.
    pub fn resolve_vertical_matches(&self, to_be_deleted: &mut Vec<bool>)
        requires
            self.shape_ok(),
            self.is_full(),
            old(to_be_deleted)@.len() == self.n_cells(),
        ensures
            final(to_be_deleted)@.len() == self.n_cells(),
            forall|x: int, y: int|
                0 <= x < self.width() && 0 <= y < self.height() ==> #[trigger] final(to_be_deleted)@[index_of(
                    self.width(),
                    x,
                    y,
                )] == (old(to_be_deleted)@[index_of(self.width(), x, y)] || self.v_matched(x, y)),
    {
        let w = self.dimensions.x;
        let h = self.dimensions.y;
        let mut x: u32 = 0;
        while x < w
            invariant
                self.shape_ok(),
                self.is_full(),
                w == self.dimensions.x,
                h == self.dimensions.y,
                x <= w,
                to_be_deleted@.len() == self.n_cells(),
                forall|xx: int, yy: int|
                    0 <= xx < w && 0 <= yy < h ==> #[trigger] to_be_deleted@[index_of(w as int, xx, yy)]
                        == (old(to_be_deleted)@[index_of(w as int, xx, yy)] || (xx < x
                        && self.v_matched(xx, yy))),
            decreases w - x,
        {
            let colors = self.column_colors(x);
            let runs = line_runs(&colors);
            let mut y: u32 = 0;
            while y < h
                invariant
                    self.shape_ok(),
                    w == self.dimensions.x,
                    h == self.dimensions.y,
                    y <= h,
                    x < w,
                    runs@.len() == h,
                    forall|k: int| 0 <= k < h ==> #[trigger] runs@[k] == self.v_matched(x as int, k),
                    to_be_deleted@.len() == self.n_cells(),
                    forall|xx: int, yy: int|
                        0 <= xx < w && 0 <= yy < h ==> #[trigger] to_be_deleted@[index_of(w as int, xx, yy)]
                            == (old(to_be_deleted)@[index_of(w as int, xx, yy)] || (xx < x
                            && self.v_matched(xx, yy)) || (xx == x && yy < y && self.v_matched(xx, yy))),
                decreases h - y,
            {
                let i = self.idx(GridPos { x, y });
                let v = to_be_deleted[i] || runs[y as usize];
                to_be_deleted.set(i, v);
                proof {
                    assert forall|xx: int, yy: int| 0 <= xx < w && 0 <= yy < h implies #[trigger] to_be_deleted@[index_of(w as int, xx, yy)]
                        == (old(to_be_deleted)@[index_of(w as int, xx, yy)] || (xx < x
                        && self.v_matched(xx, yy)) || (xx == x && yy < y + 1 && self.v_matched(xx, yy))) by {
                        lemma_index_in_range(w as int, h as int, xx, yy);
                        lemma_index_in_range(w as int, h as int, x as int, y as int);
                    }
                }
                y = y + 1;
            }
            x = x + 1;
        }
    }

    /// The set of cells to clear, as a mask over the linear indices: the union
    /// of the horizontal and the vertical runs.
    pub fn find_matches(&self) -> (r: Vec<bool>)
        requires
            self.shape_ok(),
            self.is_full(),
        ensures
            self.is_match_mask(r@),
    {
        let n = self.len();
        let mut mask: Vec<bool> = Vec::new();
        let mut i: usize = 0;
        while i < n
            invariant
                i <= n,
                mask@.len() == i,
                forall|k: int| 0 <= k < i ==> !#[trigger] mask@[k],
            decreases n - i,
        {
            mask.push(false);
            i = i + 1;
        }
        self.resolve_horizontal_matches(&mut mask);
        self.resolve_vertical_matches(&mut mask);
        proof {
            assert forall|x: int, y: int| 0 <= x < self.width() && 0 <= y < self.height() implies mask@[index_of(self.width(), x, y)]
                == #[trigger] self.matched(x, y) by {
                lemma_index_in_range(self.width(), self.height(), x, y);
            }
        }
        mask
    }
}

} // verus!
