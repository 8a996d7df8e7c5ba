use crate::board::{lemma_index_in_range, GameBoard};
use crate::gravity::{
    collapsed, empty_slots, lemma_packed_add, lemma_packed_all_empty, lemma_packed_all_full,
    lemma_packed_len, lemma_settled_is_collapsed, packed, Slot,
};
use vstd::prelude::*;

verus! {

/// On a well-formed board a cell holds a descriptor exactly when it holds a
/// handle, and no handle is bound to two cells: each handle leads back to one
/// cell.
pub proof fn lemma_bijection(b: &GameBoard)
    requires
        b.inv(),
    ensures
        forall|x: int, y: int|
            0 <= x < b.width() && 0 <= y < b.height() ==> (#[trigger] b.handle_of(x, y)).is_some()
                == b.cell(x, y).is_some(),
        forall|x1: int, y1: int, x2: int, y2: int|
            0 <= x1 < b.width() && 0 <= y1 < b.height() && 0 <= x2 < b.width() && 0 <= y2 < b.height() && (
            x1 != x2 || y1 != y2) && (#[trigger] b.handle_of(x1, y1)).is_some() && (#[trigger] b.handle_of(
                x2,
                y2,
            )).is_some() ==> b.handle_of(x1, y1) != b.handle_of(x2, y2),
{
    assert forall|x: int, y: int| 0 <= x < b.width() && 0 <= y < b.height() implies (#[trigger] b.handle_of(
        x,
        y,
    )).is_some() == b.cell(x, y).is_some() by {
        lemma_index_in_range(b.width(), b.height(), x, y);
    }
    assert forall|x1: int, y1: int, x2: int, y2: int|
        0 <= x1 < b.width() && 0 <= y1 < b.height() && 0 <= x2 < b.width() && 0 <= y2 < b.height() && (x1
            != x2 || y1 != y2) && (#[trigger] b.handle_of(x1, y1)).is_some() && (#[trigger] b.handle_of(
            x2,
            y2,
        )).is_some() implies b.handle_of(x1, y1) != b.handle_of(x2, y2) by {
        lemma_index_in_range(b.width(), b.height(), x1, y1);
        lemma_index_in_range(b.width(), b.height(), x2, y2);
    }
}

/// Collapsing a column with no empty cell leaves it as it is and reports no
/// empty cell.
pub proof fn lemma_collapse_full_column(s: Seq<Slot>)
    requires
        forall|i: int| 0 <= i < s.len() ==> (#[trigger] s[i]).0.is_some(),
    ensures
        collapsed(s) == s,
        s.len() - packed(s).len() == 0,
{
    lemma_packed_all_full(s);
    assert(collapsed(s) =~= s);
}

/// Collapsing is idempotent: a collapsed column collapses to itself and keeps
/// the same occupied slots, so it reports the same number of empty cells.
pub proof fn lemma_collapse_idempotent(s: Seq<Slot>)
    ensures
        collapsed(collapsed(s)) == collapsed(s),
        packed(collapsed(s)) == packed(s),
{
    lemma_packed_len(s);
    let c = collapsed(s);
    let p = packed(s);
    let e = empty_slots((s.len() - p.len()) as nat);
    assert forall|j: int| 0 <= j < p.len() implies (#[trigger] c[j]).0.is_some() by {
        assert(c[j] == p[j]);
    }
    lemma_settled_is_collapsed(c, p.len() as int);
    lemma_packed_add(p, e);
    lemma_packed_all_full(p);
    lemma_packed_all_empty(e);
    assert(p + packed(e) =~= p);
}

} // verus!
