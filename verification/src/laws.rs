//! Laws of the engine that relate several operations: the win condition
//! as a statement about every cell, the flag round trip, the order
//! independence of flags on different cells, and the completeness of the
//! chain reveal over a connected zero region.

use vstd::prelude::*;

use crate::cell::{flag_delta, flag_toggle, is_solved_dot, Dot};
use crate::grid::{
    adj_mines, cell_at, flag_board, grid_dims, in_grid, lemma_adj_mines_agree,
    lemma_grid_count_bounds, lemma_update_cell, mines_agree, neighbors_of, numbers_correct,
    reveal_frame, solved_count, solved_pred, zeros_saturated,
};

verus! {

/// The game is cleared exactly when every cell is accounted for: the
/// solved count reaches the cell count exactly when every safe cell has
/// been revealed and every mine has been flagged.
pub proof fn lemma_clear_iff_all_solved(b: Seq<Seq<Dot>>, w: int, h: int)
    requires
        grid_dims(b, w, h),
    ensures
        solved_count(b) == w * h <==> (forall|x: int, y: int|
            in_grid(w, h, x, y) ==> is_solved_dot(#[trigger] cell_at(b, x, y))),
        0 <= solved_count(b) <= w * h,
{
    lemma_grid_count_bounds(b, w, h, solved_pred());
    assert(forall|d: Dot| #[trigger] (solved_pred())(d) == is_solved_dot(d));
}

/// Flagging a cell and flagging it again restores the board exactly,
/// and the two moves of the solved counter cancel: the flag round trip,
/// for mines and safe cells alike.
pub proof fn lemma_flag_round_trip(b: Seq<Seq<Dot>>, w: int, h: int, x: int, y: int)
    requires
        grid_dims(b, w, h),
        in_grid(w, h, x, y),
    ensures
        flag_board(flag_board(b, x, y), x, y) == b,
        flag_delta(cell_at(b, x, y)) + flag_delta(cell_at(flag_board(b, x, y), x, y)) == 0,
{
    let d = cell_at(b, x, y);
    let b1 = flag_board(b, x, y);
    lemma_update_cell(b, w, h, x, y, flag_toggle(d));
    assert(cell_at(b1, x, y) == flag_toggle(d));
    lemma_update_cell(b1, w, h, x, y, flag_toggle(flag_toggle(d)));
    assert(flag_toggle(flag_toggle(d)) == d);
    let b2 = flag_board(b1, x, y);
    assert forall|j: int| 0 <= j < h implies #[trigger] b2[j] == b[j] by {
        if j == y {
            assert(b2[j] =~= b[j]);
        } else {
            assert(b1[j] == b[j]);
        }
    }
    assert(b2 =~= b);
}

/// Flag toggles on two different cells commute: disjoint flag
/// operations can be played in either order and leave the same board.
pub proof fn lemma_flag_commutes(
    b: Seq<Seq<Dot>>,
    w: int,
    h: int,
    x1: int,
    y1: int,
    x2: int,
    y2: int,
)
    requires
        grid_dims(b, w, h),
        in_grid(w, h, x1, y1),
        in_grid(w, h, x2, y2),
        x1 != x2 || y1 != y2,
    ensures
        flag_board(flag_board(b, x1, y1), x2, y2) == flag_board(flag_board(b, x2, y2), x1, y1),
{
    let a1 = flag_board(b, x1, y1);
    let a2 = flag_board(a1, x2, y2);
    let c1 = flag_board(b, x2, y2);
    let c2 = flag_board(c1, x1, y1);
    lemma_update_cell(b, w, h, x1, y1, flag_toggle(cell_at(b, x1, y1)));
    lemma_update_cell(b, w, h, x2, y2, flag_toggle(cell_at(b, x2, y2)));
    assert(cell_at(a1, x2, y2) == cell_at(b, x2, y2));
    assert(cell_at(c1, x1, y1) == cell_at(b, x1, y1));
    lemma_update_cell(a1, w, h, x2, y2, flag_toggle(cell_at(a1, x2, y2)));
    lemma_update_cell(c1, w, h, x1, y1, flag_toggle(cell_at(c1, x1, y1)));
    assert forall|j: int| 0 <= j < h implies #[trigger] a2[j] == c2[j] by {
        assert(a2[j] =~= c2[j]);
    }
    assert(a2 =~= c2);
}

/// A chain of cells, each one a neighbour of the one before it, all
/// unexplored on the board before a reveal, and each but possibly the
/// last with no mine next to it: a path into a connected zero region.
pub open spec fn zero_chain(b: Seq<Seq<Dot>>, w: int, h: int, path: Seq<(int, int)>) -> bool {
    &&& forall|k: int|
        0 <= k < path.len() ==> in_grid(w, h, (#[trigger] path[k]).0, path[k].1)
    &&& forall|k: int|
        0 <= k < path.len() ==> cell_at(b, (#[trigger] path[k]).0, path[k].1) == Dot::Unexplored
    &&& forall|k: int|
        0 <= k < path.len() - 1 ==> adj_mines(b, w, h, (#[trigger] path[k]).0, path[k].1) == 0
    &&& forall|k: int|
        0 <= k < path.len() - 1 ==> neighbors_of(w, h, (#[trigger] path[k]).0, path[k].1).contains(
            path[k + 1],
        )
}

/// Revealing a cell with no adjacent mines opens its entire connected
/// zero region: after a sweep whose outcome satisfies the reveal frame,
/// mine agreement, and chain-reveal saturation that `sweep` ensures,
/// every cell reachable from the revealed one along a zero chain has
/// come up as its true adjacent-mine count.
#[verifier::rlimit(100)]
pub proof fn lemma_zero_region_revealed(
    b0: Seq<Seq<Dot>>,
    b2: Seq<Seq<Dot>>,
    w: int,
    h: int,
    path: Seq<(int, int)>,
)
    requires
        grid_dims(b0, w, h),
        mines_agree(b0, b2, w, h),
        reveal_frame(b0, b2, w, h),
        zeros_saturated(b0, b2, w, h),
        numbers_correct(b2, w, h),
        zero_chain(b0, w, h, path),
        path.len() >= 1,
        cell_at(b2, path[0].0, path[0].1) is Number,
    ensures
        forall|k: int|
            0 <= k < path.len() ==> #[trigger] cell_at(b2, path[k].0, path[k].1) is Number
                && cell_at(b2, path[k].0, path[k].1)->Number_0 == adj_mines(
                b2,
                w,
                h,
                path[k].0,
                path[k].1,
            ),
    decreases path.len(),
{
    if path.len() >= 2 {
        let prefix = path.drop_last();
        assert(forall|k: int| 0 <= k < prefix.len() ==> #[trigger] prefix[k] == path[k]);
        assert(zero_chain(b0, w, h, prefix));
        lemma_zero_region_revealed(b0, b2, w, h, prefix);
        let n = path.len() - 1;
        let prev = path[n - 1];
        let last = path[n];
        assert(cell_at(b2, prev.0, prev.1) is Number);
        lemma_adj_mines_agree(b0, b2, w, h, prev.0, prev.1);
        assert(adj_mines(b2, w, h, prev.0, prev.1) == 0);
        assert(cell_at(b2, prev.0, prev.1) == Dot::Number(0u64));
        let nbrs = neighbors_of(w, h, prev.0, prev.1);
        assert(nbrs.contains(last));
        let q = choose|q: int| 0 <= q < nbrs.len() && nbrs[q] == last;
        assert(cell_at(b2, nbrs[q].0, nbrs[q].1) != Dot::Unexplored);
        assert(cell_at(b0, last.0, last.1) == Dot::Unexplored);
        assert(cell_at(b2, last.0, last.1) is Number);
    }
    assert forall|k: int| 0 <= k < path.len() implies #[trigger] cell_at(
        b2,
        path[k].0,
        path[k].1,
    ) is Number && cell_at(b2, path[k].0, path[k].1)->Number_0 == adj_mines(
        b2,
        w,
        h,
        path[k].0,
        path[k].1,
    ) by {
        if k < path.len() - 1 {
            let prefix = path.drop_last();
            assert(prefix[k] == path[k]);
            assert(cell_at(b2, prefix[k].0, prefix[k].1) is Number);
        }
        assert(cell_at(b2, path[k].0, path[k].1) is Number);
    }
}

} // verus!
