//! Spec-level model of the board: a sequence of rows of cells, the
//! eight-neighbour adjacency bounded by the board edges, cell counting,
//! and the relations that the engine's contracts are stated over.

use vstd::prelude::*;

use crate::cell::{is_mine_dot, is_solved_dot, flag_toggle, Dot};

verus! {

/// Whether `(x, y)` lies on a `w` by `h` board.
pub open spec fn in_grid(w: int, h: int, x: int, y: int) -> bool {
    0 <= x < w && 0 <= y < h
}

/// Whether `b` is a rectangular grid of `h` rows of width `w`.
pub open spec fn grid_dims(b: Seq<Seq<Dot>>, w: int, h: int) -> bool {
    b.len() == h && forall|y: int| 0 <= y < h ==> (#[trigger] b[y]).len() == w
}

/// The cell at column `x` of row `y`.
pub open spec fn cell_at(b: Seq<Seq<Dot>>, x: int, y: int) -> Dot {
    b[y][x]
}

/// The board with the cell at `(x, y)` replaced by `d`.
pub open spec fn update_cell(b: Seq<Seq<Dot>>, x: int, y: int, d: Dot) -> Seq<Seq<Dot>> {
    b.update(y, b[y].update(x, d))
}

/// The offset pair at position `j` of the three-by-three block around a
/// cell, walked by column offset first and row offset second: position 4
/// is the cell itself.
pub open spec fn block_offset(j: int) -> (int, int) {
    (j / 3 - 1, j % 3 - 1)
}

/// The eight offsets to a cell's neighbours, in the order the engine
/// walks them: the three-by-three block around the cell with the cell
/// itself left out.
pub open spec fn neighbor_offsets() -> Seq<(int, int)> {
    Seq::new(
        8,
        |k: int|
            block_offset(
                if k < 4 {
                    k
                } else {
                    k + 1
                },
            ),
    )
}

/// The first `k` neighbour offsets of `(x, y)`, kept when they land on
/// the board.
pub open spec fn neighbors_upto(w: int, h: int, x: int, y: int, k: int) -> Seq<(int, int)>
    decreases k,
{
    if k <= 0 {
        Seq::empty()
    } else {
        let prev = neighbors_upto(w, h, x, y, k - 1);
        let d = neighbor_offsets()[k - 1];
        if in_grid(w, h, x + d.0, y + d.1) {
            prev.push((x + d.0, y + d.1))
        } else {
            prev
        }
    }
}

/// The coordinates of the up-to-eight neighbours of `(x, y)` that lie on
/// the board, in the engine's walking order.
pub open spec fn neighbors_of(w: int, h: int, x: int, y: int) -> Seq<(int, int)> {
    neighbors_upto(w, h, x, y, 8)
}

/// Whether `p` is one of the up-to-eight cells around `(x, y)`, without
/// regard to the board's edges.
pub open spec fn adjacent_cells(x: int, y: int, p: (int, int)) -> bool {
    -1 <= p.0 - x <= 1 && -1 <= p.1 - y <= 1 && p != (x, y)
}

/// Membership in the first `k` neighbour positions, spelled out: the
/// listed coordinates are exactly the in-bounds targets of the first `k`
/// offsets.
proof fn lemma_neighbors_upto_membership(w: int, h: int, x: int, y: int, k: int)
    requires
        0 <= k <= 8,
    ensures
        forall|p: (int, int)|
            #[trigger] neighbors_upto(w, h, x, y, k).contains(p) <==> exists|j: int|
                0 <= j < k && in_grid(
                    w,
                    h,
                    x + (#[trigger] neighbor_offsets()[j]).0,
                    y + neighbor_offsets()[j].1,
                ) && p == (x + neighbor_offsets()[j].0, y + neighbor_offsets()[j].1),
    decreases k,
{
    if k > 0 {
        lemma_neighbors_upto_membership(w, h, x, y, k - 1);
        let prev = neighbors_upto(w, h, x, y, k - 1);
        let cur = neighbors_upto(w, h, x, y, k);
        let d = neighbor_offsets()[k - 1];
        assert forall|p: (int, int)| #[trigger] cur.contains(p) implies exists|j: int|
            0 <= j < k && in_grid(
                w,
                h,
                x + (#[trigger] neighbor_offsets()[j]).0,
                y + neighbor_offsets()[j].1,
            ) && p == (x + neighbor_offsets()[j].0, y + neighbor_offsets()[j].1) by {
            if in_grid(w, h, x + d.0, y + d.1) {
                let i = choose|i: int| 0 <= i < cur.len() && cur[i] == p;
                if i < prev.len() {
                    assert(prev.contains(p));
                } else {
                    assert(p == (x + d.0, y + d.1));
                    assert(0 <= k - 1 < k && in_grid(
                        w,
                        h,
                        x + neighbor_offsets()[k - 1].0,
                        y + neighbor_offsets()[k - 1].1,
                    ) && p == (x + neighbor_offsets()[k - 1].0, y + neighbor_offsets()[k - 1].1));
                }
            } else {
                assert(prev.contains(p));
            }
        }
        assert forall|p: (int, int)|
            (exists|j: int|
                0 <= j < k && in_grid(
                    w,
                    h,
                    x + (#[trigger] neighbor_offsets()[j]).0,
                    y + neighbor_offsets()[j].1,
                ) && p == (
                    x + neighbor_offsets()[j].0,
                    y + neighbor_offsets()[j].1,
                )) implies #[trigger] cur.contains(p) by {
            let j = choose|j: int|
                0 <= j < k && in_grid(
                    w,
                    h,
                    x + (#[trigger] neighbor_offsets()[j]).0,
                    y + neighbor_offsets()[j].1,
                ) && p == (x + neighbor_offsets()[j].0, y + neighbor_offsets()[j].1);
            if j < k - 1 {
                assert(prev.contains(p));
                let i = choose|i: int| 0 <= i < prev.len() && prev[i] == p;
                assert(cur[i] == p);
            } else {
                assert(in_grid(w, h, x + d.0, y + d.1));
                assert(cur[cur.len() - 1] == p);
            }
        }
    }
}

/// The neighbour list of a cell holds exactly the adjacent cells that lie
/// on the board.
pub proof fn lemma_neighbors_contain(w: int, h: int, x: int, y: int)
    ensures
        forall|p: (int, int)|
            #[trigger] neighbors_of(w, h, x, y).contains(p) <==> (in_grid(w, h, p.0, p.1)
                && adjacent_cells(x, y, p)),
{
    lemma_neighbors_upto_membership(w, h, x, y, 8);
    assert forall|p: (int, int)| #[trigger] neighbors_of(w, h, x, y).contains(p) implies (in_grid(
        w,
        h,
        p.0,
        p.1,
    ) && adjacent_cells(x, y, p)) by {
        let j = choose|j: int|
            0 <= j < 8 && in_grid(
                w,
                h,
                x + (#[trigger] neighbor_offsets()[j]).0,
                y + neighbor_offsets()[j].1,
            ) && p == (x + neighbor_offsets()[j].0, y + neighbor_offsets()[j].1);
        assert(neighbor_offsets()[j] == block_offset(
            if j < 4 {
                j
            } else {
                j + 1
            },
        ));
    }
    assert forall|p: (int, int)|
        in_grid(w, h, p.0, p.1) && adjacent_cells(x, y, p) implies #[trigger] neighbors_of(
        w,
        h,
        x,
        y,
    ).contains(p) by {
        let dx = p.0 - x;
        let dy = p.1 - y;
        let jb = (dx + 1) * 3 + (dy + 1);
        let j = if jb < 4 {
            jb
        } else {
            jb - 1
        };
        assert(jb != 4);
        assert(0 <= j < 8);
        assert(neighbor_offsets()[j] == block_offset(jb));
        assert(block_offset(jb) == (dx, dy));
        assert(in_grid(w, h, x + neighbor_offsets()[j].0, y + neighbor_offsets()[j].1) && p == (
            x + neighbor_offsets()[j].0,
            y + neighbor_offsets()[j].1,
        ));
    }
}

/// Adjacency is symmetric: a cell's neighbour has that cell among its own
/// neighbours.
pub proof fn lemma_neighbors_symmetric(w: int, h: int, x: int, y: int, p: (int, int))
    requires
        in_grid(w, h, x, y),
        neighbors_of(w, h, x, y).contains(p),
    ensures
        in_grid(w, h, p.0, p.1),
        neighbors_of(w, h, p.0, p.1).contains((x, y)),
{
    lemma_neighbors_contain(w, h, x, y);
    lemma_neighbors_contain(w, h, p.0, p.1);
    assert(adjacent_cells(p.0, p.1, (x, y)));
}

/// How many of the listed coordinates hold a mine, flagged or not.
pub open spec fn list_mine_count(b: Seq<Seq<Dot>>, ps: Seq<(int, int)>) -> int
    decreases ps.len(),
{
    if ps.len() == 0 {
        0
    } else {
        list_mine_count(b, ps.drop_last()) + if is_mine_dot(cell_at(b, ps.last().0, ps.last().1)) {
            1int
        } else {
            0int
        }
    }
}

/// The number of mines among the neighbours of `(x, y)`: the count a
/// revealed cell there must carry.
pub open spec fn adj_mines(b: Seq<Seq<Dot>>, w: int, h: int, x: int, y: int) -> int {
    list_mine_count(b, neighbors_of(w, h, x, y))
}

/// How many cells of the row satisfy `f`.
pub open spec fn row_count(row: Seq<Dot>, f: spec_fn(Dot) -> bool) -> int
    decreases row.len(),
{
    if row.len() == 0 {
        0
    } else {
        row_count(row.drop_last(), f) + if f(row.last()) {
            1int
        } else {
            0int
        }
    }
}

/// How many cells of the whole board satisfy `f`.
pub open spec fn grid_count(b: Seq<Seq<Dot>>, f: spec_fn(Dot) -> bool) -> int
    decreases b.len(),
{
    if b.len() == 0 {
        0
    } else {
        grid_count(b.drop_last(), f) + row_count(b.last(), f)
    }
}

/// The predicate counted by `solved_count`.
pub open spec fn solved_pred() -> spec_fn(Dot) -> bool {
    |d: Dot| is_solved_dot(d)
}

/// The predicate counted by `unexplored_count`.
pub open spec fn unexplored_pred() -> spec_fn(Dot) -> bool {
    |d: Dot| d == Dot::Unexplored
}

/// The predicate counted by `mine_count`.
pub open spec fn mine_pred() -> spec_fn(Dot) -> bool {
    |d: Dot| is_mine_dot(d)
}

/// The number of cells correctly accounted for: revealed safe cells and
/// correctly flagged mines.
pub open spec fn solved_count(b: Seq<Seq<Dot>>) -> int {
    grid_count(b, solved_pred())
}

/// The number of cells still awaiting a first reveal or flag.
pub open spec fn unexplored_count(b: Seq<Seq<Dot>>) -> int {
    grid_count(b, unexplored_pred())
}

/// The number of cells that hide a mine, flagged or not.
pub open spec fn mine_count(b: Seq<Seq<Dot>>) -> int {
    grid_count(b, mine_pred())
}

/// Every revealed cell carries exactly the number of mines among its
/// neighbours.
pub open spec fn numbers_correct(b: Seq<Seq<Dot>>, w: int, h: int) -> bool {
    forall|x: int, y: int|
        in_grid(w, h, x, y) ==> (#[trigger] cell_at(b, x, y) matches Dot::Number(n) ==> n
            == adj_mines(b, w, h, x, y))
}

/// The two boards agree, cell by cell, on which positions hide a mine.
pub open spec fn mines_agree(b1: Seq<Seq<Dot>>, b2: Seq<Seq<Dot>>, w: int, h: int) -> bool {
    forall|x: int, y: int|
        in_grid(w, h, x, y)
            ==> is_mine_dot(#[trigger] cell_at(b2, x, y)) == is_mine_dot(cell_at(b1, x, y))
}

/// What a reveal may do to the board: cells already decided are left
/// exactly as they were, and unexplored cells either stay unexplored or
/// come up as a revealed count.
pub open spec fn reveal_frame(b1: Seq<Seq<Dot>>, b2: Seq<Seq<Dot>>, w: int, h: int) -> bool {
    forall|x: int, y: int|
        in_grid(w, h, x, y) ==> {
            &&& (cell_at(b1, x, y) != Dot::Unexplored ==> #[trigger] cell_at(b2, x, y) == cell_at(
                b1,
                x,
                y,
            ))
            &&& (cell_at(b1, x, y) == Dot::Unexplored ==> cell_at(b2, x, y) == Dot::Unexplored
                || cell_at(b2, x, y) is Number)
        }
}

/// Every newly revealed cell with no adjacent mines has had all of its
/// neighbours revealed in turn: the chain reveal ran to completion.
pub open spec fn zeros_saturated(b1: Seq<Seq<Dot>>, b2: Seq<Seq<Dot>>, w: int, h: int) -> bool {
    forall|x: int, y: int|
        in_grid(w, h, x, y) && cell_at(b1, x, y) == Dot::Unexplored && #[trigger] cell_at(b2, x, y)
            == Dot::Number(0u64)
            ==> forall|j: int|
                0 <= j < neighbors_of(w, h, x, y).len()
                    ==> cell_at(
                    b2,
                    #[trigger] neighbors_of(w, h, x, y)[j].0,
                    neighbors_of(w, h, x, y)[j].1,
                ) != Dot::Unexplored
}

/// The cell at `(x, y)` has a neighbour that was unexplored before the
/// reveal and has come up as zero: the parent that chained the reveal
/// over to it.
pub open spec fn has_zero_parent(
    b1: Seq<Seq<Dot>>,
    b2: Seq<Seq<Dot>>,
    w: int,
    h: int,
    x: int,
    y: int,
) -> bool {
    exists|q: int|
        0 <= q < neighbors_of(w, h, x, y).len() && cell_at(
            b1,
            (#[trigger] neighbors_of(w, h, x, y)[q]).0,
            neighbors_of(w, h, x, y)[q].1,
        ) == Dot::Unexplored && cell_at(
            b2,
            neighbors_of(w, h, x, y)[q].0,
            neighbors_of(w, h, x, y)[q].1,
        ) == Dot::Number(0u64)
}

/// Every cell the reveal at `(x, y)` opened beyond that cell itself was
/// chained to by a neighbour that came up as zero: the reveal touches
/// nothing outside the chain.
pub open spec fn chain_parented(
    b1: Seq<Seq<Dot>>,
    b2: Seq<Seq<Dot>>,
    w: int,
    h: int,
    x: int,
    y: int,
) -> bool {
    forall|i: int, j: int|
        in_grid(w, h, i, j) && (i != x || j != y) && cell_at(b1, i, j) == Dot::Unexplored
            && #[trigger] cell_at(b2, i, j) is Number ==> has_zero_parent(b1, b2, w, h, i, j)
}

/// The two boards agree on every cell except possibly `(x, y)`.
pub open spec fn only_cell_changed(
    b1: Seq<Seq<Dot>>,
    b2: Seq<Seq<Dot>>,
    w: int,
    h: int,
    x: int,
    y: int,
) -> bool {
    forall|i: int, j: int|
        in_grid(w, h, i, j) && (i != x || j != y) ==> #[trigger] cell_at(b2, i, j) == cell_at(
            b1,
            i,
            j,
        )
}

/// Every cell of the board is still unexplored.
pub open spec fn all_unexplored(b: Seq<Seq<Dot>>, w: int, h: int) -> bool {
    forall|x: int, y: int| in_grid(w, h, x, y) ==> #[trigger] cell_at(b, x, y) == Dot::Unexplored
}

/// Every cell is unexplored, a mine, or a revealed count: the shape of a
/// board that has seen reveals but no flags.
pub open spec fn no_flags(b: Seq<Seq<Dot>>, w: int, h: int) -> bool {
    forall|x: int, y: int|
        in_grid(w, h, x, y) ==> {
            ||| #[trigger] cell_at(b, x, y) == Dot::Unexplored
            ||| cell_at(b, x, y) == Dot::Mine
            ||| cell_at(b, x, y) is Number
        }
}

/// No revealed cell with a count of zero still has an unexplored
/// neighbour: on a board that has never been flagged, the chain reveal
/// leaves nothing behind.
pub open spec fn zeros_exhausted(b: Seq<Seq<Dot>>, w: int, h: int) -> bool {
    forall|x: int, y: int|
        in_grid(w, h, x, y) && #[trigger] cell_at(b, x, y) == Dot::Number(0u64)
            ==> forall|j: int|
                0 <= j < neighbors_of(w, h, x, y).len()
                    ==> cell_at(
                    b,
                    #[trigger] neighbors_of(w, h, x, y)[j].0,
                    neighbors_of(w, h, x, y)[j].1,
                ) != Dot::Unexplored
}

/// The rows of an owned board seen at the spec level.
pub open spec fn rows_view(v: Seq<Vec<Dot>>) -> Seq<Seq<Dot>> {
    v.map_values(|r: Vec<Dot>| r@)
}

/// A coordinate list seen at the spec level.
pub open spec fn coords_view(s: Seq<(usize, usize)>) -> Seq<(int, int)> {
    s.map_values(|p: (usize, usize)| (p.0 as int, p.1 as int))
}

/// The board after the player toggles the flag at `(x, y)`.
pub open spec fn flag_board(b: Seq<Seq<Dot>>, x: int, y: int) -> Seq<Seq<Dot>> {
    update_cell(b, x, y, flag_toggle(cell_at(b, x, y)))
}

/// A count over a row stays between zero and the row's length.
pub proof fn lemma_row_count_bounds(row: Seq<Dot>, f: spec_fn(Dot) -> bool)
    ensures
        0 <= row_count(row, f) <= row.len(),
        row_count(row, f) == row.len() <==> (forall|x: int|
            0 <= x < row.len() ==> f(#[trigger] row[x])),
        row_count(row, f) == 0 <==> (forall|x: int| 0 <= x < row.len() ==> !f(#[trigger] row[x])),
    decreases row.len(),
{
    if row.len() > 0 {
        let prefix = row.drop_last();
        lemma_row_count_bounds(prefix, f);
        assert(forall|x: int| 0 <= x < row.len() - 1 ==> #[trigger] prefix[x] == row[x]);
        assert(row.last() == row[row.len() - 1]);
        if row_count(row, f) == row.len() {
            assert forall|x: int| 0 <= x < row.len() implies f(#[trigger] row[x]) by {
                if x < row.len() - 1 {
                    assert(f(prefix[x]));
                }
            }
        }
        if forall|x: int| 0 <= x < row.len() ==> f(#[trigger] row[x]) {
            assert forall|x: int| 0 <= x < prefix.len() implies f(#[trigger] prefix[x]) by {
                assert(f(row[x]));
            }
            assert(f(row.last()));
        }
        if row_count(row, f) == 0 {
            assert forall|x: int| 0 <= x < row.len() implies !f(#[trigger] row[x]) by {
                if x < row.len() - 1 {
                    assert(!f(prefix[x]));
                }
            }
        }
        if forall|x: int| 0 <= x < row.len() ==> !f(#[trigger] row[x]) {
            assert forall|x: int| 0 <= x < prefix.len() implies !f(#[trigger] prefix[x]) by {
                assert(!f(row[x]));
            }
            assert(!f(row.last()));
        }
    }
}

/// A count over the board stays between zero and the number of cells, and
/// reaches the number of cells exactly when every cell satisfies `f`.
pub proof fn lemma_grid_count_bounds(b: Seq<Seq<Dot>>, w: int, h: int, f: spec_fn(Dot) -> bool)
    requires
        grid_dims(b, w, h),
    ensures
        0 <= grid_count(b, f) <= w * h,
        grid_count(b, f) == w * h <==> (forall|x: int, y: int|
            in_grid(w, h, x, y) ==> f(#[trigger] cell_at(b, x, y))),
        grid_count(b, f) == 0 <==> (forall|x: int, y: int|
            in_grid(w, h, x, y) ==> !f(#[trigger] cell_at(b, x, y))),
    decreases b.len(),
{
    if b.len() == 0 {
        assert(w * h == 0) by (nonlinear_arith)
            requires h == 0;
    } else {
        let prefix = b.drop_last();
        let last = b.last();
        assert(grid_dims(prefix, w, h - 1));
        lemma_grid_count_bounds(prefix, w, h - 1, f);
        lemma_row_count_bounds(last, f);
        assert(w * (h - 1) + w == w * h) by (nonlinear_arith);
        assert(forall|y: int| 0 <= y < h - 1 ==> #[trigger] prefix[y] == b[y]);
        assert(last == b[h - 1]);
        assert(forall|x: int, y: int|
            in_grid(w, h - 1, x, y) ==> #[trigger] cell_at(prefix, x, y) == cell_at(b, x, y));
        assert(forall|x: int| 0 <= x < w ==> #[trigger] last[x] == cell_at(b, x, h - 1));
        if grid_count(b, f) == w * h {
            assert(grid_count(prefix, f) == w * (h - 1) && row_count(last, f) == w);
            assert forall|x: int, y: int| in_grid(w, h, x, y) implies f(
                #[trigger] cell_at(b, x, y),
            ) by {
                if y < h - 1 {
                    assert(f(cell_at(prefix, x, y)));
                } else {
                    assert(f(last[x]));
                }
            }
        }
        if forall|x: int, y: int| in_grid(w, h, x, y) ==> f(#[trigger] cell_at(b, x, y)) {
            assert forall|x: int, y: int| in_grid(w, h - 1, x, y) implies f(
                #[trigger] cell_at(prefix, x, y),
            ) by {
                assert(f(cell_at(b, x, y)));
            }
            assert forall|x: int| 0 <= x < w implies f(#[trigger] last[x]) by {
                assert(f(cell_at(b, x, h - 1)));
            }
        }
        if grid_count(b, f) == 0 {
            assert forall|x: int, y: int| in_grid(w, h, x, y) implies !f(
                #[trigger] cell_at(b, x, y),
            ) by {
                if y < h - 1 {
                    assert(!f(cell_at(prefix, x, y)));
                } else {
                    assert(!f(last[x]));
                }
            }
        }
        if forall|x: int, y: int| in_grid(w, h, x, y) ==> !f(#[trigger] cell_at(b, x, y)) {
            assert forall|x: int, y: int| in_grid(w, h - 1, x, y) implies !f(
                #[trigger] cell_at(prefix, x, y),
            ) by {
                assert(!f(cell_at(b, x, y)));
            }
            assert forall|x: int| 0 <= x < w implies !f(#[trigger] last[x]) by {
                assert(!f(cell_at(b, x, h - 1)));
            }
        }
    }
}

/// Replacing one cell of a row moves a count by exactly the difference the
/// two cells make to `f`.
pub proof fn lemma_row_count_update(row: Seq<Dot>, x: int, d: Dot, f: spec_fn(Dot) -> bool)
    requires
        0 <= x < row.len(),
    ensures
        row_count(row.update(x, d), f) == row_count(row, f) - (if f(row[x]) {
            1int
        } else {
            0int
        }) + (if f(d) {
            1int
        } else {
            0int
        }),
    decreases row.len(),
{
    let updated = row.update(x, d);
    if x == row.len() - 1 {
        assert(updated.drop_last() =~= row.drop_last());
        assert(updated.last() == d);
    } else {
        assert(updated.drop_last() =~= row.drop_last().update(x, d));
        assert(updated.last() == row.last());
        lemma_row_count_update(row.drop_last(), x, d, f);
        assert(row.drop_last()[x] == row[x]);
    }
}

/// Replacing one cell of the board moves a count by exactly the difference
/// the two cells make to `f`.
pub proof fn lemma_grid_count_update(
    b: Seq<Seq<Dot>>,
    w: int,
    h: int,
    x: int,
    y: int,
    d: Dot,
    f: spec_fn(Dot) -> bool,
)
    requires
        grid_dims(b, w, h),
        in_grid(w, h, x, y),
    ensures
        grid_count(update_cell(b, x, y, d), f) == grid_count(b, f) - (if f(cell_at(b, x, y)) {
            1int
        } else {
            0int
        }) + (if f(d) {
            1int
        } else {
            0int
        }),
    decreases b.len(),
{
    let updated = update_cell(b, x, y, d);
    if y == h - 1 {
        assert(updated.drop_last() =~= b.drop_last());
        assert(updated.last() == b[y].update(x, d));
        lemma_row_count_update(b[y], x, d, f);
        assert(b.last() == b[y]);
    } else {
        assert(updated.drop_last() =~= update_cell(b.drop_last(), x, y, d)) by {
            assert(b.drop_last()[y] == b[y]);
        }
        assert(updated.last() == b.last());
        assert(grid_dims(b.drop_last(), w, h - 1));
        lemma_grid_count_update(b.drop_last(), w, h - 1, x, y, d, f);
        assert(cell_at(b.drop_last(), x, y) == cell_at(b, x, y));
    }
}

/// Replacing one cell leaves the dimensions alone, sets that cell, and
/// leaves every other cell as it was.
pub proof fn lemma_update_cell(b: Seq<Seq<Dot>>, w: int, h: int, x: int, y: int, d: Dot)
    requires
        grid_dims(b, w, h),
        in_grid(w, h, x, y),
    ensures
        grid_dims(update_cell(b, x, y, d), w, h),
        cell_at(update_cell(b, x, y, d), x, y) == d,
        forall|i: int, j: int|
            in_grid(w, h, i, j) && (i != x || j != y) ==> #[trigger] cell_at(
                update_cell(b, x, y, d),
                i,
                j,
            ) == cell_at(b, i, j),
{
    let updated = update_cell(b, x, y, d);
    assert(forall|j: int| 0 <= j < h && j != y ==> #[trigger] updated[j] == b[j]);
    assert(updated[y] == b[y].update(x, d));
}

/// Every listed neighbour lies on the board, and there are at most eight.
pub proof fn lemma_neighbors_upto(w: int, h: int, x: int, y: int, k: int)
    requires
        0 <= k <= 8,
    ensures
        neighbors_upto(w, h, x, y, k).len() <= k,
        forall|j: int|
            0 <= j < neighbors_upto(w, h, x, y, k).len() ==> in_grid(
                w,
                h,
                (#[trigger] neighbors_upto(w, h, x, y, k)[j]).0,
                neighbors_upto(w, h, x, y, k)[j].1,
            ),
    decreases k,
{
    if k > 0 {
        lemma_neighbors_upto(w, h, x, y, k - 1);
    }
}

/// Every neighbour coordinate lies on the board, and there are at most
/// eight of them.
pub proof fn lemma_neighbors_in_grid(w: int, h: int, x: int, y: int)
    ensures
        neighbors_of(w, h, x, y).len() <= 8,
        forall|j: int|
            0 <= j < neighbors_of(w, h, x, y).len() ==> in_grid(
                w,
                h,
                (#[trigger] neighbors_of(w, h, x, y)[j]).0,
                neighbors_of(w, h, x, y)[j].1,
            ),
{
    lemma_neighbors_upto(w, h, x, y, 8);
}

/// A mine count over a list of coordinates stays between zero and the
/// list's length.
pub proof fn lemma_list_mine_count_bounds(b: Seq<Seq<Dot>>, ps: Seq<(int, int)>)
    ensures
        0 <= list_mine_count(b, ps) <= ps.len(),
    decreases ps.len(),
{
    if ps.len() > 0 {
        lemma_list_mine_count_bounds(b, ps.drop_last());
    }
}

/// An adjacent-mine count always lies between zero and eight.
pub proof fn lemma_adj_mines_bounds(b: Seq<Seq<Dot>>, w: int, h: int, x: int, y: int)
    ensures
        0 <= adj_mines(b, w, h, x, y) <= 8,
{
    lemma_neighbors_in_grid(w, h, x, y);
    lemma_list_mine_count_bounds(b, neighbors_of(w, h, x, y));
}

/// Two boards that agree on mine positions at every listed coordinate give
/// the same mine count over the list.
pub proof fn lemma_list_mine_count_agree(
    b1: Seq<Seq<Dot>>,
    b2: Seq<Seq<Dot>>,
    ps: Seq<(int, int)>,
)
    requires
        forall|j: int|
            0 <= j < ps.len() ==> is_mine_dot(
                cell_at(b1, (#[trigger] ps[j]).0, ps[j].1),
            ) == is_mine_dot(cell_at(b2, ps[j].0, ps[j].1)),
    ensures
        list_mine_count(b1, ps) == list_mine_count(b2, ps),
    decreases ps.len(),
{
    if ps.len() > 0 {
        assert(forall|j: int| 0 <= j < ps.len() - 1 ==> #[trigger] ps.drop_last()[j] == ps[j]);
        lemma_list_mine_count_agree(b1, b2, ps.drop_last());
        assert(ps.last() == ps[ps.len() - 1]);
    }
}

/// Two boards that agree on mine positions everywhere give every cell the
/// same adjacent-mine count.
pub proof fn lemma_adj_mines_agree(b1: Seq<Seq<Dot>>, b2: Seq<Seq<Dot>>, w: int, h: int, x: int, y: int)
    requires
        mines_agree(b1, b2, w, h),
    ensures
        adj_mines(b1, w, h, x, y) == adj_mines(b2, w, h, x, y),
{
    lemma_neighbors_in_grid(w, h, x, y);
    lemma_list_mine_count_agree(b1, b2, neighbors_of(w, h, x, y));
}

/// Two boards whose cells satisfy `f` at exactly the same positions give
/// the same count.
pub proof fn lemma_row_count_pointwise(row1: Seq<Dot>, row2: Seq<Dot>, f: spec_fn(Dot) -> bool)
    requires
        row1.len() == row2.len(),
        forall|x: int| 0 <= x < row1.len() ==> f(#[trigger] row1[x]) == f(row2[x]),
    ensures
        row_count(row1, f) == row_count(row2, f),
    decreases row1.len(),
{
    if row1.len() > 0 {
        assert(forall|x: int|
            0 <= x < row1.len() - 1 ==> #[trigger] row1.drop_last()[x] == row1[x]);
        assert(forall|x: int|
            0 <= x < row2.len() - 1 ==> #[trigger] row2.drop_last()[x] == row2[x]);
        lemma_row_count_pointwise(row1.drop_last(), row2.drop_last(), f);
        assert(row1.last() == row1[row1.len() - 1]);
        assert(row2.last() == row2[row2.len() - 1]);
    }
}

/// Two boards whose cells satisfy `f` at exactly the same positions give
/// the same count.
pub proof fn lemma_grid_count_pointwise(
    b1: Seq<Seq<Dot>>,
    b2: Seq<Seq<Dot>>,
    w: int,
    h: int,
    f: spec_fn(Dot) -> bool,
)
    requires
        grid_dims(b1, w, h),
        grid_dims(b2, w, h),
        forall|x: int, y: int|
            in_grid(w, h, x, y) ==> f(#[trigger] cell_at(b1, x, y)) == f(cell_at(b2, x, y)),
    ensures
        grid_count(b1, f) == grid_count(b2, f),
    decreases b1.len(),
{
    if b1.len() > 0 {
        let p1 = b1.drop_last();
        let p2 = b2.drop_last();
        assert(forall|y: int| 0 <= y < h - 1 ==> #[trigger] p1[y] == b1[y]);
        assert(forall|y: int| 0 <= y < h - 1 ==> #[trigger] p2[y] == b2[y]);
        assert forall|x: int, y: int| in_grid(w, h - 1, x, y) implies f(
            #[trigger] cell_at(p1, x, y),
        ) == f(cell_at(p2, x, y)) by {
            assert(f(cell_at(b1, x, y)) == f(cell_at(b2, x, y)));
        }
        lemma_grid_count_pointwise(p1, p2, w, h - 1, f);
        assert(b1.last() == b1[h - 1]);
        assert(b2.last() == b2[h - 1]);
        assert forall|x: int| 0 <= x < w implies f(#[trigger] b1.last()[x]) == f(
            b2.last()[x],
        ) by {
            assert(f(cell_at(b1, x, h - 1)) == f(cell_at(b2, x, h - 1)));
        }
        lemma_row_count_pointwise(b1.last(), b2.last(), f);
    }
}

/// Stepping a mine count one coordinate further along a list.
pub proof fn lemma_list_mine_count_take_step(b: Seq<Seq<Dot>>, ps: Seq<(int, int)>, j: int)
    requires
        0 <= j < ps.len(),
    ensures
        list_mine_count(b, ps.take(j + 1)) == list_mine_count(b, ps.take(j)) + (if is_mine_dot(
            cell_at(b, ps[j].0, ps[j].1),
        ) {
            1int
        } else {
            0int
        }),
{
    assert(ps.take(j + 1).drop_last() =~= ps.take(j));
    assert(ps.take(j + 1).last() == ps[j]);
}

/// A mine count over a whole list is the count over its full prefix.
pub proof fn lemma_list_mine_count_take_all(b: Seq<Seq<Dot>>, ps: Seq<(int, int)>)
    ensures
        list_mine_count(b, ps.take(ps.len() as int)) == list_mine_count(b, ps),
{
    assert(ps.take(ps.len() as int) =~= ps);
}

} // verus!
